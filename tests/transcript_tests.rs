use reversi::board::{Board, Pos2D};
use reversi::color::Color;
use reversi::transcript::Transcript;

fn starting_board() -> Board {
    let mut b = Board::new();
    b.set_at_c('D', 3, Color::Black);
    b.set_at_c('D', 4, Color::White);
    b.set_at_c('E', 3, Color::White);
    b.set_at_c('E', 4, Color::Black);
    b
}

#[test]
fn reads_a_trace() {
    let t = Transcript::from_trace("bc4wc3bc2");
    assert_eq!(
        t.moves,
        vec![
            (Color::Black, Pos2D::new(2, 4)),
            (Color::White, Pos2D::new(2, 3)),
            (Color::Black, Pos2D::new(2, 2)),
        ]
    );
    assert!(Transcript::from_trace("").moves.is_empty());
}

#[test]
fn writes_what_it_reads() {
    let text = "bc4wc3bc2wb3";
    assert_eq!(Transcript::from_trace(text).to_trace(), text);
    let mut t = Transcript::new();
    t.add(Pos2D::new(7, 0), Color::White);
    t.add(Pos2D::new(0, 7), Color::Black);
    assert_eq!(t.to_trace(), "wh0ba7");
}

#[test]
fn back_takes_one_round() {
    let mut t = Transcript::from_trace("bc4wc3bc2wb3");
    assert_eq!(t.back(), Color::Black);
    assert_eq!(t.to_trace(), "bc4wc3");
}

#[test]
fn replays_moves() {
    let t = Transcript::from_trace("bc4wc3bc2");
    let mut b = starting_board();
    assert!(b.can_replay(&t));
    let last = b.replay_transcript(&t);
    assert_eq!(last, Color::Black);
    assert_eq!(b.get_at(Pos2D::new(2, 4)), Color::Black);
    assert_eq!(b.get_at(Pos2D::new(2, 2)), Color::Black);
    assert_eq!(b.num_occupied(), 7);
    let mut fresh = starting_board();
    assert_eq!(fresh.replay_transcript(&Transcript::new()), Color::White);
}

#[test]
fn illegal_transcripts_are_detected() {
    let b = starting_board();
    assert!(!b.can_replay(&Transcript::from_trace("ba0")));
    assert!(!b.can_replay(&Transcript::from_trace("bc4bc4")));
}

#[test]
fn position_names() {
    assert_eq!(Pos2D::new(2, 4).name(), "c4");
    assert_eq!(Pos2D::new(7, 0).name(), "h0");
    assert_eq!(Pos2D::from_name("c4"), Some(Pos2D::new(2, 4)));
    assert_eq!(Pos2D::from_name("h7"), Some(Pos2D::new(7, 7)));
    assert_eq!(Pos2D::from_name("i4"), None);
    assert_eq!(Pos2D::from_name("c8"), None);
    assert_eq!(Pos2D::from_name("c44"), None);
}
