use reversi::board::{Board, Pos2D};
use reversi::color::{color_full_name, color_short_name, Color};

fn get_starting_board() -> Board {
    let mut b = Board::new();
    b.set_at_c('D', 3, Color::Black);
    b.set_at_c('D', 4, Color::White);
    b.set_at_c('E', 3, Color::White);
    b.set_at_c('E', 4, Color::Black);
    b
}

#[test]
fn test_pos2d() {
    let p = Pos2D::new(3, 4);
    assert_eq!(p.i, 3);
    assert_eq!(p.j, 4);
}

#[test]
fn test_board_cloning() {
    let mut b = Board::new();
    let b2 = Board::new_from(&b);
    b.set_at_c('c', 4, Color::Black);
    assert_eq!(b.get_at_c('c', 4), Color::Black);
    assert_eq!(b2.get_at_c('c', 4), Color::Empty);
}

#[test]
fn test_get_available_moves_for_black() {
    let b = get_starting_board();
    let mut moves = b.get_available_moves_for(Color::Black);

    assert_eq!(moves.iter().count(), 4);

    moves.sort_by(|a, b| (a.i * 100 + a.j).cmp(&(b.i * 100 + b.j)));

    assert_eq!(moves[0], Pos2D::new(2, 4));
    assert_eq!(moves[1], Pos2D::new(3, 5));
    assert_eq!(moves[2], Pos2D::new(4, 2));
    assert_eq!(moves[3], Pos2D::new(5, 3));
}

#[test]
fn test_get_available_moves_for_white() {
    let b = get_starting_board();
    let mut moves = b.get_available_moves_for(Color::White);

    assert_eq!(moves.iter().count(), 4);

    moves.sort_by(|a, b| (a.i * 100 + a.j).cmp(&(b.i * 100 + b.j)));

    assert_eq!(moves[0], Pos2D::new(2, 3));
    assert_eq!(moves[1], Pos2D::new(3, 2));
    assert_eq!(moves[2], Pos2D::new(4, 5));
    assert_eq!(moves[3], Pos2D::new(5, 4));
}

#[test]
fn occupied_cells_are_never_legal() {
    let b = get_starting_board();
    for i in 0..8 {
        for j in 0..8 {
            let p = Pos2D::new(i, j);
            if b.get_at(p) != Color::Empty {
                assert!(!b.can_place(p, Color::Black));
                assert!(!b.can_place(p, Color::White));
            }
        }
    }
}

#[test]
fn place_flips_and_counts() {
    let mut b = get_starting_board();
    assert_eq!(b.num_occupied(), 4);
    assert_eq!(b.num_of_color(Color::Black), 2);
    assert_eq!(b.num_of_color(Color::White), 2);
    b.place(Pos2D::new(2, 4), Color::Black);
    // one disc turned over: (3,4)
    assert_eq!(b.get_at(Pos2D::new(3, 4)), Color::Black);
    assert_eq!(b.get_at(Pos2D::new(2, 4)), Color::Black);
    assert_eq!(b.num_of_color(Color::Black), 2 + 1 + 1);
    assert_eq!(b.num_of_color(Color::White), 2 - 1);
    assert_eq!(b.num_occupied(), 5);
}

#[test]
fn place_flips_several_directions() {
    // Black plays (0,0) closing a run along the row and along the diagonal.
    let mut b = Board::new();
    b.set_at(Pos2D::new(1, 0), Color::White);
    b.set_at(Pos2D::new(2, 0), Color::White);
    b.set_at(Pos2D::new(3, 0), Color::Black);
    b.set_at(Pos2D::new(1, 1), Color::White);
    b.set_at(Pos2D::new(2, 2), Color::Black);
    b.set_at(Pos2D::new(0, 1), Color::White);
    assert!(b.can_place(Pos2D::new(0, 0), Color::Black));
    b.place(Pos2D::new(0, 0), Color::Black);
    assert_eq!(b.get_at(Pos2D::new(1, 0)), Color::Black);
    assert_eq!(b.get_at(Pos2D::new(2, 0)), Color::Black);
    assert_eq!(b.get_at(Pos2D::new(1, 1)), Color::Black);
    // not closed by Black: stays White
    assert_eq!(b.get_at(Pos2D::new(0, 1)), Color::White);
    assert_eq!(b.num_of_color(Color::Black), 6);
    assert_eq!(b.num_of_color(Color::White), 1);
}

#[test]
fn run_reaching_the_edge_is_not_legal() {
    let mut b = Board::new();
    b.set_at(Pos2D::new(6, 0), Color::White);
    b.set_at(Pos2D::new(7, 0), Color::White);
    assert!(!b.can_place(Pos2D::new(5, 0), Color::Black));
    assert!(!b.has_any_moves(Color::Black));
    assert_eq!(b.get_available_moves_for(Color::Black).len(), 0);
}

#[test]
fn empty_gap_breaks_a_run() {
    let mut b = Board::new();
    b.set_at(Pos2D::new(1, 3), Color::White);
    b.set_at(Pos2D::new(3, 3), Color::Black);
    assert!(!b.can_place(Pos2D::new(0, 3), Color::Black));
}

#[test]
fn moves_come_in_search_order() {
    // corner moves come before others
    let mut b = Board::new();
    b.set_at(Pos2D::new(1, 1), Color::White);
    b.set_at(Pos2D::new(2, 2), Color::Black);
    b.set_at(Pos2D::new(4, 0), Color::White);
    b.set_at(Pos2D::new(5, 0), Color::Black);
    let moves = b.get_available_moves_for(Color::Black);
    assert_eq!(moves, vec![Pos2D::new(0, 0), Pos2D::new(3, 0)]);
}

#[test]
fn center_cells_are_searched() {
    let mut b = Board::new();
    b.set_at(Pos2D::new(3, 2), Color::White);
    b.set_at(Pos2D::new(3, 1), Color::Black);
    assert!(b.can_place(Pos2D::new(3, 3), Color::Black));
    assert_eq!(b.get_available_moves_for(Color::Black), vec![Pos2D::new(3, 3)]);
}

#[test]
fn counting_moves_for_both_colors() {
    let b = get_starting_board();
    assert_eq!(b.count_available_moves(Color::Black, Color::White), (4, 4));
    assert!(b.has_any_moves(Color::White));
    assert!(!Board::new().has_any_moves(Color::Black));
}

#[test]
fn column_letters_ignore_case() {
    let mut b = Board::new();
    b.set_at_c('H', 7, Color::White);
    assert_eq!(b.get_at_c('h', 7), Color::White);
    assert_eq!(b.get_at(Pos2D::new(7, 7)), Color::White);
    b.set_at_c('a', 0, Color::Black);
    assert_eq!(b.get_at_c('A', 0), Color::Black);
}

#[test]
fn empty_board_counts() {
    let b = Board::new();
    assert_eq!(b.num_occupied(), 0);
    assert_eq!(b.num_of_color(Color::Empty), 64);
}

#[test]
fn colors() {
    assert_eq!(Color::Black.opposite(), Color::White);
    assert_eq!(Color::White.opposite(), Color::Black);
    assert!(Color::Empty.is_empty());
    assert!(!Color::Shadow.is_empty());
    assert_eq!(color_short_name(Color::Black), "B");
    assert_eq!(color_short_name(Color::White), "W");
    assert_eq!(color_short_name(Color::Empty), " ");
    assert_eq!(color_short_name(Color::Shadow), ".");
    assert_eq!(color_full_name(Color::White), "White");
    assert_eq!(color_full_name(Color::Black), "Black");
}
