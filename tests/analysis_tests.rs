use reversi::analysis::{caclulate_score, eval, eval_corners, minimax, negamax, negamax_worker};
use reversi::board::{Board, Pos2D};
use reversi::color::Color;
use reversi::stat::Stat;

fn starting_board() -> Board {
    let mut b = Board::new();
    b.set_at_c('D', 3, Color::Black);
    b.set_at_c('D', 4, Color::White);
    b.set_at_c('E', 3, Color::White);
    b.set_at_c('E', 4, Color::Black);
    b
}

/// Plain negamax over every move, with no pruning.
fn full_negamax(board: &Board, color: Color, depth: i32, cutoff: i32) -> i32 {
    let moves = board.get_available_moves_for(color);
    if depth == 0 || moves.is_empty() {
        return eval(board, color, cutoff);
    }
    let mut best = i32::MIN + 1;
    for mv in moves {
        let mut child = Board::new_from(board);
        child.place(mv, color);
        let s = -full_negamax(&child, color.opposite(), depth - 1, cutoff);
        if s > best {
            best = s;
        }
    }
    best
}

/// The worst score over all replies to the position `b1`, with no pruning.
fn reply_value(b1: &Board, color: Color, depth: i32, cutoff: i32) -> i32 {
    let mut worst: Option<i32> = None;
    for r in b1.get_available_moves_for(color.opposite()) {
        let mut b2 = Board::new_from(b1);
        b2.place(r, color.opposite());
        let v = if depth > 1 {
            full_minimax(&b2, color, depth - 1, cutoff).unwrap_or_else(|| eval(&b2, color, cutoff))
        } else {
            eval(&b2, color, cutoff)
        };
        worst = Some(worst.map_or(v, |w| w.min(v)));
    }
    worst.unwrap_or_else(|| eval(b1, color, cutoff))
}

/// Plain two-ply search over every move and reply, with no pruning.
fn full_minimax(board: &Board, color: Color, depth: i32, cutoff: i32) -> Option<i32> {
    let mut best: Option<i32> = None;
    for mv in board.get_available_moves_for(color) {
        let mut b1 = Board::new_from(board);
        b1.place(mv, color);
        let score = reply_value(&b1, color, depth, cutoff);
        best = Some(best.map_or(score, |b| b.max(score)));
    }
    best
}

fn midgame_board() -> Board {
    let mut b = starting_board();
    b.place(Pos2D::new(2, 4), Color::Black);
    b.place(Pos2D::new(2, 5), Color::White);
    b.place(Pos2D::new(3, 5), Color::Black);
    b
}

#[test]
fn pruned_negamax_matches_full_search() {
    for board in [starting_board(), midgame_board()] {
        for color in [Color::Black, Color::White] {
            for depth in 1..=2 {
                for cutoff in [0, 52] {
                    let mut stat = Stat::new();
                    let (pos, score) = negamax(&board, color, depth, cutoff, &mut stat).unwrap();
                    assert_eq!(score, full_negamax(&board, color, depth * 2, cutoff));
                    let first = board
                        .get_available_moves_for(color)
                        .into_iter()
                        .find(|&mv| {
                            let mut child = Board::new_from(&board);
                            child.place(mv, color);
                            -full_negamax(&child, color.opposite(), depth * 2 - 1, cutoff) == score
                        })
                        .unwrap();
                    assert_eq!(pos, first);
                }
            }
        }
    }
}

#[test]
fn negamax_worker_window_bounds() {
    let board = midgame_board();
    let exact = full_negamax(&board, Color::White, 3, 52);
    let mut stat = Stat::new();
    let (hi, _) = negamax_worker(&board, Color::White, 3, 52, exact + 5, exact + 10, &mut stat);
    assert!(hi <= exact + 5 && exact <= hi);
    let (lo, _) = negamax_worker(&board, Color::White, 3, 52, exact - 10, exact - 5, &mut stat);
    assert!(lo >= exact - 5 && exact >= lo);
    let (inside, mv) = negamax_worker(&board, Color::White, 3, 52, exact - 1, exact + 1, &mut stat);
    assert_eq!(inside, exact);
    assert!(mv.is_some());
}

#[test]
fn negamax_proposes_legal_moves() {
    let board = starting_board();
    let legal = board.get_available_moves_for(Color::White);
    for depth in 1..=3 {
        let mut stat = Stat::new();
        let (pos, _) = negamax(&board, Color::White, depth, 52, &mut stat).unwrap();
        assert!(legal.contains(&pos));
        assert!(stat.nodes_viewed > 0);
    }
}

#[test]
fn negamax_without_moves_or_depth() {
    let mut stat = Stat::new();
    assert!(negamax(&Board::new(), Color::Black, 2, 52, &mut stat).is_none());
    assert!(negamax(&starting_board(), Color::Black, 0, 52, &mut stat).is_none());
    let (score, mv) = negamax_worker(&starting_board(), Color::Black, 0, 52, i32::MIN + 1, i32::MAX - 1, &mut stat);
    assert_eq!(score, eval(&starting_board(), Color::Black, 52));
    assert!(mv.is_none());
}

#[test]
fn minimax_matches_full_search() {
    for board in [starting_board(), midgame_board()] {
        for color in [Color::Black, Color::White] {
            for depth in 1..=2 {
                let mut stat = Stat::new();
                let (pos, score) = minimax(&board, color, depth, 52, &mut stat).unwrap();
                assert_eq!(Some(score), full_minimax(&board, color, depth, 52));
                let first = board
                    .get_available_moves_for(color)
                    .into_iter()
                    .find(|&mv| {
                        let mut b1 = Board::new_from(&board);
                        b1.place(mv, color);
                        reply_value(&b1, color, depth, 52) == score
                    })
                    .unwrap();
                assert_eq!(pos, first);
            }
        }
    }
    let mut stat = Stat::new();
    assert!(minimax(&Board::new(), Color::White, 1, 52, &mut stat).is_none());
}

#[test]
fn precorner_move_is_penalised() {
    let mut b = Board::new();
    b.set_at_c('C', 1, Color::Black);
    b.set_at_c('D', 1, Color::Black);
    b.set_at_c('E', 1, Color::White);
    let moves = b.get_available_moves_for(Color::White);
    assert_eq!(moves.len(), 1);
    let mut stat = Stat::new();
    let (pos, score) = negamax(&b, Color::White, 1, 64, &mut stat).unwrap();
    assert_eq!(pos, Pos2D::new(1, 1));
    assert!(score < 0);
}

#[test]
fn corner_move_is_rewarded() {
    let mut b = Board::new();
    b.set_at_c('F', 7, Color::White);
    b.set_at_c('G', 7, Color::Black);
    let moves = b.get_available_moves_for(Color::White);
    assert_eq!(moves.len(), 1);
    let mut stat = Stat::new();
    let (pos, score) = negamax(&b, Color::White, 1, 64, &mut stat).unwrap();
    assert_eq!(pos, Pos2D::new(7, 7));
    assert!(score > 0);
}

#[test]
fn eval_is_repeatable() {
    let b = midgame_board();
    assert_eq!(eval(&b, Color::Black, 52), eval(&b, Color::Black, 52));
    assert_eq!(eval(&b, Color::White, 0), eval(&b, Color::White, 0));
}

#[test]
fn endgame_eval_counts_discs() {
    let b = midgame_board();
    let (black, white) = caclulate_score(&b);
    assert_eq!((black, white), (5, 2));
    assert_eq!(b.num_occupied(), 7);
    assert_eq!(eval(&b, Color::Black, 7), 3);
    assert_eq!(eval(&b, Color::White, 0), -3);
}

#[test]
fn midgame_eval_exact_value() {
    // start: 4 moves each, no corner terms
    assert_eq!(eval(&starting_board(), Color::Black, 52), 0);
    let mut b = starting_board();
    b.set_at(Pos2D::new(0, 0), Color::Black);
    b.set_at(Pos2D::new(1, 0), Color::Black);
    b.set_at(Pos2D::new(6, 6), Color::White);
    assert_eq!(eval_corners(&b, Color::Black), 150);
    assert_eq!(eval_corners(&b, Color::White), -100);
    let (own, other) = b.count_available_moves(Color::Black, Color::White);
    assert_eq!(eval(&b, Color::Black, 52), own - other + 150 + 100);
}

#[test]
fn corner_terms() {
    let mut b = Board::new();
    assert_eq!(eval_corners(&b, Color::Black), 0);
    b.set_at(Pos2D::new(1, 1), Color::Black);
    assert_eq!(eval_corners(&b, Color::Black), -100);
    b.set_at(Pos2D::new(0, 0), Color::Black);
    assert_eq!(eval_corners(&b, Color::Black), 100);
    b.set_at(Pos2D::new(0, 1), Color::Black);
    assert_eq!(eval_corners(&b, Color::Black), 150);
    b.set_at(Pos2D::new(1, 0), Color::Black);
    assert_eq!(eval_corners(&b, Color::Black), 200);
    b.set_at(Pos2D::new(7, 7), Color::White);
    b.set_at(Pos2D::new(7, 6), Color::White);
    assert_eq!(eval_corners(&b, Color::White), 150);
    b.set_at(Pos2D::new(6, 1), Color::White);
    assert_eq!(eval_corners(&b, Color::White), 50);
}

#[test]
fn corner_with_both_neighbours_scores_higher() {
    let mut bare = Board::new();
    bare.set_at(Pos2D::new(0, 0), Color::Black);
    bare.set_at(Pos2D::new(4, 4), Color::White);
    let mut arms = Board::new_from(&bare);
    arms.set_at(Pos2D::new(1, 0), Color::Black);
    arms.set_at(Pos2D::new(0, 1), Color::Black);
    assert_eq!(eval_corners(&arms, Color::Black), eval_corners(&bare, Color::Black) + 100);
    assert!(eval(&arms, Color::Black, 52) > eval(&bare, Color::Black, 52));
    assert!(eval(&arms, Color::Black, 0) > eval(&bare, Color::Black, 0));
}

#[test]
fn stat_counts_nodes() {
    let mut stat = Stat::new();
    assert_eq!(stat.nodes_viewed, 0);
    stat.count_node();
    assert_eq!(stat.nodes_viewed, 1);
    stat.nodes_viewed = u32::MAX;
    stat.count_node();
    assert_eq!(stat.nodes_viewed, 0);
}
