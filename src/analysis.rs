use vstd::prelude::*;

use crate::board::{
    after_place, at, count, idx, lemma_count_update, lemma_prefix_legal, legal_moves, occupied, Board,
    Pos2D,
};
use crate::stat::Stat;
use crate::color::Color;

verus! {

/// Largest size of any score that `eval` gives.
pub const EVAL_BOUND: i32 = 2000;

/// The stability term of one corner for `c`: holding the corner is worth 100
/// and each of its two edge neighbours held as well 50 more; with the corner
/// still empty, holding the cell diagonally next to it costs 100.
pub open spec fn corner_term(b: Seq<Color>, c: Color, corner: Pos2D, edge1: Pos2D, edge2: Pos2D, diag: Pos2D) -> int {
    if at(b, corner.i as int, corner.j as int) == c {
        100 + (if at(b, edge1.i as int, edge1.j as int) == c {
            50int
        } else {
            0int
        }) + (if at(b, edge2.i as int, edge2.j as int) == c {
            50int
        } else {
            0int
        })
    } else if at(b, corner.i as int, corner.j as int) == Color::Empty && at(b, diag.i as int, diag.j as int) == c {
        -100
    } else {
        0
    }
}

pub open spec fn pos(i: int, j: int) -> Pos2D {
    Pos2D { i: i as usize, j: j as usize }
}

/// The stability term of all four corners for `c`.
pub open spec fn corners_score(b: Seq<Color>, c: Color) -> int {
    corner_term(b, c, pos(0, 0), pos(1, 0), pos(0, 1), pos(1, 1)) + corner_term(
        b,
        c,
        pos(7, 0),
        pos(6, 0),
        pos(7, 1),
        pos(6, 1),
    ) + corner_term(b, c, pos(0, 7), pos(1, 7), pos(0, 6), pos(1, 6)) + corner_term(
        b,
        c,
        pos(7, 7),
        pos(6, 7),
        pos(7, 6),
        pos(6, 6),
    )
}

/// The number of legal moves of `c`.
pub open spec fn mobility(b: Seq<Color>, c: Color) -> int {
    legal_moves(b, c).len() as int
}

/// The static score of `b` for `c`. Below `cutoff` occupied cells it is the
/// difference in legal moves plus the difference in corner stability; from
/// `cutoff` on it is the difference in discs.
pub open spec fn eval_spec(b: Seq<Color>, c: Color, cutoff: int) -> int {
    if occupied(b) < cutoff {
        mobility(b, c) - mobility(b, c.opp()) + corners_score(b, c) - corners_score(b, c.opp())
    } else {
        count(b, c) - count(b, c.opp())
    }
}

/// The stability term of one corner, as `corner_term` states it.
fn corner_bonus(board: &Board, color: Color, corner: Pos2D, edge1: Pos2D, edge2: Pos2D, diag: Pos2D) -> (r: i32)
    requires
        corner.valid(),
        edge1.valid(),
        edge2.valid(),
        diag.valid(),
    ensures
        r == corner_term(board@, color, corner, edge1, edge2, diag),
{
    let held = board.get_at(corner);
    if held == color {
        let mut score: i32 = 100;
        if board.get_at(edge1) == color {
            score += 50;
        }
        if board.get_at(edge2) == color {
            score += 50;
        }
        score
    } else if held == Color::Empty && board.get_at(diag) == color {
        -100
    } else {
        0
    }
}

/// The stability term of the four corners for `color`.
pub fn eval_corners(board: &Board, color: Color) -> (r: i32)
    ensures
        r == corners_score(board@, color),
        -400 <= r <= 800,
{
    corner_bonus(board, color, Pos2D::new(0, 0), Pos2D::new(1, 0), Pos2D::new(0, 1), Pos2D::new(1, 1))
        + corner_bonus(board, color, Pos2D::new(7, 0), Pos2D::new(6, 0), Pos2D::new(7, 1), Pos2D::new(6, 1))
        + corner_bonus(board, color, Pos2D::new(0, 7), Pos2D::new(1, 7), Pos2D::new(0, 6), Pos2D::new(1, 6))
        + corner_bonus(board, color, Pos2D::new(7, 7), Pos2D::new(6, 7), Pos2D::new(7, 6), Pos2D::new(6, 6))
}

/// The static score of `board` for `color`, switching from position to
/// material once `cutoff_to_count` cells are occupied.
pub fn eval(board: &Board, color: Color, cutoff_to_count: i32) -> (r: i32)
    requires
        color.is_disc(),
    ensures
        r == eval_spec(board@, color, cutoff_to_count as int),
        -EVAL_BOUND <= r <= EVAL_BOUND,
{
    proof {
        board.lemma_len();
        crate::board::lemma_prefix_legal(board@, color, 64);
        crate::board::lemma_prefix_legal(board@, color.opp(), 64);
        crate::board::lemma_count_bound(board@, color);
        crate::board::lemma_count_bound(board@, color.opp());
    }
    let occupied = board.num_occupied();
    if (occupied as i32) < cutoff_to_count {
        let (own, other) = board.count_available_moves(color, color.opposite());
        let mut score: i32 = own - other;
        score += eval_corners(board, color);
        score -= eval_corners(board, color.opposite());
        score
    } else {
        board.num_of_color(color) as i32 - board.num_of_color(color.opposite()) as i32
    }
}

/// The worst score a search reports; one above `i32::MIN`, so that it can be
/// negated.
pub const WORST: i32 = -2147483647;

/// The board after `c` moves at `m`.
pub open spec fn child(b: Seq<Color>, c: Color, m: Pos2D) -> Seq<Color> {
    after_place(b, m.i as int, m.j as int, c)
}

/// The negamax value of `b` for `c` to move, searched `depth` plies deep: the
/// static score at depth 0 or where `c` has no move, and otherwise the best,
/// over the moves of `c`, of the negated value of the reply position.
pub open spec fn negamax_value(b: Seq<Color>, c: Color, depth: int, cutoff: int) -> int
    decreases depth, 1int, 0int,
{
    if depth <= 0 || legal_moves(b, c).len() == 0 {
        eval_spec(b, c, cutoff)
    } else {
        negamax_best(b, c, depth, cutoff, legal_moves(b, c).len() as int)
    }
}

/// The best score over the first `n` moves of `c`, starting from `WORST`.
pub open spec fn negamax_best(b: Seq<Color>, c: Color, depth: int, cutoff: int, n: int) -> int
    decreases depth, 0int, n,
{
    if depth <= 0 || n <= 0 {
        WORST as int
    } else {
        let prev = negamax_best(b, c, depth, cutoff, n - 1);
        let s = -negamax_value(child(b, c, legal_moves(b, c)[n - 1]), c.opp(), depth - 1, cutoff);
        if s > prev {
            s
        } else {
            prev
        }
    }
}

/// The score of the `j`-th move of `c` (in search order) for `c`: the negated
/// negamax value of the position it leads to.
pub open spec fn move_score(b: Seq<Color>, c: Color, depth: int, cutoff: int, j: int) -> int {
    -negamax_value(child(b, c, legal_moves(b, c)[j]), c.opp(), depth - 1, cutoff)
}

/// `m` is the `i`-th move of `c`, and every earlier move scores below `score`.
pub open spec fn first_above_rest(b: Seq<Color>, c: Color, depth: int, cutoff: int, m: Pos2D, i: int, score: int) -> bool {
    &&& 0 <= i < legal_moves(b, c).len()
    &&& legal_moves(b, c)[i] == m
    &&& forall|j: int| 0 <= j < i ==> #[trigger] move_score(b, c, depth, cutoff, j) < score
}

/// Every static score lies within `EVAL_BOUND`.
pub proof fn lemma_eval_bound(b: Seq<Color>, c: Color, cutoff: int)
    requires
        b.len() == 64,
    ensures
        -EVAL_BOUND <= eval_spec(b, c, cutoff) <= EVAL_BOUND,
{
    crate::board::lemma_prefix_legal(b, c, 64);
    crate::board::lemma_prefix_legal(b, c.opp(), 64);
    crate::board::lemma_count_bound(b, c);
    crate::board::lemma_count_bound(b, c.opp());
}

/// Every negamax value lies within `EVAL_BOUND`.
pub proof fn lemma_value_bound(b: Seq<Color>, c: Color, depth: int, cutoff: int)
    requires
        b.len() == 64,
    ensures
        -EVAL_BOUND <= negamax_value(b, c, depth, cutoff) <= EVAL_BOUND,
    decreases depth, 1int, 0int,
{
    if depth <= 0 || legal_moves(b, c).len() == 0 {
        lemma_eval_bound(b, c, cutoff);
    } else {
        lemma_best_bound(b, c, depth, cutoff, legal_moves(b, c).len() as int);
    }
}

/// Over at least one move, the best score lies within `EVAL_BOUND`.
pub proof fn lemma_best_bound(b: Seq<Color>, c: Color, depth: int, cutoff: int, n: int)
    requires
        b.len() == 64,
        depth >= 1,
        1 <= n <= legal_moves(b, c).len(),
    ensures
        -EVAL_BOUND <= negamax_best(b, c, depth, cutoff, n) <= EVAL_BOUND,
    decreases depth, 0int, n,
{
    let ch = child(b, c, legal_moves(b, c)[n - 1]);
    assert(ch.len() == 64);
    lemma_value_bound(ch, c.opp(), depth - 1, cutoff);
    assert(-EVAL_BOUND <= -negamax_value(ch, c.opp(), depth - 1, cutoff) <= EVAL_BOUND);
    if n > 1 {
        lemma_best_bound(b, c, depth, cutoff, n - 1);
    }
}

/// Looking at more moves never lowers the best score.
pub proof fn lemma_best_mono(b: Seq<Color>, c: Color, depth: int, cutoff: int, m: int, n: int)
    requires
        depth >= 1,
        0 <= m <= n,
    ensures
        negamax_best(b, c, depth, cutoff, m) <= negamax_best(b, c, depth, cutoff, n),
    decreases n - m,
{
    if m < n {
        lemma_best_mono(b, c, depth, cutoff, m, n - 1);
    }
}

/// Negamax with alpha-beta pruning, `depth` plies deep, inside the window
/// `(alpha, beta)`. Returns the score and, where `color` has a move and depth is
/// left, the move that reaches it: every earlier move in search order scores
/// below it, and inside the window the move's own score is exactly it.
///
/// A score strictly inside the window is the exact negamax value; a score at or
/// below `alpha` is an upper bound of it, and one at or above `beta` a lower
/// bound. Pruning only skips moves that cannot change that answer.
pub fn negamax_worker(
    board: &Board,
    color: Color,
    depth: i32,
    cutoff_to_count: i32,
    alpha: i32,
    beta: i32,
    stat: &mut Stat,
) -> (r: (i32, Option<Pos2D>))
    requires
        color.is_disc(),
        depth >= 0,
        i32::MIN < alpha < beta,
    ensures
        r.0 <= alpha ==> negamax_value(board@, color, depth as int, cutoff_to_count as int) <= r.0,
        r.0 >= beta ==> negamax_value(board@, color, depth as int, cutoff_to_count as int) >= r.0,
        alpha < r.0 < beta ==> r.0 == negamax_value(
            board@,
            color,
            depth as int,
            cutoff_to_count as int,
        ),
        r.0 > i32::MIN,
        r.1.is_some() == (depth > 0 && legal_moves(board@, color).len() > 0),
        r.1.is_some() ==> legal_moves(board@, color).contains(r.1.unwrap()),
        r.1.is_some() ==> exists|i: int|
            #[trigger] first_above_rest(
                board@,
                color,
                depth as int,
                cutoff_to_count as int,
                r.1.unwrap(),
                i,
                r.0 as int,
            ) && (alpha < r.0 < beta ==> move_score(
                board@,
                color,
                depth as int,
                cutoff_to_count as int,
                i,
            ) == r.0),
        final(stat).start == old(stat).start,
    decreases depth,
{
    let ghost b = board@;
    let ghost cut = cutoff_to_count as int;
    let ghost start0 = stat.start;
    proof {
        board.lemma_len();
        lemma_eval_bound(b, color, cut);
    }
    if depth == 0 {
        return (eval(board, color, cutoff_to_count), None);
    }
    let possible_moves = board.get_available_moves_for(color);
    if possible_moves.len() == 0 {
        return (eval(board, color, cutoff_to_count), None);
    }
    let mut lower = alpha;
    let mut value: i32 = WORST;
    let mut best_move: Option<Pos2D> = None;
    let ghost mut bj: int = 0;
    let mut k: usize = 0;
    while k < possible_moves.len() && lower < beta
        invariant
            b == board@,
            b.len() == 64,
            cut == cutoff_to_count as int,
            color.is_disc(),
            depth > 0,
            possible_moves@ == legal_moves(b, color),
            k <= possible_moves@.len(),
            i32::MIN < alpha < beta,
            lower >= alpha,
            lower >= value,
            lower == alpha || lower == value,
            value >= WORST,
            lower < beta ==> negamax_best(b, color, depth as int, cut, k as int) <= value && (value
                <= alpha || value <= negamax_best(b, color, depth as int, cut, k as int)),
            lower >= beta ==> k >= 1 && value >= beta && negamax_best(
                b,
                color,
                depth as int,
                cut,
                k as int,
            ) >= value,
            (k == 0) == best_move.is_none(),
            k == 0 ==> value == WORST,
            best_move.is_some() ==> 0 <= bj < k && best_move == Some(possible_moves@[bj]) && (alpha
                < value < beta ==> move_score(b, color, depth as int, cut, bj) == value),
            best_move.is_some() ==> first_above_rest(
                b,
                color,
                depth as int,
                cut,
                possible_moves@[bj],
                bj,
                value as int,
            ),
            lower < beta ==> forall|j: int|
                0 <= j < k ==> #[trigger] move_score(b, color, depth as int, cut, j) <= value,
            stat.start == start0,
        decreases possible_moves@.len() - k,
    {
        let mv = possible_moves[k];
        proof {
            lemma_prefix_legal(b, color, 64);
        }
        let mut child_board = Board::new_from(board);
        child_board.place(mv, color);
        stat.count_node();
        let (nm_score, _) = negamax_worker(
            &child_board,
            color.opposite(),
            depth - 1,
            cutoff_to_count,
            -beta,
            -lower,
            stat,
        );
        let score = -nm_score;
        proof {
            child_board.lemma_len();
            lemma_value_bound(child_board@, color.opp(), depth - 1, cut);
            let t = -negamax_value(child_board@, color.opp(), depth - 1, cut);
            let prev = negamax_best(b, color, depth as int, cut, k as int);
            assert(negamax_best(b, color, depth as int, cut, k + 1) == if t > prev {
                t
            } else {
                prev
            });
            assert(t == move_score(b, color, depth as int, cut, k as int));
            if nm_score >= -lower {
                assert(nm_score <= EVAL_BOUND);
            }
            assert(score > WORST);
        }
        if score > value {
            value = score;
            best_move = Some(mv);
            proof {
                bj = k as int;
            }
        }
        if value > lower {
            lower = value;
        }
        k = k + 1;
    }
    proof {
        if lower >= beta {
            lemma_best_mono(b, color, depth as int, cut, k as int, possible_moves@.len() as int);
        }
        assert(possible_moves@.contains(possible_moves@[bj]));
    }
    let r = (value, best_move);
    proof {
        if r.1.is_some() {
            assert(first_above_rest(b, color, depth as int, cut, r.1.unwrap(), bj, r.0 as int));
            assert(alpha < r.0 < beta ==> move_score(b, color, depth as int, cut, bj) == r.0);
        }
    }
    r
}

/// The best move for `color` by negamax searched `depth` turns (two plies each)
/// deep, with its score. The score is exactly the value of the full, unpruned
/// search, and the move is the first legal move, in search order, that attains
/// it. `None` when `color` has no legal move or the depth is 0.
pub fn negamax(board: &Board, color: Color, depth: i32, cutoff_to_count: i32, stat: &mut Stat) -> (r:
    Option<(Pos2D, i32)>)
    requires
        color.is_disc(),
        0 <= depth <= i32::MAX / 2,
    ensures
        r.is_some() == (depth > 0 && legal_moves(board@, color).len() > 0),
        r.is_some() ==> legal_moves(board@, color).contains(r.unwrap().0),
        r.is_some() ==> r.unwrap().1 == negamax_value(
            board@,
            color,
            2 * depth,
            cutoff_to_count as int,
        ),
        r.is_some() ==> exists|i: int|
            #[trigger] first_above_rest(
                board@,
                color,
                2 * depth,
                cutoff_to_count as int,
                r.unwrap().0,
                i,
                r.unwrap().1 as int,
            ) && move_score(board@, color, 2 * depth, cutoff_to_count as int, i) == r.unwrap().1,
        final(stat).start == old(stat).start,
{
    proof {
        board.lemma_len();
        lemma_value_bound(board@, color, 2 * depth, cutoff_to_count as int);
    }
    let (nm_score, nm_pos) = negamax_worker(
        board,
        color,
        depth * 2,
        cutoff_to_count,
        i32::MIN + 1,
        i32::MAX - 1,
        stat,
    );
    match nm_pos {
        Some(pos) => {
            proof {
                let cut = cutoff_to_count as int;
                let i = choose|i: int|
                    #[trigger] first_above_rest(board@, color, 2 * depth, cut, pos, i, nm_score as int)
                        && (i32::MIN + 1 < nm_score < i32::MAX - 1 ==> move_score(
                        board@,
                        color,
                        2 * depth,
                        cut,
                        i,
                    ) == nm_score);
                assert(first_above_rest(board@, color, 2 * depth, cut, pos, i, nm_score as int));
            }
            Some((pos, nm_score))
        },
        None => None,
    }
}

/// What `c` can count on after the move that led to `b1`, in the two-ply
/// search: the static score where the opponent has no reply, else the worst
/// score over the replies.
pub open spec fn reply_value(b1: Seq<Color>, c: Color, depth: int, cutoff: int) -> int {
    let rs = legal_moves(b1, c.opp());
    if rs.len() == 0 {
        eval_spec(b1, c, cutoff)
    } else {
        reply_worst(b1, c, depth, cutoff, rs.len() as int)
    }
}

/// The score of the position after a reply: one level deeper where depth is
/// left and `c` can move, else the static score.
pub open spec fn leaf_value(b2: Seq<Color>, c: Color, depth: int, cutoff: int) -> int {
    if depth > 1 && legal_moves(b2, c).len() > 0 {
        minimax_best(b2, c, depth - 1, cutoff, legal_moves(b2, c).len() as int)
    } else {
        eval_spec(b2, c, cutoff)
    }
}

/// The two-ply search value for `c`: the best reply value over its moves.
pub open spec fn minimax_value(b: Seq<Color>, c: Color, depth: int, cutoff: int) -> int {
    minimax_best(b, c, depth, cutoff, legal_moves(b, c).len() as int)
}

/// The best reply value over the first `n` moves of `c`, starting from `i32::MIN`.
pub open spec fn minimax_best(b: Seq<Color>, c: Color, depth: int, cutoff: int, n: int) -> int
    decreases depth, 1int, n,
{
    if n <= 0 {
        i32::MIN as int
    } else {
        let prev = minimax_best(b, c, depth, cutoff, n - 1);
        let b1 = child(b, c, legal_moves(b, c)[n - 1]);
        let rs = legal_moves(b1, c.opp());
        let v = if rs.len() == 0 {
            eval_spec(b1, c, cutoff)
        } else {
            reply_worst(b1, c, depth, cutoff, rs.len() as int)
        };
        if v > prev {
            v
        } else {
            prev
        }
    }
}

/// The worst score for `c` over the first `n` replies to the position `b1`,
/// starting from `i32::MAX`.
pub open spec fn reply_worst(b1: Seq<Color>, c: Color, depth: int, cutoff: int, n: int) -> int
    decreases depth, 0int, n,
{
    if n <= 0 {
        i32::MAX as int
    } else {
        let prev = reply_worst(b1, c, depth, cutoff, n - 1);
        let b2 = child(b1, c.opp(), legal_moves(b1, c.opp())[n - 1]);
        let v = if depth > 1 && legal_moves(b2, c).len() > 0 {
            minimax_best(b2, c, depth - 1, cutoff, legal_moves(b2, c).len() as int)
        } else {
            eval_spec(b2, c, cutoff)
        };
        if v < prev {
            v
        } else {
            prev
        }
    }
}

/// The reply value of the `j`-th move of `c` in the two-ply search.
pub open spec fn reply_score(b: Seq<Color>, c: Color, depth: int, cutoff: int, j: int) -> int {
    reply_value(child(b, c, legal_moves(b, c)[j]), c, depth, cutoff)
}

/// `m` is the `i`-th move of `c`, and every earlier move has a reply value
/// below `score`.
pub open spec fn first_reply_above_rest(
    b: Seq<Color>,
    c: Color,
    depth: int,
    cutoff: int,
    m: Pos2D,
    i: int,
    score: int,
) -> bool {
    &&& 0 <= i < legal_moves(b, c).len()
    &&& legal_moves(b, c)[i] == m
    &&& forall|j: int| 0 <= j < i ==> #[trigger] reply_score(b, c, depth, cutoff, j) < score
}

/// Over at least one move, the two-ply value lies within `EVAL_BOUND`.
pub proof fn lemma_minimax_bound(b: Seq<Color>, c: Color, depth: int, cutoff: int, n: int)
    requires
        b.len() == 64,
        1 <= n <= legal_moves(b, c).len(),
    ensures
        -EVAL_BOUND <= minimax_best(b, c, depth, cutoff, n) <= EVAL_BOUND,
    decreases depth, 1int, n,
{
    let b1 = child(b, c, legal_moves(b, c)[n - 1]);
    assert(b1.len() == 64);
    let rs = legal_moves(b1, c.opp());
    if rs.len() == 0 {
        lemma_eval_bound(b1, c, cutoff);
    } else {
        lemma_reply_bound(b1, c, depth, cutoff, rs.len() as int);
    }
    let v = reply_value(b1, c, depth, cutoff);
    assert(-EVAL_BOUND <= v <= EVAL_BOUND);
    if n > 1 {
        lemma_minimax_bound(b, c, depth, cutoff, n - 1);
    }
    let prev = minimax_best(b, c, depth, cutoff, n - 1);
    assert(minimax_best(b, c, depth, cutoff, n) == if v > prev {
        v
    } else {
        prev
    });
}

/// Over at least one reply, the worst reply score lies within `EVAL_BOUND`.
pub proof fn lemma_reply_bound(b1: Seq<Color>, c: Color, depth: int, cutoff: int, n: int)
    requires
        b1.len() == 64,
        1 <= n <= legal_moves(b1, c.opp()).len(),
    ensures
        -EVAL_BOUND <= reply_worst(b1, c, depth, cutoff, n) <= EVAL_BOUND,
    decreases depth, 0int, n,
{
    let b2 = child(b1, c.opp(), legal_moves(b1, c.opp())[n - 1]);
    assert(b2.len() == 64);
    if depth > 1 && legal_moves(b2, c).len() > 0 {
        lemma_minimax_bound(b2, c, depth - 1, cutoff, legal_moves(b2, c).len() as int);
    } else {
        lemma_eval_bound(b2, c, cutoff);
    }
    let v = leaf_value(b2, c, depth, cutoff);
    assert(-EVAL_BOUND <= v <= EVAL_BOUND);
    if n > 1 {
        lemma_reply_bound(b1, c, depth, cutoff, n - 1);
    }
    let prev = reply_worst(b1, c, depth, cutoff, n - 1);
    assert(reply_worst(b1, c, depth, cutoff, n) == if v < prev {
        v
    } else {
        prev
    });
}

/// Looking at more replies never raises the worst reply score.
pub proof fn lemma_reply_mono(b1: Seq<Color>, c: Color, depth: int, cutoff: int, m: int, n: int)
    requires
        0 <= m <= n,
    ensures
        reply_worst(b1, c, depth, cutoff, n) <= reply_worst(b1, c, depth, cutoff, m),
    decreases n - m,
{
    if m < n {
        lemma_reply_mono(b1, c, depth, cutoff, m, n - 1);
    }
}

/// Two-ply alternating search: for each move of `color`, the worst score over
/// the opponent's replies, each reply searched `depth - 1` more levels while
/// `depth > 1`; the best of those. Replies are cut short once one of them
/// scores no better than the best move found so far, which never changes the
/// answer. Returns the value with the first legal move, in search order, that
/// attains it; `None` when `color` has no legal move.
pub fn minimax(board: &Board, color: Color, depth: i32, cutoff_to_count: i32, stat: &mut Stat) -> (r:
    Option<(Pos2D, i32)>)
    requires
        color.is_disc(),
        depth != 0,
    ensures
        r.is_some() == (legal_moves(board@, color).len() > 0),
        r.is_some() ==> legal_moves(board@, color).contains(r.unwrap().0),
        r.is_some() ==> r.unwrap().1 == minimax_value(
            board@,
            color,
            depth as int,
            cutoff_to_count as int,
        ),
        r.is_some() ==> exists|i: int|
            #[trigger] first_reply_above_rest(
                board@,
                color,
                depth as int,
                cutoff_to_count as int,
                r.unwrap().0,
                i,
                r.unwrap().1 as int,
            ) && reply_score(board@, color, depth as int, cutoff_to_count as int, i) == r.unwrap().1,
        final(stat).start == old(stat).start,
    decreases depth,
{
    let ghost b = board@;
    let ghost cut = cutoff_to_count as int;
    let ghost start0 = stat.start;
    proof {
        board.lemma_len();
    }
    let possible_moves = board.get_available_moves_for(color);
    let mut max_score: i32 = i32::MIN;
    let mut best_move: Option<(Pos2D, i32)> = None;
    let ghost mut bj: int = 0;
    let mut k: usize = 0;
    while k < possible_moves.len()
        invariant
            b == board@,
            b.len() == 64,
            cut == cutoff_to_count as int,
            color.is_disc(),
            depth != 0,
            possible_moves@ == legal_moves(b, color),
            k <= possible_moves@.len(),
            max_score == minimax_best(b, color, depth as int, cut, k as int),
            (k == 0) == best_move.is_none(),
            k > 0 ==> -EVAL_BOUND <= max_score <= EVAL_BOUND,
            best_move.is_some() ==> 0 <= bj < k && best_move.unwrap().0 == possible_moves@[bj]
                && best_move.unwrap().1 == max_score && reply_score(b, color, depth as int, cut, bj)
                == max_score,
            best_move.is_some() ==> first_reply_above_rest(
                b,
                color,
                depth as int,
                cut,
                possible_moves@[bj],
                bj,
                max_score as int,
            ),
            forall|j: int| 0 <= j < k ==> #[trigger] reply_score(b, color, depth as int, cut, j) <= max_score,
            stat.start == start0,
        decreases possible_moves@.len() - k,
    {
        let mv = possible_moves[k];
        proof {
            lemma_prefix_legal(b, color, 64);
            if k > 0 {
                lemma_minimax_bound(b, color, depth as int, cut, k as int);
            }
        }
        let mut board_copy = Board::new_from(board);
        board_copy.place(mv, color);
        stat.count_node();
        let ghost b1 = board_copy@;
        proof {
            board_copy.lemma_len();
        }
        let possible_oppo_moves = board_copy.get_available_moves_for(color.opposite());
        let mut min_score: i32 = i32::MAX;
        let mut best_oppo_move: Option<(Pos2D, i32)> = None;
        let mut pruned = false;
        let mut j: usize = 0;
        while j < possible_oppo_moves.len() && !pruned
            invariant
                b == board@,
                b1 == board_copy@,
                b1.len() == 64,
                cut == cutoff_to_count as int,
                color.is_disc(),
                depth != 0,
                possible_oppo_moves@ == legal_moves(b1, color.opp()),
                j <= possible_oppo_moves@.len(),
                (k == 0) == best_move.is_none(),
                k == 0 ==> max_score == i32::MIN,
                k > 0 ==> -EVAL_BOUND <= max_score <= EVAL_BOUND,
                best_move.is_some() ==> best_move.unwrap().1 == max_score,
                !pruned ==> min_score == reply_worst(b1, color, depth as int, cut, j as int) && (j
                    == 0) == best_oppo_move.is_none() && (best_oppo_move.is_some()
                    ==> best_oppo_move.unwrap().1 == min_score),
                pruned ==> j >= 1 && reply_worst(b1, color, depth as int, cut, j as int)
                    <= max_score && best_oppo_move == best_move,
                stat.start == start0,
            decreases possible_oppo_moves@.len() - j,
        {
            let mv_oppo = possible_oppo_moves[j];
            proof {
                lemma_prefix_legal(b1, color.opp(), 64);
                if j > 0 {
                    lemma_reply_bound(b1, color, depth as int, cut, j as int);
                }
            }
            let mut board_copy2 = Board::new_from(&board_copy);
            board_copy2.place(mv_oppo, color.opposite());
            stat.count_node();
            let oppo_score: i32;
            if depth > 1 {
                let best2 = minimax(&board_copy2, color, depth - 1, cutoff_to_count, stat);
                oppo_score = match best2 {
                    Some(s) => s.1,
                    None => eval(&board_copy2, color, cutoff_to_count),
                };
            } else {
                oppo_score = eval(&board_copy2, color, cutoff_to_count);
            }
            proof {
                board_copy2.lemma_len();
                if depth > 1 && legal_moves(board_copy2@, color).len() > 0 {
                    lemma_minimax_bound(
                        board_copy2@,
                        color,
                        depth - 1,
                        cut,
                        legal_moves(board_copy2@, color).len() as int,
                    );
                }
                let v = leaf_value(board_copy2@, color, depth as int, cut);
                assert(oppo_score == v);
                let prev = reply_worst(b1, color, depth as int, cut, j as int);
                assert(reply_worst(b1, color, depth as int, cut, j + 1) == if v < prev {
                    v
                } else {
                    prev
                });
            }
            if oppo_score <= max_score {
                best_oppo_move = best_move;
                pruned = true;
            } else if oppo_score < min_score {
                min_score = oppo_score;
                best_oppo_move = Some((mv_oppo, oppo_score));
            }
            j = j + 1;
        }
        let score = match best_oppo_move {
            Some((_, s)) => s,
            None => eval(&board_copy, color, cutoff_to_count),
        };
        proof {
            let rv = reply_value(b1, color, depth as int, cut);
            if pruned {
                lemma_reply_mono(
                    b1,
                    color,
                    depth as int,
                    cut,
                    j as int,
                    possible_oppo_moves@.len() as int,
                );
            }
            if possible_oppo_moves@.len() > 0 {
                lemma_reply_bound(b1, color, depth as int, cut, possible_oppo_moves@.len() as int);
            } else {
                lemma_eval_bound(b1, color, cut);
            }
            let prev = minimax_best(b, color, depth as int, cut, k as int);
            assert(minimax_best(b, color, depth as int, cut, k + 1) == if rv > prev {
                rv
            } else {
                prev
            });
            assert(rv == reply_score(b, color, depth as int, cut, k as int));
        }
        if score > max_score {
            max_score = score;
            best_move = Some((mv, max_score));
            proof {
                bj = k as int;
            }
        }
        k = k + 1;
    }
    proof {
        if best_move.is_some() {
            assert(possible_moves@.contains(possible_moves@[bj]));
            assert(first_reply_above_rest(
                board@,
                color,
                depth as int,
                cutoff_to_count as int,
                best_move.unwrap().0,
                bj,
                best_move.unwrap().1 as int,
            ));
        }
    }
    best_move
}

/// The static score is a function of the cells alone: boards with the same
/// cells get the same score, however often it is computed.
pub proof fn lemma_eval_pure(b1: &Board, b2: &Board, c: Color, cutoff: int)
    requires
        b1@ == b2@,
    ensures
        eval_spec(b1@, c, cutoff) == eval_spec(b2@, c, cutoff),
{
}

/// From `cutoff` occupied cells on, the static score is exactly the difference
/// in discs, with no positional term.
pub proof fn lemma_endgame_material(b: Seq<Color>, c: Color, cutoff: int)
    requires
        occupied(b) >= cutoff,
    ensures
        eval_spec(b, c, cutoff) == count(b, c) - count(b, c.opp()),
{
}

/// Black holding corner (0,0) together with both its edge neighbours scores
/// higher than Black holding the bare corner on an otherwise equal board. The
/// corner term grows by exactly 100. The whole score grows when both boards are
/// past the cutoff, or when both are before it and the move-count difference
/// does not drop by 100 or more.
pub proof fn lemma_corner_arms(b1: Seq<Color>, b2: Seq<Color>, cutoff: int)
    requires
        b1.len() == 64,
        b2.len() == 64,
        at(b1, 0, 0) == Color::Black,
        at(b1, 1, 0) == Color::Black,
        at(b1, 0, 1) == Color::Black,
        at(b2, 1, 0) != Color::Black,
        at(b2, 0, 1) != Color::Black,
        forall|q: int| 0 <= q < 64 && q != idx(1, 0) && q != idx(0, 1) ==> b1[q] == b2[q],
        occupied(b2) >= cutoff || (occupied(b1) < cutoff && mobility(b2, Color::Black) - mobility(
            b2,
            Color::White,
        ) < mobility(b1, Color::Black) - mobility(b1, Color::White) + 100),
    ensures
        corners_score(b1, Color::Black) == corners_score(b2, Color::Black) + 100,
        corners_score(b1, Color::White) == corners_score(b2, Color::White),
        eval_spec(b1, Color::Black, cutoff) > eval_spec(b2, Color::Black, cutoff),
{
    let mid = b2.update(idx(1, 0), Color::Black);
    assert(b1 =~= mid.update(idx(0, 1), Color::Black));
    lemma_count_update(b2, idx(1, 0), Color::Black, Color::Black);
    lemma_count_update(b2, idx(1, 0), Color::Black, Color::White);
    lemma_count_update(b2, idx(1, 0), Color::Black, Color::Empty);
    lemma_count_update(mid, idx(0, 1), Color::Black, Color::Black);
    lemma_count_update(mid, idx(0, 1), Color::Black, Color::White);
    lemma_count_update(mid, idx(0, 1), Color::Black, Color::Empty);
}

/// The disc counts: (Black, White).
pub fn caclulate_score(board: &Board) -> (r: (usize, usize))
    ensures
        r.0 == count(board@, Color::Black),
        r.1 == count(board@, Color::White),
{
    (board.num_of_color(Color::Black), board.num_of_color(Color::White))
}

} // verus!
