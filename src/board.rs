use vstd::prelude::*;

use crate::color::Color;
use crate::transcript::{
    lemma_not_replayable_extend, lemma_replayable_prefix, replay, replayable, Transcript,
};

verus! {

/// A cell address: `i` is the column and `j` the row, both zero-based.
#[derive(Clone, Copy, Debug, PartialEq, Eq, Structural)]
pub struct Pos2D {
    pub i: usize,
    pub j: usize,
}

impl Pos2D {
    /// Both coordinates lie on the 8x8 board.
    pub open spec fn valid(self) -> bool {
        self.i < 8 && self.j < 8
    }

    pub fn new(ii: usize, jj: usize) -> (r: Pos2D)
        ensures
            r.i == ii,
            r.j == jj,
    {
        Pos2D { i: ii, j: jj }
    }
}

/// Cell index of column `x`, row `y` in the row-major cell sequence.
pub open spec fn idx(x: int, y: int) -> int {
    y * 8 + x
}

pub open spec fn in_board(x: int, y: int) -> bool {
    0 <= x < 8 && 0 <= y < 8
}

/// The value at column `x`, row `y`.
pub open spec fn at(b: Seq<Color>, x: int, y: int) -> Color {
    b[idx(x, y)]
}

/// Number of cells of `b` that hold `c`.
pub open spec fn count(b: Seq<Color>, c: Color) -> nat
    decreases b.len(),
{
    if b.len() == 0 {
        0
    } else {
        count(b.drop_last(), c) + if b.last() == c {
            1nat
        } else {
            0nat
        }
    }
}

/// Cells of `b` that hold a disc or a marker.
pub open spec fn occupied(b: Seq<Color>) -> int {
    b.len() - count(b, Color::Empty)
}

/// A column letter, in either case.
pub open spec fn is_col_letter(c: char) -> bool {
    ('a' <= c && c <= 'h') || ('A' <= c && c <= 'H')
}

/// The zero-based column that a letter names.
pub open spec fn col_of(c: char) -> int {
    if 'a' <= c {
        c as int - 'a' as int
    } else {
        c as int - 'A' as int
    }
}

pub proof fn lemma_count_bound(b: Seq<Color>, c: Color)
    ensures
        count(b, c) <= b.len(),
    decreases b.len(),
{
    if b.len() > 0 {
        lemma_count_bound(b.drop_last(), c);
    }
}

/// Writing one cell moves it from the count of its old value to that of its new one.
pub proof fn lemma_count_update(b: Seq<Color>, q: int, v: Color, c: Color)
    requires
        0 <= q < b.len(),
    ensures
        count(b.update(q, v), c) == count(b, c) - (if b[q] == c {
            1int
        } else {
            0int
        }) + (if v == c {
            1int
        } else {
            0int
        }),
    decreases b.len(),
{
    let u = b.update(q, v);
    if q == b.len() - 1 {
        assert(u.drop_last() =~= b.drop_last());
    } else {
        assert(u.drop_last() =~= b.drop_last().update(q, v));
        lemma_count_update(b.drop_last(), q, v, c);
    }
}

/// Column step of direction `d`; the eight directions are numbered 0 to 7.
pub open spec fn dx(d: int) -> int {
    if d <= 2 {
        -1
    } else if d <= 4 {
        0
    } else {
        1
    }
}

/// Row step of direction `d`.
pub open spec fn dy(d: int) -> int {
    if d == 0 || d == 4 || d == 5 {
        -1
    } else if d == 1 || d == 6 {
        0
    } else {
        1
    }
}

/// `x` moved `m` steps of sign `s`.
pub open spec fn step(x: int, s: int, m: int) -> int {
    if s < 0 {
        x - m
    } else if s > 0 {
        x + m
    } else {
        x
    }
}

/// Column of the cell `m` steps from column `x` in direction `d`.
pub open spec fn ray_x(x: int, d: int, m: int) -> int {
    step(x, dx(d), m)
}

/// Row of the cell `m` steps from row `y` in direction `d`.
pub open spec fn ray_y(y: int, d: int, m: int) -> int {
    step(y, dy(d), m)
}

/// The first step, from `m` on, whose cell in direction `d` from `(x, y)` is off
/// the board or does not hold `o`.
pub open spec fn run_end(b: Seq<Color>, x: int, y: int, d: int, o: Color, m: int) -> int
    decreases 8 - m,
{
    if m < 8 && in_board(ray_x(x, d, m), ray_y(y, d, m)) && at(b, ray_x(x, d, m), ray_y(y, d, m))
        == o {
        run_end(b, x, y, d, o, m + 1)
    } else {
        m
    }
}

/// How many discs a move of `c` at `(x, y)` turns over in direction `d`: the
/// length of the run of opposing discs next to it, when an own disc closes that
/// run; otherwise none.
pub open spec fn dir_flips(b: Seq<Color>, x: int, y: int, d: int, c: Color) -> int {
    let e = run_end(b, x, y, d, c.opp(), 1);
    if e >= 2 && in_board(ray_x(x, d, e), ray_y(y, d, e)) && at(b, ray_x(x, d, e), ray_y(y, d, e))
        == c {
        e - 1
    } else {
        0
    }
}

/// A move of `c` at `(x, y)` is legal: the cell is on the board and empty, and
/// at least one direction turns discs over.
pub open spec fn legal(b: Seq<Color>, x: int, y: int, c: Color) -> bool {
    &&& in_board(x, y)
    &&& at(b, x, y) == Color::Empty
    &&& exists|d: int| 0 <= d < 8 && #[trigger] dir_flips(b, x, y, d, c) > 0
}

/// Discs turned over in the directions below `n`.
pub open spec fn flips_upto(b: Seq<Color>, x: int, y: int, c: Color, n: int) -> int
    decreases n,
{
    if n <= 0 {
        0
    } else {
        flips_upto(b, x, y, c, n - 1) + dir_flips(b, x, y, n - 1, c)
    }
}

/// Discs turned over by a move of `c` at `(x, y)`.
pub open spec fn total_flips(b: Seq<Color>, x: int, y: int, c: Color) -> int {
    flips_upto(b, x, y, c, 8)
}

/// Steps from `(x, y)` to `(qx, qy)` along direction `d`, read off the moving
/// coordinate.
pub open spec fn dist(x: int, y: int, d: int, qx: int, qy: int) -> int {
    if dx(d) > 0 {
        qx - x
    } else if dx(d) < 0 {
        x - qx
    } else if dy(d) > 0 {
        qy - y
    } else {
        y - qy
    }
}

/// `(qx, qy)` is one of the first `len` cells in direction `d` from `(x, y)`.
pub open spec fn on_segment(x: int, y: int, d: int, len: int, qx: int, qy: int) -> bool {
    let m = dist(x, y, d, qx, qy);
    1 <= m <= len && ray_x(x, d, m) == qx && ray_y(y, d, m) == qy
}

/// `(qx, qy)` is turned over, in one of the directions below `n`, by a move of
/// `c` at `(x, y)`.
pub open spec fn covered(b: Seq<Color>, x: int, y: int, c: Color, n: int, qx: int, qy: int) -> bool
    decreases n,
{
    if n <= 0 {
        false
    } else {
        covered(b, x, y, c, n - 1, qx, qy) || on_segment(x, y, n - 1, dir_flips(b, x, y, n - 1, c), qx, qy)
    }
}

/// The board after `c` moves at `(x, y)`: that cell and every disc turned over
/// hold `c`, the rest is as before.
pub open spec fn after_place(b: Seq<Color>, x: int, y: int, c: Color) -> Seq<Color> {
    Seq::new(
        b.len(),
        |q: int|
            if q == idx(x, y) || covered(b, x, y, c, 8, q % 8, q / 8) {
                c
            } else {
                b[q]
            },
    )
}

pub proof fn lemma_idx(x: int, y: int)
    requires
        in_board(x, y),
    ensures
        0 <= idx(x, y) < 64,
        idx(x, y) % 8 == x,
        idx(x, y) / 8 == y,
{
    vstd::arithmetic::div_mod::lemma_fundamental_div_mod_converse(idx(x, y), 8, y, x);
}

pub proof fn lemma_cell(q: int)
    requires
        0 <= q < 64,
    ensures
        in_board(q % 8, q / 8),
        idx(q % 8, q / 8) == q,
{
    vstd::arithmetic::div_mod::lemma_fundamental_div_mod(q, 8);
}

/// The cells before the end of a run hold its color.
proof fn lemma_run_prefix(b: Seq<Color>, x: int, y: int, d: int, o: Color, m0: int, m: int)
    requires
        m0 <= m < run_end(b, x, y, d, o, m0),
    ensures
        in_board(ray_x(x, d, m), ray_y(y, d, m)),
        at(b, ray_x(x, d, m), ray_y(y, d, m)) == o,
    decreases m - m0,
{
    if m > m0 {
        lemma_run_prefix(b, x, y, d, o, m0 + 1, m);
    }
}

/// A run reads only the cells of its own ray.
proof fn lemma_run_same(b1: Seq<Color>, b2: Seq<Color>, x: int, y: int, d: int, o: Color, m: int)
    requires
        b1.len() == 64,
        b2.len() == 64,
        1 <= m,
        forall|k: int|
            1 <= k && in_board(#[trigger] ray_x(x, d, k), ray_y(y, d, k)) ==> at(b1, ray_x(x, d, k), ray_y(y, d, k))
                == at(b2, ray_x(x, d, k), ray_y(y, d, k)),
    ensures
        run_end(b1, x, y, d, o, m) == run_end(b2, x, y, d, o, m),
    decreases 8 - m,
{
    if m < 8 {
        lemma_run_same(b1, b2, x, y, d, o, m + 1);
    }
}

/// Two different directions from one cell never meet again.
proof fn lemma_rays_apart(x: int, y: int, d: int, e: int, m: int, k: int)
    requires
        0 <= d < 8,
        0 <= e < 8,
        d != e,
        1 <= m,
        1 <= k,
    ensures
        !(ray_x(x, d, m) == ray_x(x, e, k) && ray_y(y, d, m) == ray_y(y, e, k)),
{
}

/// No direction below `n` reaches a cell of ray `d >= n`.
proof fn lemma_uncovered(b: Seq<Color>, x: int, y: int, c: Color, n: int, d: int, m: int)
    requires
        0 <= n <= d < 8,
        1 <= m,
    ensures
        !covered(b, x, y, c, n, ray_x(x, d, m), ray_y(y, d, m)),
    decreases n,
{
    if n > 0 {
        lemma_uncovered(b, x, y, c, n - 1, d, m);
        let qx = ray_x(x, d, m);
        let qy = ray_y(y, d, m);
        let k = dist(x, y, n - 1, qx, qy);
        if on_segment(x, y, n - 1, dir_flips(b, x, y, n - 1, c), qx, qy) {
            lemma_rays_apart(x, y, d, n - 1, m, k);
        }
    }
}

proof fn lemma_flips_upto_ge(b: Seq<Color>, x: int, y: int, c: Color, n: int, e: int)
    requires
        0 <= e < n,
    ensures
        flips_upto(b, x, y, c, n) >= dir_flips(b, x, y, e, c),
    decreases n,
{
    if e < n - 1 {
        lemma_flips_upto_ge(b, x, y, c, n - 1, e);
    }
    lemma_flips_upto_nonneg(b, x, y, c, n - 1);
}

proof fn lemma_flips_upto_nonneg(b: Seq<Color>, x: int, y: int, c: Color, n: int)
    ensures
        flips_upto(b, x, y, c, n) >= 0,
    decreases n,
{
    if n > 0 {
        lemma_flips_upto_nonneg(b, x, y, c, n - 1);
    }
}

/// The moving cell itself is never turned over.
proof fn lemma_origin_uncovered(b: Seq<Color>, x: int, y: int, c: Color, n: int)
    ensures
        !covered(b, x, y, c, n, x, y),
    decreases n,
{
    if n > 0 {
        lemma_origin_uncovered(b, x, y, c, n - 1);
    }
}

/// A cell that already holds anything is never a legal move, for any color.
pub proof fn lemma_occupied_not_legal(b: Seq<Color>, p: Pos2D, c: Color)
    requires
        p.valid(),
        at(b, p.i as int, p.j as int) != Color::Empty,
    ensures
        !legal(b, p.i as int, p.j as int, c),
{
}

/// The step of direction `d` as (column, row).
fn direction(d: usize) -> (r: (i32, i32))
    requires
        d < 8,
    ensures
        r.0 == dx(d as int),
        r.1 == dy(d as int),
{
    match d {
        0 => (-1, -1),
        1 => (-1, 0),
        2 => (-1, 1),
        3 => (0, 1),
        4 => (0, -1),
        5 => (1, -1),
        6 => (1, 0),
        _ => (1, 1),
    }
}

/// The cell, numbered column-major (`8 * column + row`), that comes `n`-th when
/// the board is searched for moves: corners first, then the cells two steps
/// along an edge from a corner, then the rest of the edges and the centre, and
/// last the four cells diagonally next to a corner. Good moves tend to come
/// early, which lets the search prune more.
pub open spec fn order_cell(n: int) -> int {
    if n == 0 {
        0
    } else if n == 1 {
        7
    } else if n == 2 {
        56
    } else if n == 3 {
        63
    } else if n == 4 {
        2
    } else if n == 5 {
        5
    } else if n == 6 {
        16
    } else if n == 7 {
        23
    } else if n == 8 {
        40
    } else if n == 9 {
        47
    } else if n == 10 {
        58
    } else if n == 11 {
        61
    } else if n == 12 {
        1
    } else if n == 13 {
        3
    } else if n == 14 {
        4
    } else if n == 15 {
        6
    } else if n == 16 {
        8
    } else if n == 17 {
        10
    } else if n == 18 {
        11
    } else if n == 19 {
        12
    } else if n == 20 {
        13
    } else if n == 21 {
        15
    } else if n == 22 {
        17
    } else if n == 23 {
        18
    } else if n == 24 {
        19
    } else if n == 25 {
        20
    } else if n == 26 {
        21
    } else if n == 27 {
        22
    } else if n == 28 {
        24
    } else if n == 29 {
        25
    } else if n == 30 {
        26
    } else if n == 31 {
        27
    } else if n == 32 {
        28
    } else if n == 33 {
        29
    } else if n == 34 {
        30
    } else if n == 35 {
        31
    } else if n == 36 {
        32
    } else if n == 37 {
        33
    } else if n == 38 {
        34
    } else if n == 39 {
        35
    } else if n == 40 {
        36
    } else if n == 41 {
        37
    } else if n == 42 {
        38
    } else if n == 43 {
        39
    } else if n == 44 {
        41
    } else if n == 45 {
        42
    } else if n == 46 {
        43
    } else if n == 47 {
        44
    } else if n == 48 {
        45
    } else if n == 49 {
        46
    } else if n == 50 {
        48
    } else if n == 51 {
        50
    } else if n == 52 {
        51
    } else if n == 53 {
        52
    } else if n == 54 {
        53
    } else if n == 55 {
        55
    } else if n == 56 {
        57
    } else if n == 57 {
        59
    } else if n == 58 {
        60
    } else if n == 59 {
        62
    } else if n == 60 {
        9
    } else if n == 61 {
        14
    } else if n == 62 {
        49
    } else {
        54
    }
}

/// Where cell `k` (column-major) comes in the search order.
pub open spec fn order_rank(k: int) -> int {
    if k == 0 {
        0
    } else if k == 1 {
        12
    } else if k == 2 {
        4
    } else if k == 3 {
        13
    } else if k == 4 {
        14
    } else if k == 5 {
        5
    } else if k == 6 {
        15
    } else if k == 7 {
        1
    } else if k == 8 {
        16
    } else if k == 9 {
        60
    } else if k == 10 {
        17
    } else if k == 11 {
        18
    } else if k == 12 {
        19
    } else if k == 13 {
        20
    } else if k == 14 {
        61
    } else if k == 15 {
        21
    } else if k == 16 {
        6
    } else if k == 17 {
        22
    } else if k == 18 {
        23
    } else if k == 19 {
        24
    } else if k == 20 {
        25
    } else if k == 21 {
        26
    } else if k == 22 {
        27
    } else if k == 23 {
        7
    } else if k == 24 {
        28
    } else if k == 25 {
        29
    } else if k == 26 {
        30
    } else if k == 27 {
        31
    } else if k == 28 {
        32
    } else if k == 29 {
        33
    } else if k == 30 {
        34
    } else if k == 31 {
        35
    } else if k == 32 {
        36
    } else if k == 33 {
        37
    } else if k == 34 {
        38
    } else if k == 35 {
        39
    } else if k == 36 {
        40
    } else if k == 37 {
        41
    } else if k == 38 {
        42
    } else if k == 39 {
        43
    } else if k == 40 {
        8
    } else if k == 41 {
        44
    } else if k == 42 {
        45
    } else if k == 43 {
        46
    } else if k == 44 {
        47
    } else if k == 45 {
        48
    } else if k == 46 {
        49
    } else if k == 47 {
        9
    } else if k == 48 {
        50
    } else if k == 49 {
        62
    } else if k == 50 {
        51
    } else if k == 51 {
        52
    } else if k == 52 {
        53
    } else if k == 53 {
        54
    } else if k == 54 {
        63
    } else if k == 55 {
        55
    } else if k == 56 {
        2
    } else if k == 57 {
        56
    } else if k == 58 {
        10
    } else if k == 59 {
        57
    } else if k == 60 {
        58
    } else if k == 61 {
        11
    } else if k == 62 {
        59
    } else {
        3
    }
}

/// The `n`-th position of the search order.
pub open spec fn order_pos(n: int) -> Pos2D {
    Pos2D { i: (order_cell(n) / 8) as usize, j: (order_cell(n) % 8) as usize }
}

/// The search order visits every cell exactly once.
pub proof fn lemma_order_permutation()
    ensures
        forall|n: int| 0 <= n < 64 ==> 0 <= #[trigger] order_cell(n) < 64 && order_rank(order_cell(n)) == n,
        forall|k: int| 0 <= k < 64 ==> 0 <= #[trigger] order_rank(k) < 64 && order_cell(order_rank(k)) == k,
{
}

/// The legal moves of `c` among the first `n` positions of the search order, in
/// that order.
pub open spec fn legal_prefix(b: Seq<Color>, c: Color, n: int) -> Seq<Pos2D>
    decreases n,
{
    if n <= 0 {
        Seq::empty()
    } else {
        let s = legal_prefix(b, c, n - 1);
        let p = order_pos(n - 1);
        if legal(b, p.i as int, p.j as int, c) {
            s.push(p)
        } else {
            s
        }
    }
}

/// Every legal move of `c`, in search order.
pub open spec fn legal_moves(b: Seq<Color>, c: Color) -> Seq<Pos2D> {
    legal_prefix(b, c, 64)
}

/// Every position listed is on the board and a legal move; there are at most
/// `n` of them.
pub proof fn lemma_prefix_legal(b: Seq<Color>, c: Color, n: int)
    requires
        0 <= n <= 64,
    ensures
        legal_prefix(b, c, n).len() <= n,
        forall|i: int|
            0 <= i < legal_prefix(b, c, n).len() ==> (#[trigger] legal_prefix(b, c, n)[i]).valid()
                && legal(b, legal_prefix(b, c, n)[i].i as int, legal_prefix(b, c, n)[i].j as int, c),
    decreases n,
{
    if n > 0 {
        lemma_prefix_legal(b, c, n - 1);
    }
}

/// A legal move at the `r`-th position of the search order is listed among the
/// first `n > r`.
proof fn lemma_prefix_has(b: Seq<Color>, c: Color, n: int, r: int)
    requires
        0 <= r < n <= 64,
        legal(b, order_pos(r).i as int, order_pos(r).j as int, c),
    ensures
        legal_prefix(b, c, n).contains(order_pos(r)),
    decreases n,
{
    if r < n - 1 {
        lemma_prefix_has(b, c, n - 1, r);
        let s = legal_prefix(b, c, n - 1);
        let i = choose|i: int| 0 <= i < s.len() && s[i] == order_pos(r);
        assert(legal_prefix(b, c, n)[i] == order_pos(r));
    } else {
        let s = legal_prefix(b, c, n);
        assert(s[s.len() - 1] == order_pos(r));
    }
}

/// Every legal move is listed.
pub proof fn lemma_moves_complete(b: Seq<Color>, c: Color, p: Pos2D)
    requires
        legal(b, p.i as int, p.j as int, c),
    ensures
        legal_moves(b, c).contains(p),
{
    lemma_order_permutation();
    let k = p.i * 8 + p.j;
    let r = order_rank(k);
    assert(order_cell(r) == k);
    assert(order_pos(r) == p);
    lemma_prefix_has(b, c, 64, r);
}

/// The `n`-th position of the search order.
fn position_at(n: usize) -> (p: Pos2D)
    requires
        n < 64,
    ensures
        p == order_pos(n as int),
        p.valid(),
{
    let k: usize = match n {
            0 => 0,
            1 => 7,
            2 => 56,
            3 => 63,
            4 => 2,
            5 => 5,
            6 => 16,
            7 => 23,
            8 => 40,
            9 => 47,
            10 => 58,
            11 => 61,
            12 => 1,
            13 => 3,
            14 => 4,
            15 => 6,
            16 => 8,
            17 => 10,
            18 => 11,
            19 => 12,
            20 => 13,
            21 => 15,
            22 => 17,
            23 => 18,
            24 => 19,
            25 => 20,
            26 => 21,
            27 => 22,
            28 => 24,
            29 => 25,
            30 => 26,
            31 => 27,
            32 => 28,
            33 => 29,
            34 => 30,
            35 => 31,
            36 => 32,
            37 => 33,
            38 => 34,
            39 => 35,
            40 => 36,
            41 => 37,
            42 => 38,
            43 => 39,
            44 => 41,
            45 => 42,
            46 => 43,
            47 => 44,
            48 => 45,
            49 => 46,
            50 => 48,
            51 => 50,
            52 => 51,
            53 => 52,
            54 => 53,
            55 => 55,
            56 => 57,
            57 => 59,
            58 => 60,
            59 => 62,
            60 => 9,
            61 => 14,
            62 => 49,
            _ => 54,
    };
    Pos2D::new(k / 8, k % 8)
}

/// An 8x8 grid of cells, stored row by row.
pub struct Board {
    board_data: [Color; 64],
}

impl View for Board {
    type V = Seq<Color>;

    closed spec fn view(&self) -> Seq<Color> {
        self.board_data@
    }
}

impl Board {
    pub proof fn lemma_len(&self)
        ensures
            self@.len() == 64,
    {
    }

    pub fn new() -> (r: Board)
        ensures
            r@ == Seq::new(64, |q: int| Color::Empty),
    {
        let r = Board { board_data: [Color::Empty; 64] };
        assert(r@ =~= Seq::new(64, |q: int| Color::Empty));
        r
    }

    pub fn new_from(other: &Board) -> (r: Board)
        ensures
            r@ == other@,
    {
        Board { board_data: other.board_data }
    }

    pub fn num_of_color(&self, color: Color) -> (r: usize)
        ensures
            r == count(self@, color),
    {
        let mut n: usize = 0;
        let mut q: usize = 0;
        while q < 64
            invariant
                q <= 64,
                self@.len() == 64,
                n == count(self@.take(q as int), color),
                n <= q,
            decreases 64 - q,
        {
            assert(self@.take(q + 1).drop_last() =~= self@.take(q as int));
            if self.board_data[q] == color {
                n = n + 1;
            }
            q = q + 1;
        }
        assert(self@.take(64) =~= self@);
        n
    }

    pub fn num_occupied(&self) -> (r: usize)
        ensures
            r == occupied(self@),
    {
        proof {
            lemma_count_bound(self@, Color::Empty);
        }
        64 - self.num_of_color(Color::Empty)
    }

    fn char_to_index(c: char) -> (r: usize)
        requires
            is_col_letter(c),
        ensures
            r == col_of(c),
            r < 8,
    {
        if 'a' <= c {
            (c as u32 - 'a' as u32) as usize
        } else {
            (c as u32 - 'A' as u32) as usize
        }
    }

    pub fn get_at_c(&self, i: char, j: usize) -> (r: Color)
        requires
            is_col_letter(i),
            j < 8,
        ensures
            r == at(self@, col_of(i), j as int),
    {
        self.get_at(Pos2D::new(Board::char_to_index(i), j))
    }

    pub fn set_at_c(&mut self, i: char, j: usize, color: Color)
        requires
            is_col_letter(i),
            j < 8,
        ensures
            final(self)@ == old(self)@.update(idx(col_of(i), j as int), color),
    {
        self.set_at(Pos2D::new(Board::char_to_index(i), j), color)
    }

    /// Discs that a move of `color` at `position` would turn over in direction `d`.
    fn flips_in_direction(&self, position: Pos2D, color: Color, d: usize) -> (n: usize)
        requires
            position.valid(),
            color.is_disc(),
            d < 8,
        ensures
            n == dir_flips(self@, position.i as int, position.j as int, d as int, color),
            n < 8,
    {
        let ghost b = self@;
        let ghost x0 = position.i as int;
        let ghost y0 = position.j as int;
        let (di, dj) = direction(d);
        let opposite = color.opposite();
        let mut x: i32 = position.i as i32;
        let mut y: i32 = position.j as i32;
        let mut k: usize = 0;
        loop
            invariant
                b == self@,
                b.len() == 64,
                x0 == position.i,
                y0 == position.j,
                position.valid(),
                d < 8,
                di == dx(d as int),
                dj == dy(d as int),
                opposite == color.opp(),
                color.is_disc(),
                k < 8,
                x == ray_x(x0, d as int, k as int),
                y == ray_y(y0, d as int, k as int),
                in_board(x as int, y as int),
                run_end(b, x0, y0, d as int, opposite, 1) == run_end(
                    b,
                    x0,
                    y0,
                    d as int,
                    opposite,
                    k + 1,
                ),
            decreases 8 - k,
        {
            let nx = x + di;
            let ny = y + dj;
            assert(nx == ray_x(x0, d as int, k + 1));
            assert(ny == ray_y(y0, d as int, k + 1));
            if nx < 0 || nx >= 8 || ny < 0 || ny >= 8 {
                assert(run_end(b, x0, y0, d as int, opposite, k + 1) == k + 1);
                return 0;
            }
            let here = self.get_at_pos_internal((ny * 8 + nx) as usize);
            assert(here == at(b, nx as int, ny as int));
            if here == opposite {
                assert(run_end(b, x0, y0, d as int, opposite, k + 1) == run_end(
                    b,
                    x0,
                    y0,
                    d as int,
                    opposite,
                    k + 2,
                ));
                x = nx;
                y = ny;
                k = k + 1;
            } else if here == color && k > 0 {
                assert(run_end(b, x0, y0, d as int, opposite, k + 1) == k + 1);
                return k;
            } else {
                assert(run_end(b, x0, y0, d as int, opposite, k + 1) == k + 1);
                return 0;
            }
        }
    }

    /// Whether `color` may move at `position`.
    pub fn can_place(&self, position: Pos2D, color: Color) -> (r: bool)
        requires
            position.valid(),
            color.is_disc(),
        ensures
            r == legal(self@, position.i as int, position.j as int, color),
            r ==> self.get_at_spec(position) == Color::Empty,
    {
        if self.get_at(position) != Color::Empty {
            return false;
        }
        let mut d: usize = 0;
        while d < 8
            invariant
                d <= 8,
                position.valid(),
                color.is_disc(),
                at(self@, position.i as int, position.j as int) == Color::Empty,
                forall|e: int|
                    0 <= e < d ==> dir_flips(self@, position.i as int, position.j as int, e, color)
                        == 0,
            decreases 8 - d,
        {
            if self.flips_in_direction(position, color, d) > 0 {
                return true;
            }
            d += 1;
        }
        false
    }

    /// Plays `color` at `position`: every flanked run of opposing discs turns to
    /// `color`, and the new disc is put down.
    pub fn place(&mut self, position: Pos2D, color: Color)
        requires
            color.is_disc(),
            legal(old(self)@, position.i as int, position.j as int, color),
        ensures
            final(self)@ == after_place(old(self)@, position.i as int, position.j as int, color),
            total_flips(old(self)@, position.i as int, position.j as int, color) >= 1,
            count(final(self)@, color) == count(old(self)@, color) + total_flips(
                old(self)@,
                position.i as int,
                position.j as int,
                color,
            ) + 1,
            count(final(self)@, color.opp()) == count(old(self)@, color.opp()) - total_flips(
                old(self)@,
                position.i as int,
                position.j as int,
                color,
            ),
            occupied(final(self)@) == occupied(old(self)@) + 1,
    {
        let ghost b = self@;
        let ghost x0 = position.i as int;
        let ghost y0 = position.j as int;
        let opposite = color.opposite();
        let mut total: usize = 0;
        let mut d: usize = 0;
        while d < 8
            invariant
                b.len() == 64,
                self@.len() == 64,
                x0 == position.i,
                y0 == position.j,
                position.valid(),
                color.is_disc(),
                opposite == color.opp(),
                d <= 8,
                total == flips_upto(b, x0, y0, color, d as int),
                total <= 7 * d,
                forall|q: int|
                    0 <= q < 64 ==> self@[q] == if covered(b, x0, y0, color, d as int, q % 8, q / 8) {
                        color
                    } else {
                        b[q]
                    },
                count(self@, color) == count(b, color) + total,
                count(self@, opposite) == count(b, opposite) - total,
                count(self@, Color::Empty) == count(b, Color::Empty),
            decreases 8 - d,
        {
            proof {
                assert forall|k: int|
                    1 <= k && in_board(
                        #[trigger] ray_x(x0, d as int, k),
                        ray_y(y0, d as int, k),
                    ) implies at(self@, ray_x(x0, d as int, k), ray_y(y0, d as int, k)) == at(
                    b,
                    ray_x(x0, d as int, k),
                    ray_y(y0, d as int, k),
                ) by {
                    lemma_uncovered(b, x0, y0, color, d as int, d as int, k);
                    lemma_idx(ray_x(x0, d as int, k), ray_y(y0, d as int, k));
                }
                lemma_run_same(self@, b, x0, y0, d as int, opposite, 1);
            }
            let n = self.flips_in_direction(position, color, d);
            let (di, dj) = direction(d);
            let mut fx: i32 = position.i as i32;
            let mut fy: i32 = position.j as i32;
            let mut t: usize = 0;
            while t < n
                invariant
                    b.len() == 64,
                    self@.len() == 64,
                    x0 == position.i,
                    y0 == position.j,
                    position.valid(),
                    color.is_disc(),
                    opposite == color.opp(),
                    d < 8,
                    di == dx(d as int),
                    dj == dy(d as int),
                    n == dir_flips(b, x0, y0, d as int, color),
                    t <= n,
                    fx == ray_x(x0, d as int, t as int),
                    fy == ray_y(y0, d as int, t as int),
                    forall|q: int|
                        0 <= q < 64 ==> self@[q] == if covered(
                            b,
                            x0,
                            y0,
                            color,
                            d as int,
                            q % 8,
                            q / 8,
                        ) || on_segment(x0, y0, d as int, t as int, q % 8, q / 8) {
                            color
                        } else {
                            b[q]
                        },
                    count(self@, color) == count(b, color) + total + t,
                    count(self@, opposite) == count(b, opposite) - total - t,
                    count(self@, Color::Empty) == count(b, Color::Empty),
                decreases n - t,
            {
                fx = fx + di;
                fy = fy + dj;
                let ghost before = self@;
                let ghost q0 = idx(fx as int, fy as int);
                proof {
                    lemma_run_prefix(b, x0, y0, d as int, opposite, 1, t + 1);
                    lemma_idx(fx as int, fy as int);
                    lemma_uncovered(b, x0, y0, color, d as int, d as int, t + 1);
                    assert(before[q0] == opposite);
                    lemma_count_update(before, q0, color, color);
                    lemma_count_update(before, q0, color, opposite);
                    lemma_count_update(before, q0, color, Color::Empty);
                }
                self.set_at_pos_internal((fy * 8 + fx) as usize, color);
                proof {
                    assert forall|q: int| 0 <= q < 64 implies self@[q] == if covered(
                        b,
                        x0,
                        y0,
                        color,
                        d as int,
                        q % 8,
                        q / 8,
                    ) || on_segment(x0, y0, d as int, t + 1, q % 8, q / 8) {
                        color
                    } else {
                        b[q]
                    } by {
                        lemma_cell(q);
                    }
                }
                t = t + 1;
            }
            total = total + n;
            d = d + 1;
        }
        proof {
            let e = choose|e: int| 0 <= e < 8 && dir_flips(b, x0, y0, e, color) > 0;
            lemma_flips_upto_ge(b, x0, y0, color, 8, e);
            lemma_origin_uncovered(b, x0, y0, color, 8);
            lemma_idx(x0, y0);
            lemma_count_update(self@, idx(x0, y0), color, color);
            lemma_count_update(self@, idx(x0, y0), color, opposite);
            lemma_count_update(self@, idx(x0, y0), color, Color::Empty);
        }
        self.set_at(position, color);
        proof {
            assert forall|q: int| 0 <= q < 64 implies self@[q] == after_place(b, x0, y0, color)[q] by {
                lemma_cell(q);
            }
            assert(self@ =~= after_place(b, x0, y0, color));
        }
    }

    /// The legal moves of `color`, in search order.
    pub fn get_available_moves_for(&self, color: Color) -> (r: Vec<Pos2D>)
        requires
            color.is_disc(),
        ensures
            r@ == legal_moves(self@, color),
            forall|p: Pos2D|
                #![trigger r@.contains(p)]
                r@.contains(p) <==> legal(self@, p.i as int, p.j as int, color),
    {
        let mut r: Vec<Pos2D> = Vec::new();
        let mut n: usize = 0;
        while n < 64
            invariant
                n <= 64,
                color.is_disc(),
                r@ == legal_prefix(self@, color, n as int),
            decreases 64 - n,
        {
            let p = self::position_at(n);
            if self.can_place(p, color) {
                r.push(p);
            }
            n = n + 1;
        }
        proof {
            lemma_prefix_legal(self@, color, 64);
            assert forall|p: Pos2D| r@.contains(p) <==> legal(self@, p.i as int, p.j as int, color) by {
                if legal(self@, p.i as int, p.j as int, color) {
                    lemma_moves_complete(self@, color, p);
                }
            }
        }
        r
    }

    /// Whether `color` has any legal move.
    pub fn has_any_moves(&self, color: Color) -> (r: bool)
        requires
            color.is_disc(),
        ensures
            r == (legal_moves(self@, color).len() > 0),
    {
        let mut n: usize = 0;
        while n < 64
            invariant
                n <= 64,
                color.is_disc(),
                legal_prefix(self@, color, n as int).len() == 0,
            decreases 64 - n,
        {
            let p = self::position_at(n);
            if self.can_place(p, color) {
                proof {
                    lemma_prefix_has(self@, color, 64, n as int);
                }
                return true;
            }
            n = n + 1;
        }
        false
    }

    /// How many legal moves each of two colors has.
    pub fn count_available_moves(&self, color1: Color, color2: Color) -> (r: (i32, i32))
        requires
            color1.is_disc(),
            color2.is_disc(),
        ensures
            r.0 == legal_moves(self@, color1).len(),
            r.1 == legal_moves(self@, color2).len(),
    {
        let mut n1: i32 = 0;
        let mut n2: i32 = 0;
        let mut n: usize = 0;
        while n < 64
            invariant
                n <= 64,
                color1.is_disc(),
                color2.is_disc(),
                n1 == legal_prefix(self@, color1, n as int).len(),
                n2 == legal_prefix(self@, color2, n as int).len(),
            decreases 64 - n,
        {
            proof {
                lemma_prefix_legal(self@, color1, n as int);
                lemma_prefix_legal(self@, color2, n as int);
            }
            let p = self::position_at(n);
            if self.can_place(p, color1) {
                n1 = n1 + 1;
            }
            if self.can_place(p, color2) {
                n2 = n2 + 1;
            }
            n = n + 1;
        }
        (n1, n2)
    }

    /// Whether every move of `transcript`, played in order from this board, is
    /// legal when its turn comes.
    pub fn can_replay(&self, transcript: &Transcript) -> (r: bool)
        ensures
            r == replayable(self@, transcript.moves@),
    {
        let ghost ms = transcript.moves@;
        let mut b = Board::new_from(self);
        let mut k: usize = 0;
        while k < transcript.moves.len()
            invariant
                ms == transcript.moves@,
                k <= ms.len(),
                replayable(self@, ms.take(k as int)),
                b@ == replay(self@, ms.take(k as int)),
            decreases ms.len() - k,
        {
            let mv = transcript.moves[k];
            proof {
                assert(ms.take(k + 1).drop_last() =~= ms.take(k as int));
            }
            if !(mv.0 == Color::Black || mv.0 == Color::White) || mv.1.i >= 8 || mv.1.j >= 8 {
                proof {
                    lemma_not_replayable_extend(self@, ms, k as int);
                }
                return false;
            }
            if !b.can_place(mv.1, mv.0) {
                proof {
                    lemma_not_replayable_extend(self@, ms, k as int);
                }
                return false;
            }
            b.place(mv.1, mv.0);
            k = k + 1;
        }
        assert(ms.take(k as int) =~= ms);
        true
    }

    /// Plays the moves of `transcript` in order and returns who moved last
    /// (White when there is no move).
    pub fn replay_transcript(&mut self, transcript: &Transcript) -> (r: Color)
        requires
            replayable(old(self)@, transcript.moves@),
        ensures
            final(self)@ == replay(old(self)@, transcript.moves@),
            r == if transcript.moves@.len() == 0 {
                Color::White
            } else {
                transcript.moves@.last().0
            },
    {
        let ghost b = self@;
        let ghost ms = transcript.moves@;
        let mut last_mover = Color::White;
        let mut k: usize = 0;
        while k < transcript.moves.len()
            invariant
                ms == transcript.moves@,
                replayable(b, ms),
                k <= ms.len(),
                self@ == replay(b, ms.take(k as int)),
                last_mover == if k == 0 {
                    Color::White
                } else {
                    ms[k - 1].0
                },
            decreases ms.len() - k,
        {
            let mv = transcript.moves[k];
            proof {
                lemma_replayable_prefix(b, ms, k + 1);
                assert(ms.take(k + 1).drop_last() =~= ms.take(k as int));
            }
            self.place(mv.1, mv.0);
            last_mover = mv.0;
            k = k + 1;
        }
        assert(ms.take(k as int) =~= ms);
        last_mover
    }

    pub open spec fn get_at_spec(&self, p: Pos2D) -> Color {
        at(self@, p.i as int, p.j as int)
    }

    pub fn set_at(&mut self, p: Pos2D, color: Color)
        requires
            p.valid(),
        ensures
            final(self)@ == old(self)@.update(idx(p.i as int, p.j as int), color),
    {
        self.set_at_pos_internal(p.j * 8 + p.i, color)
    }

    pub fn get_at(&self, p: Pos2D) -> (r: Color)
        requires
            p.valid(),
        ensures
            r == at(self@, p.i as int, p.j as int),
    {
        self.get_at_pos_internal(p.j * 8 + p.i)
    }

    fn get_at_pos_internal(&self, index: usize) -> (r: Color)
        requires
            index < 64,
        ensures
            r == self@[index as int],
    {
        self.board_data[index]
    }

    fn set_at_pos_internal(&mut self, index: usize, color: Color)
        requires
            index < 64,
        ensures
            final(self)@ == old(self)@.update(index as int, color),
    {
        self.board_data[index] = color;
    }
}

} // verus!
