use vstd::prelude::*;

use crate::board::{after_place, legal, Pos2D};
use crate::color::Color;

verus! {

/// The letter that names column `i`.
pub open spec fn col_char(i: int) -> char {
    if i == 0 {
        'a'
    } else if i == 1 {
        'b'
    } else if i == 2 {
        'c'
    } else if i == 3 {
        'd'
    } else if i == 4 {
        'e'
    } else if i == 5 {
        'f'
    } else if i == 6 {
        'g'
    } else {
        'h'
    }
}

/// The digit that names row `j`.
pub open spec fn row_char(j: int) -> char {
    if j == 0 {
        '0'
    } else if j == 1 {
        '1'
    } else if j == 2 {
        '2'
    } else if j == 3 {
        '3'
    } else if j == 4 {
        '4'
    } else if j == 5 {
        '5'
    } else if j == 6 {
        '6'
    } else {
        '7'
    }
}

/// The text form of a position: column letter, then row digit.
pub open spec fn pos_text(p: Pos2D) -> Seq<char> {
    seq![col_char(p.i as int), row_char(p.j as int)]
}

/// The text form of one move: `b` or `w` for the mover, then the position.
pub open spec fn move_text(m: (Color, Pos2D)) -> Seq<char> {
    seq![
        if m.0 == Color::Black {
            'b'
        } else {
            'w'
        },
    ] + pos_text(m.1)
}

/// The text form of a list of moves.
pub open spec fn trace_text(moves: Seq<(Color, Pos2D)>) -> Seq<char>
    decreases moves.len(),
{
    if moves.len() == 0 {
        Seq::empty()
    } else {
        trace_text(moves.drop_last()) + move_text(moves.last())
    }
}

/// Token `t` of `s` holds a column letter and a row digit after its mover tag.
pub open spec fn token_ok(s: Seq<char>, t: int) -> bool {
    &&& 'a' <= s[3 * t + 1] <= 'h'
    &&& '0' <= s[3 * t + 2] <= '7'
}

/// `s` is a run of three-character move tokens.
pub open spec fn trace_ok(s: Seq<char>) -> bool {
    &&& s.len() % 3 == 0
    &&& forall|t: int| 0 <= t < s.len() / 3 ==> #[trigger] token_ok(s, t)
}

/// The move that token `t` of `s` stands for; any tag but `b` means White.
pub open spec fn parse_move(s: Seq<char>, t: int) -> (Color, Pos2D) {
    (
        if s[3 * t] == 'b' {
            Color::Black
        } else {
            Color::White
        },
        Pos2D { i: (s[3 * t + 1] as int - 'a' as int) as usize, j: (s[3 * t + 2] as int - '0' as int) as usize },
    )
}

/// The board after playing `moves` in order from `b`.
pub open spec fn replay(b: Seq<Color>, moves: Seq<(Color, Pos2D)>) -> Seq<Color>
    decreases moves.len(),
{
    if moves.len() == 0 {
        b
    } else {
        let m = moves.last();
        after_place(replay(b, moves.drop_last()), m.1.i as int, m.1.j as int, m.0)
    }
}

/// Every move of `moves`, played in order from `b`, is legal when its turn comes.
pub open spec fn replayable(b: Seq<Color>, moves: Seq<(Color, Pos2D)>) -> bool
    decreases moves.len(),
{
    moves.len() == 0 || {
        let m = moves.last();
        &&& replayable(b, moves.drop_last())
        &&& m.0.is_disc()
        &&& legal(replay(b, moves.drop_last()), m.1.i as int, m.1.j as int, m.0)
    }
}

pub proof fn lemma_replayable_prefix(b: Seq<Color>, moves: Seq<(Color, Pos2D)>, n: int)
    requires
        replayable(b, moves),
        0 <= n <= moves.len(),
    ensures
        replayable(b, moves.take(n)),
    decreases moves.len(),
{
    if n == moves.len() {
        assert(moves.take(n) =~= moves);
    } else {
        lemma_replayable_prefix(b, moves.drop_last(), n);
        assert(moves.drop_last().take(n) =~= moves.take(n));
    }
}

/// A transcript whose move `k` cannot be played after the first `k` cannot be
/// replayed, nor can any longer one.
pub proof fn lemma_not_replayable_extend(b: Seq<Color>, moves: Seq<(Color, Pos2D)>, k: int)
    requires
        0 <= k < moves.len(),
        !replayable(b, moves.take(k + 1)),
    ensures
        !replayable(b, moves),
{
    if replayable(b, moves) {
        lemma_replayable_prefix(b, moves, k + 1);
    }
}

/// The letter naming column `i`.
fn col_str(i: usize) -> (r: &'static str)
    requires
        i < 8,
    ensures
        r@ == seq![col_char(i as int)],
{
    match i {
        0 => {
            proof { reveal_strlit("a"); }
            "a"
        },
        1 => {
            proof { reveal_strlit("b"); }
            "b"
        },
        2 => {
            proof { reveal_strlit("c"); }
            "c"
        },
        3 => {
            proof { reveal_strlit("d"); }
            "d"
        },
        4 => {
            proof { reveal_strlit("e"); }
            "e"
        },
        5 => {
            proof { reveal_strlit("f"); }
            "f"
        },
        6 => {
            proof { reveal_strlit("g"); }
            "g"
        },
        _ => {
            proof { reveal_strlit("h"); }
            "h"
        },
    }
}

/// The digit naming row `j`.
fn row_str(j: usize) -> (r: &'static str)
    requires
        j < 8,
    ensures
        r@ == seq![row_char(j as int)],
{
    match j {
        0 => {
            proof { reveal_strlit("0"); }
            "0"
        },
        1 => {
            proof { reveal_strlit("1"); }
            "1"
        },
        2 => {
            proof { reveal_strlit("2"); }
            "2"
        },
        3 => {
            proof { reveal_strlit("3"); }
            "3"
        },
        4 => {
            proof { reveal_strlit("4"); }
            "4"
        },
        5 => {
            proof { reveal_strlit("5"); }
            "5"
        },
        6 => {
            proof { reveal_strlit("6"); }
            "6"
        },
        _ => {
            proof { reveal_strlit("7"); }
            "7"
        },
    }
}

impl Pos2D {
    /// The text form, such as `c4`.
    pub fn name(&self) -> (r: String)
        requires
            self.valid(),
        ensures
            r@ == pos_text(*self),
    {
        let mut r = String::from_str(col_str(self.i));
        r.append(row_str(self.j));
        r
    }

    /// Reads the text form of a position: a column letter `a` to `h` and a row
    /// digit `0` to `7`; anything else gives `None`.
    pub fn from_name(s: &str) -> (r: Option<Pos2D>)
        ensures
            r.is_some() == (s@.len() == 2 && 'a' <= s@[0] <= 'h' && '0' <= s@[1] <= '7'),
            r.is_some() ==> r.unwrap().valid() && pos_text(r.unwrap()) == s@,
    {
        if s.unicode_len() != 2 {
            return None;
        }
        let c = s.get_char(0);
        let d = s.get_char(1);
        if 'a' <= c && c <= 'h' && '0' <= d && d <= '7' {
            let p = Pos2D::new((c as u32 - 'a' as u32) as usize, (d as u32 - '0' as u32) as usize);
            assert(pos_text(p) =~= s@);
            Some(p)
        } else {
            None
        }
    }
}

/// The moves of a game so far, oldest first.
pub struct Transcript {
    pub moves: Vec<(Color, Pos2D)>,
}

impl Transcript {
    pub fn new() -> (r: Transcript)
        ensures
            r.moves@ == Seq::<(Color, Pos2D)>::empty(),
    {
        Transcript { moves: Vec::new() }
    }

    /// Reads a transcript written as three-character tokens: `b` for Black or
    /// another letter for White, a column letter and a row digit.
    pub fn from_trace(trace: &str) -> (r: Transcript)
        requires
            trace_ok(trace@),
        ensures
            r.moves@ == Seq::new(trace@.len() / 3, |t: int| parse_move(trace@, t)),
    {
        let mut t = Transcript::new();
        let len = trace.unicode_len();
        let mut index: usize = 0;
        while index < len
            invariant
                len == trace@.len(),
                trace_ok(trace@),
                index % 3 == 0,
                index <= len,
                index == 3 * t.moves@.len(),
                t.moves@ == Seq::new(t.moves@.len(), |k: int| parse_move(trace@, k)),
            decreases len - index,
        {
            let ghost k = t.moves@.len() as int;
            assert(token_ok(trace@, k));
            let tag = trace.get_char(index);
            let mover = if tag == 'b' {
                Color::Black
            } else {
                Color::White
            };
            let chi = trace.get_char(index + 1);
            let chj = trace.get_char(index + 2);
            let i = (chi as u32 - 'a' as u32) as usize;
            let j = (chj as u32 - '0' as u32) as usize;
            t.add(Pos2D::new(i, j), mover);
            index = index + 3;
            assert(t.moves@ =~= Seq::new(t.moves@.len(), |k: int| parse_move(trace@, k)));
        }
        t
    }

    pub fn add(&mut self, position: Pos2D, mover: Color)
        ensures
            final(self).moves@ == old(self).moves@.push((mover, position)),
    {
        self.moves.push((mover, position))
    }

    /// Takes back the last two moves (one round) and returns who made the
    /// earlier of them.
    pub fn back(&mut self) -> (r: Color)
        requires
            old(self).moves@.len() >= 2,
        ensures
            final(self).moves@ == old(self).moves@.take(old(self).moves@.len() - 2),
            r == old(self).moves@[old(self).moves@.len() - 2].0,
    {
        let _ = self.moves.pop();
        let last = self.moves.pop();
        assert(self.moves@ =~= old(self).moves@.take(old(self).moves@.len() - 2));
        last.unwrap().0
    }

    /// The text form that `from_trace` reads.
    pub fn to_trace(&self) -> (r: String)
        requires
            forall|k: int| 0 <= k < self.moves@.len() ==> (#[trigger] self.moves@[k]).1.valid(),
        ensures
            r@ == trace_text(self.moves@),
    {
        let mut output = String::new();
        let mut k: usize = 0;
        while k < self.moves.len()
            invariant
                k <= self.moves@.len(),
                forall|q: int| 0 <= q < self.moves@.len() ==> (#[trigger] self.moves@[q]).1.valid(),
                output@ == trace_text(self.moves@.take(k as int)),
            decreases self.moves@.len() - k,
        {
            let (mover, p) = self.moves[k];
            if mover == Color::Black {
                proof { reveal_strlit("b"); }
                output.append("b");
            } else {
                proof { reveal_strlit("w"); }
                output.append("w");
            }
            let name = p.name();
            output.append(name.as_str());
            assert(self.moves@.take(k + 1).drop_last() =~= self.moves@.take(k as int));
            assert(output@ =~= trace_text(self.moves@.take(k + 1)));
            k = k + 1;
        }
        assert(self.moves@.take(k as int) =~= self.moves@);
        output
    }
}

} // verus!
