//! Static attack tables: per-square knight-leap and king-step destination
//! sets, precomputed once from square geometry alone.

use vstd::prelude::*;
use crate::bits::{bit, BitBoard};

verus! {

broadcast use crate::bits::group_bit_lemmas;

/// A knight on `pos` can leap to `s`: the file and rank offsets are 1 and 2
/// in some order, and both squares are on the board.
pub open spec fn knight_reaches(pos: u64, s: u64) -> bool {
    let x = pos as int % 8;
    let y = pos as int / 8;
    let xs = s as int % 8;
    let ys = s as int / 8;
    let dx = xs - x;
    let dy = ys - y;
    pos < 64 && s < 64 && (((dx == 1 || dx == -1) && (dy == 2 || dy == -2)) || ((dx == 2 || dx
        == -2) && (dy == 1 || dy == -1)))
}

/// A king on `pos` can step to `s`: a distinct neighbouring square.
pub open spec fn king_reaches(pos: u64, s: u64) -> bool {
    let x = pos as int % 8;
    let y = pos as int / 8;
    let xs = s as int % 8;
    let ys = s as int / 8;
    let dx = xs - x;
    let dy = ys - y;
    pos < 64 && s < 64 && -1 <= dx <= 1 && -1 <= dy <= 1 && !(dx == 0 && dy == 0)
}

/// Knight and king reachability is symmetric: every destination square of an
/// origin's table has that origin in its own table.
pub proof fn lemma_leaper_symmetry(pos: u64, s: u64)
    ensures
        knight_reaches(pos, s) == knight_reaches(s, pos),
        king_reaches(pos, s) == king_reaches(s, pos),
{
}

/// The per-square destination sets for the two leaper pieces.
pub struct Cache {
    pub knight_table: Vec<BitBoard>,
    pub king_table: Vec<BitBoard>,
}

impl Cache {
    /// Both tables hold one entry per square, and each entry's members are
    /// exactly the reachable squares.
    pub open spec fn wf(&self) -> bool {
        &&& self.knight_table@.len() == 64
        &&& self.king_table@.len() == 64
        &&& forall|p: int, s: u64|
            0 <= p < 64 ==> (#[trigger] bit(self.knight_table@[p].0, s) <==> knight_reaches(
                p as u64,
                s,
            ))
        &&& forall|p: int, s: u64|
            0 <= p < 64 ==> (#[trigger] bit(self.king_table@[p].0, s) <==> king_reaches(
                p as u64,
                s,
            ))
    }

    pub fn new() -> (c: Cache)
        ensures
            c.wf(),
    {
        let mut knight_table: Vec<BitBoard> = Vec::new();
        for pos in 0..64u32
            invariant
                knight_table@.len() == pos,
                forall|p: int, s: u64|
                    0 <= p < pos ==> (#[trigger] bit(knight_table@[p].0, s) <==> knight_reaches(
                        p as u64,
                        s,
                    )),
        {
            knight_table.push(Self::knight_board(pos));
        }
        let mut king_table: Vec<BitBoard> = Vec::new();
        for pos in 0..64u32
            invariant
                king_table@.len() == pos,
                forall|p: int, s: u64|
                    0 <= p < pos ==> (#[trigger] bit(king_table@[p].0, s) <==> king_reaches(
                        p as u64,
                        s,
                    )),
        {
            king_table.push(Self::king_board(pos));
        }
        Cache { knight_table, king_table }
    }

    /// The set of squares a knight on `pos` can leap to.
    pub fn knight_moves(&self, pos: u32) -> (r: BitBoard)
        requires
            self.wf(),
            pos < 64,
        ensures
            forall|s: u64| #[trigger] bit(r.0, s) <==> knight_reaches(pos as u64, s),
    {
        self.knight_table[pos as usize]
    }

    /// The set of squares a king on `pos` can step to.
    pub fn king_moves(&self, pos: u32) -> (r: BitBoard)
        requires
            self.wf(),
            pos < 64,
        ensures
            forall|s: u64| #[trigger] bit(r.0, s) <==> king_reaches(pos as u64, s),
    {
        self.king_table[pos as usize]
    }

    fn knight_board(pos: u32) -> (r: BitBoard)
        requires
            pos < 64,
        ensures
            forall|s: u64| #[trigger] bit(r.0, s) <==> knight_reaches(pos as u64, s),
    {
        let x = (pos % 8) as i32;
        let y = (pos / 8) as i32;
        let mut bb = BitBoard::new_empty();
        for s in 0..64u32
            invariant
                pos < 64,
                x == pos as int % 8,
                y == pos as int / 8,
                forall|t: u64| #[trigger] bit(bb.0, t) <==> (t < s && knight_reaches(pos as u64, t)),
        {
            let xs = (s % 8) as i32;
            let ys = (s / 8) as i32;
            let dx = xs - x;
            let dy = ys - y;
            if ((dx == 1 || dx == -1) && (dy == 2 || dy == -2)) || ((dx == 2 || dx == -2) && (dy
                == 1 || dy == -1)) {
                let ghost prev = bb.0;
                bb = bb.add_pos(s);
                proof {
                    assert forall|t: u64| #[trigger] bit(bb.0, t) <==> (bit(prev, t) || t
                        == s as u64) by {
                        crate::bits::lemma_bit_or(prev, 1u64 << (s as u64), t);
                        crate::bits::lemma_bit_single(s as u64, t);
                    }
                }
            }
        }
        bb
    }

    fn king_board(pos: u32) -> (r: BitBoard)
        requires
            pos < 64,
        ensures
            forall|s: u64| #[trigger] bit(r.0, s) <==> king_reaches(pos as u64, s),
    {
        let x = (pos % 8) as i32;
        let y = (pos / 8) as i32;
        let mut bb = BitBoard::new_empty();
        for s in 0..64u32
            invariant
                pos < 64,
                x == pos as int % 8,
                y == pos as int / 8,
                forall|t: u64| #[trigger] bit(bb.0, t) <==> (t < s && king_reaches(pos as u64, t)),
        {
            let xs = (s % 8) as i32;
            let ys = (s / 8) as i32;
            let dx = xs - x;
            let dy = ys - y;
            if -1 <= dx && dx <= 1 && -1 <= dy && dy <= 1 && !(dx == 0 && dy == 0) {
                let ghost prev = bb.0;
                bb = bb.add_pos(s);
                proof {
                    assert forall|t: u64| #[trigger] bit(bb.0, t) <==> (bit(prev, t) || t
                        == s as u64) by {
                        crate::bits::lemma_bit_or(prev, 1u64 << (s as u64), t);
                        crate::bits::lemma_bit_single(s as u64, t);
                    }
                }
            }
        }
        bb
    }
}

} // verus!
