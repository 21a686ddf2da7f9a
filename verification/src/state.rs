//! The mutable position: per-kind and per-colour bitboards, side to move,
//! castling rights, en-passant target, halfmove clock, and the move applier.

use vstd::prelude::*;
use vstd::string::StringExecFns;
use crate::bits::{bit, BitBoard};
use crate::pieces::{color_index, opp, piece_index, Color, Piece};

verus! {

broadcast use crate::bits::group_bit_lemmas;

/// A pseudo-legal move: a piece kind, an origin square and a destination
/// square.
#[derive(Copy, Clone, Debug, PartialEq, Eq, Structural)]
pub struct Move {
    pub piece: Piece,
    pub origin: u32,
    pub dest: u32,
}

impl Move {
    pub fn new(piece: Piece, origin: u32, dest: u32) -> (r: Self)
        ensures
            r.piece == piece,
            r.origin == origin,
            r.dest == dest,
    {
        Self { piece, origin, dest }
    }
}

/// A position. The per-kind and per-colour bitboards are redundant and kept
/// in sync: see [`ChessState::wf`].
pub struct ChessState {
    pub active: Color,
    pub piece_bb: [BitBoard; 6],
    pub player_bb: [BitBoard; 2],
    pub castle_ks: [bool; 2],
    pub castle_qs: [bool; 2],
    pub en_passant: Option<BitBoard>,
    pub move_rule: u32,
}

/// The piece kind a board letter of the text encoding names, either case.
pub open spec fn letter_piece(c: char) -> Option<Piece> {
    if c == 'k' || c == 'K' {
        Some(Piece::King)
    } else if c == 'q' || c == 'Q' {
        Some(Piece::Queen)
    } else if c == 'n' || c == 'N' {
        Some(Piece::Knight)
    } else if c == 'p' || c == 'P' {
        Some(Piece::Pawn)
    } else if c == 'b' || c == 'B' {
        Some(Piece::Bishop)
    } else if c == 'r' || c == 'R' {
        Some(Piece::Rook)
    } else {
        None
    }
}

/// The board section of the text: ranks listed from the eighth down to the
/// first, `/` between ranks, digits advancing the walk by their value,
/// letters placing a piece (uppercase white, lowercase black) on square
/// `8 * (7 - i / 8) + i % 8` for walk index `i`. Stops at the first space.
/// Nothing for truncated text, an unknown letter, a walk past the last
/// square, or a square given twice.
pub open spec fn parse_board(s: Seq<char>, idx: int, i: int, pieces: Seq<u64>, players: Seq<u64>) -> Option<
    (int, Seq<u64>, Seq<u64>),
>
    decreases s.len() - idx,
{
    if idx < 0 || idx >= s.len() {
        None
    } else {
        let c = s[idx];
        if c == '/' {
            parse_board(s, idx + 1, i, pieces, players)
        } else if c == ' ' {
            Some((idx + 1, pieces, players))
        } else if '0' <= c && c <= '9' {
            let i2 = i + (c as int - '0' as int);
            if i2 > 64 {
                None
            } else {
                parse_board(s, idx + 1, i2, pieces, players)
            }
        } else {
            match letter_piece(c) {
                None => None,
                Some(piece) => {
                    if i >= 64 {
                        None
                    } else {
                        let pos = 8 * (8 - i / 8 - 1) + i % 8;
                        if bit(players[0], pos as u64) || bit(players[1], pos as u64) {
                            None
                        } else {
                            let cidx = if 'A' <= c && c <= 'Z' {
                                0int
                            } else {
                                1int
                            };
                            let pidx = piece_index(piece);
                            parse_board(
                                s,
                                idx + 1,
                                i + 1,
                                pieces.update(pidx, pieces[pidx] | (1u64 << pos as u64)),
                                players.update(cidx, players[cidx] | (1u64 << pos as u64)),
                            )
                        }
                    }
                },
            }
        }
    }
}

/// The active-colour field: `w` or `b`, followed by one separator character.
pub open spec fn parse_color(s: Seq<char>, idx: int) -> Option<(int, Color)> {
    if idx < 0 || idx >= s.len() {
        None
    } else {
        let c = s[idx];
        if c == 'w' || c == 'b' {
            if idx + 1 >= s.len() {
                None
            } else {
                Some(
                    (
                        idx + 2,
                        if c == 'w' {
                            Color::White
                        } else {
                            Color::Black
                        },
                    ),
                )
            }
        } else {
            None
        }
    }
}

/// The castling field: `K`, `Q`, `k`, `q` set the matching right, `-` is
/// skipped, a space ends the field; anything else is malformed.
pub open spec fn parse_castling(s: Seq<char>, idx: int, ks: Seq<bool>, qs: Seq<bool>) -> Option<
    (int, Seq<bool>, Seq<bool>),
>
    decreases s.len() - idx,
{
    if idx < 0 || idx >= s.len() {
        None
    } else {
        let c = s[idx];
        if c == ' ' {
            Some((idx + 1, ks, qs))
        } else if c == 'k' {
            parse_castling(s, idx + 1, ks.update(1, true), qs)
        } else if c == 'K' {
            parse_castling(s, idx + 1, ks.update(0, true), qs)
        } else if c == 'q' {
            parse_castling(s, idx + 1, ks, qs.update(1, true))
        } else if c == 'Q' {
            parse_castling(s, idx + 1, ks, qs.update(0, true))
        } else if c == '-' {
            parse_castling(s, idx + 1, ks, qs)
        } else {
            None
        }
    }
}

/// The en-passant field: `-` for none, or a file letter and a rank digit
/// naming the target square; one separator character follows either form.
pub open spec fn parse_en_passant(s: Seq<char>, idx: int) -> Option<(int, Option<u64>)> {
    if idx < 0 || idx >= s.len() {
        None
    } else {
        let c = s[idx];
        if c == '-' {
            if idx + 1 >= s.len() {
                None
            } else {
                Some((idx + 2, None))
            }
        } else if 'a' <= c && c <= 'h' {
            if idx + 1 >= s.len() {
                None
            } else {
                let f = s[idx + 1];
                if '1' <= f && f <= '8' {
                    if idx + 2 >= s.len() {
                        None
                    } else {
                        Some(
                            (
                                idx + 3,
                                Some(
                                    ((f as int - '1' as int) * 8 + (c as int - 'a' as int)) as u64,
                                ),
                            ),
                        )
                    }
                } else {
                    None
                }
            }
        } else {
            None
        }
    }
}

/// The halfmove clock: decimal digits up to the next space or the end of the
/// text; at least one digit, and the value must fit the clock's width.
pub open spec fn parse_clock(s: Seq<char>, idx: int, val: int, digits: int) -> Option<u32>
    decreases s.len() - idx,
{
    if idx < 0 {
        None
    } else if idx >= s.len() || s[idx] == ' ' {
        if digits == 0 {
            None
        } else {
            Some(val as u32)
        }
    } else {
        let c = s[idx];
        if !('0' <= c && c <= '9') {
            None
        } else {
            let v2 = val * 10 + (c as int - '0' as int);
            if v2 > 0xFFFF_FFFF {
                None
            } else {
                parse_clock(s, idx + 1, v2, digits + 1)
            }
        }
    }
}

/// The text from the halfmove clock on, with the board, colour, castling and
/// en-passant fields already read.
pub open spec fn fen_rest4(
    s: Seq<char>,
    idx: int,
    pieces: Seq<u64>,
    players: Seq<u64>,
    active: Color,
    ks: Seq<bool>,
    qs: Seq<bool>,
    ep: Option<u64>,
) -> Option<(Seq<u64>, Seq<u64>, Color, Seq<bool>, Seq<bool>, Option<u64>, u32)> {
    match parse_clock(s, idx, 0, 0) {
        None => None,
        Some(clock) => Some((pieces, players, active, ks, qs, ep, clock)),
    }
}

/// The text from the en-passant field on.
pub open spec fn fen_rest3(
    s: Seq<char>,
    idx: int,
    pieces: Seq<u64>,
    players: Seq<u64>,
    active: Color,
    ks: Seq<bool>,
    qs: Seq<bool>,
) -> Option<(Seq<u64>, Seq<u64>, Color, Seq<bool>, Seq<bool>, Option<u64>, u32)> {
    match parse_en_passant(s, idx) {
        None => None,
        Some((idx2, ep)) => fen_rest4(s, idx2, pieces, players, active, ks, qs, ep),
    }
}

/// The text from the castling field on.
pub open spec fn fen_rest2(
    s: Seq<char>,
    idx: int,
    pieces: Seq<u64>,
    players: Seq<u64>,
    active: Color,
) -> Option<(Seq<u64>, Seq<u64>, Color, Seq<bool>, Seq<bool>, Option<u64>, u32)> {
    match parse_castling(s, idx, seq![false, false], seq![false, false]) {
        None => None,
        Some((idx2, ks, qs)) => fen_rest3(s, idx2, pieces, players, active, ks, qs),
    }
}

/// The text from the active-colour field on.
pub open spec fn fen_rest1(s: Seq<char>, idx: int, pieces: Seq<u64>, players: Seq<u64>) -> Option<
    (Seq<u64>, Seq<u64>, Color, Seq<bool>, Seq<bool>, Option<u64>, u32),
> {
    match parse_color(s, idx) {
        None => None,
        Some((idx2, active)) => fen_rest2(s, idx2, pieces, players, active),
    }
}

/// What a position text denotes: the six piece boards, the two colour
/// boards, the active colour, the king- and queen-side castling flags, the
/// en-passant square and the halfmove clock — or nothing, when the text is
/// malformed.
pub open spec fn fen_parse(s: Seq<char>) -> Option<
    (Seq<u64>, Seq<u64>, Color, Seq<bool>, Seq<bool>, Option<u64>, u32),
> {
    match parse_board(
        s,
        0,
        0,
        seq![0u64, 0u64, 0u64, 0u64, 0u64, 0u64],
        seq![0u64, 0u64],
    ) {
        None => None,
        Some((idx, pieces, players)) => fen_rest1(s, idx, pieces, players),
    }
}

/// The word sequence behind an array of piece boards.
pub open spec fn pieces_view(a: [BitBoard; 6]) -> Seq<u64> {
    seq![a@[0].0, a@[1].0, a@[2].0, a@[3].0, a@[4].0, a@[5].0]
}

/// The word sequence behind a pair of colour boards.
pub open spec fn players_view(a: [BitBoard; 2]) -> Seq<u64> {
    seq![a@[0].0, a@[1].0]
}

/// The flag sequence behind a pair of castling rights.
pub open spec fn flags_view(a: [bool; 2]) -> Seq<bool> {
    seq![a@[0], a@[1]]
}

impl ChessState {
    /// No square carries two piece kinds, no square carries two colours, and
    /// a square carries a piece kind exactly when it carries a colour.
    pub open spec fn wf(&self) -> bool {
        &&& forall|i: int, j: int, s: u64|
            0 <= i < j < 6 ==> !(#[trigger] bit(self.piece_bb@[i].0, s) && #[trigger] bit(
                self.piece_bb@[j].0,
                s,
            ))
        &&& forall|s: u64|
            !(#[trigger] bit(self.player_bb@[0].0, s) && bit(self.player_bb@[1].0, s))
        &&& forall|s: u64|
            #![trigger bit(self.player_bb@[0].0, s)]
            #![trigger bit(self.player_bb@[1].0, s)]
            ((bit(self.piece_bb@[0].0, s) || bit(self.piece_bb@[1].0, s) || bit(
                self.piece_bb@[2].0,
                s,
            ) || bit(self.piece_bb@[3].0, s) || bit(self.piece_bb@[4].0, s) || bit(
                self.piece_bb@[5].0,
                s,
            )) <==> (bit(self.player_bb@[0].0, s) || bit(self.player_bb@[1].0, s)))
    }

    /// The colour occupying a square, if any.
    pub fn color_at(&self, pos: u32) -> (r: Option<Color>)
        requires
            pos < 64,
        ensures
            r == (if bit(self.player_bb@[0].0, pos as u64) {
                Some(Color::White)
            } else if bit(self.player_bb@[1].0, pos as u64) {
                Some(Color::Black)
            } else {
                None::<Color>
            }),
    {
        if !(self.player_bb[Color::White.index()].empty_at(pos)) {
            Some(Color::White)
        } else if !(self.player_bb[Color::Black.index()].empty_at(pos)) {
            Some(Color::Black)
        } else {
            None
        }
    }

    /// The standard starting position, white to move.
    pub fn default() -> (r: Self)
        ensures
            r.wf(),
            r.active == Color::White,
            r.piece_bb@[0].0 == 0x00FF00000000FF00u64,
            r.piece_bb@[1].0 == 0x2400000000000024u64,
            r.piece_bb@[2].0 == 0x1000000000000010u64,
            r.piece_bb@[3].0 == 0x0800000000000008u64,
            r.piece_bb@[4].0 == 0x8100000000000081u64,
            r.piece_bb@[5].0 == 0x4200000000000042u64,
            r.player_bb@[0].0 == 0x000000000000FFFFu64,
            r.player_bb@[1].0 == 0xFFFF000000000000u64,
            r.castle_ks@[0] && r.castle_ks@[1] && r.castle_qs@[0] && r.castle_qs@[1],
            r.en_passant is None,
            r.move_rule == 0,
    {
        let r = ChessState {
            active: Color::White,
            piece_bb: [
                BitBoard(0x00FF00000000FF00),
                BitBoard(0x2400000000000024),
                BitBoard(0x1000000000000010),
                BitBoard(0x0800000000000008),
                BitBoard(0x8100000000000081),
                BitBoard(0x4200000000000042),
            ],
            player_bb: [BitBoard(0x000000000000FFFF), BitBoard(0xFFFF000000000000)],
            castle_ks: [true, true],
            castle_qs: [true, true],
            en_passant: None,
            move_rule: 0,
        };
        proof {
            let u = 0x00FF00000000FF00u64 | 0x2400000000000024 | 0x1000000000000010
                | 0x0800000000000008 | 0x8100000000000081 | 0x4200000000000042;
            assert(0x00FF00000000FF00u64 & 0x2400000000000024 == 0
                && 0x00FF00000000FF00u64 & 0x1000000000000010 == 0
                && 0x00FF00000000FF00u64 & 0x0800000000000008 == 0
                && 0x00FF00000000FF00u64 & 0x8100000000000081 == 0
                && 0x00FF00000000FF00u64 & 0x4200000000000042 == 0
                && 0x2400000000000024u64 & 0x1000000000000010 == 0
                && 0x2400000000000024u64 & 0x0800000000000008 == 0
                && 0x2400000000000024u64 & 0x8100000000000081 == 0
                && 0x2400000000000024u64 & 0x4200000000000042 == 0
                && 0x1000000000000010u64 & 0x0800000000000008 == 0
                && 0x1000000000000010u64 & 0x8100000000000081 == 0
                && 0x1000000000000010u64 & 0x4200000000000042 == 0
                && 0x0800000000000008u64 & 0x8100000000000081 == 0
                && 0x0800000000000008u64 & 0x4200000000000042 == 0
                && 0x8100000000000081u64 & 0x4200000000000042 == 0
                && 0x000000000000FFFFu64 & 0xFFFF000000000000 == 0 && (
            0x00FF00000000FF00u64 | 0x2400000000000024 | 0x1000000000000010 | 0x0800000000000008
                | 0x8100000000000081 | 0x4200000000000042) == (0x000000000000FFFFu64
                | 0xFFFF000000000000)) by (bit_vector);
            assert forall|i: int, j: int, s: u64|
                0 <= i < j < 6 implies !(#[trigger] bit(r.piece_bb@[i].0, s) && #[trigger] bit(
                r.piece_bb@[j].0,
                s,
            )) by {
                crate::bits::lemma_bit_and(r.piece_bb@[i].0, r.piece_bb@[j].0, s);
            }
            assert forall|s: u64|
                !(#[trigger] bit(r.player_bb@[0].0, s) && bit(r.player_bb@[1].0, s)) by {
                crate::bits::lemma_bit_and(0x000000000000FFFFu64, 0xFFFF000000000000u64, s);
            }
            assert forall|s: u64|
                ((bit(r.piece_bb@[0].0, s) || bit(r.piece_bb@[1].0, s) || bit(r.piece_bb@[2].0, s)
                    || bit(r.piece_bb@[3].0, s) || bit(r.piece_bb@[4].0, s) || bit(
                    r.piece_bb@[5].0,
                    s,
                )) <==> (#[trigger] bit(r.player_bb@[0].0, s) || bit(r.player_bb@[1].0, s))) by {
                let p0 = 0x00FF00000000FF00u64;
                let p1 = 0x2400000000000024u64;
                let p2 = 0x1000000000000010u64;
                let p3 = 0x0800000000000008u64;
                let p4 = 0x8100000000000081u64;
                let p5 = 0x4200000000000042u64;
                crate::bits::lemma_bit_or(p0, p1, s);
                crate::bits::lemma_bit_or(p0 | p1, p2, s);
                crate::bits::lemma_bit_or(p0 | p1 | p2, p3, s);
                crate::bits::lemma_bit_or(p0 | p1 | p2 | p3, p4, s);
                crate::bits::lemma_bit_or(p0 | p1 | p2 | p3 | p4, p5, s);
                crate::bits::lemma_bit_or(0x000000000000FFFFu64, 0xFFFF000000000000u64, s);
                assert(r.piece_bb@[0].0 == p0 && r.piece_bb@[1].0 == p1 && r.piece_bb@[2].0 == p2
                    && r.piece_bb@[3].0 == p3 && r.piece_bb@[4].0 == p4 && r.piece_bb@[5].0 == p5);
            }
        }
        r
    }

    /// Apply `action` to this position: any piece on the destination is
    /// captured, the moved piece leaves its origin and appears on the
    /// destination, every other square keeps its occupant, and the side to
    /// move flips. Castling rights, the en-passant target and the halfmove
    /// clock are not maintained.
    pub fn apply_move(&mut self, action: Move)
        requires
            old(self).wf(),
            action.origin < 64,
            action.dest < 64,
            action.origin != action.dest,
            bit(old(self).piece_bb@[piece_index(action.piece)].0, action.origin as u64),
            bit(old(self).player_bb@[color_index(old(self).active)].0, action.origin as u64),
            !bit(old(self).player_bb@[color_index(old(self).active)].0, action.dest as u64),
        ensures
            final(self).wf(),
            final(self).active == opp(old(self).active),
            final(self).castle_ks == old(self).castle_ks,
            final(self).castle_qs == old(self).castle_qs,
            final(self).en_passant == old(self).en_passant,
            final(self).move_rule == old(self).move_rule,
            forall|i: int, s: u64|
                0 <= i < 6 && s < 64 ==> (#[trigger] bit(final(self).piece_bb@[i].0, s) == (if s
                    == action.dest as u64 {
                    i == piece_index(action.piece)
                } else if s == action.origin as u64 {
                    false
                } else {
                    bit(old(self).piece_bb@[i].0, s)
                })),
            forall|c: int, s: u64|
                0 <= c < 2 && s < 64 ==> (#[trigger] bit(final(self).player_bb@[c].0, s) == (if s
                    == action.dest as u64 {
                    c == color_index(old(self).active)
                } else if s == action.origin as u64 {
                    false
                } else {
                    bit(old(self).player_bb@[c].0, s)
                })),
    {
        let origin = action.origin;
        let dest = action.dest;
        let ai = self.active.index();
        let oi = self.active.opposite().index();
        let pidx = action.piece.index();
        let ghost ob = 1u64 << (origin as u64);
        let ghost db = 1u64 << (dest as u64);

        let mut pb = self.piece_bb;
        let mut plb = self.player_bb;
        let ghost old_pb = pb;
        let ghost old_plb = plb;

        let v = plb[oi];
        plb[oi] = v.clear_pos(dest);
        let mut i: usize = 0;
        while i < 6
            invariant
                dest < 64,
                i <= 6,
                db == 1u64 << (dest as u64),
                forall|j: int| 0 <= j < i ==> (#[trigger] pb@[j]).0 == old_pb@[j].0 & !db,
                forall|j: int| i <= j < 6 ==> (#[trigger] pb@[j]).0 == old_pb@[j].0,
            decreases 6 - i,
        {
            let v = pb[i];
            pb[i] = v.clear_pos(dest);
            i += 1;
        }
        let v = pb[pidx];
        pb[pidx] = v.clear_pos(origin).add_pos(dest);
        let v = plb[ai];
        plb[ai] = v.clear_pos(origin).add_pos(dest);

        self.piece_bb = pb;
        self.player_bb = plb;
        self.active = self.active.opposite();

        proof {
            let obn = !ob;
            let dbn = !db;
            assert forall|i2: int, s: u64|
                0 <= i2 < 6 && s < 64 implies (#[trigger] bit(self.piece_bb@[i2].0, s) == (if s
                    == dest as u64 {
                    i2 == piece_index(action.piece)
                } else if s == origin as u64 {
                    false
                } else {
                    bit(old(self).piece_bb@[i2].0, s)
                })) by {
                let a = old(self).piece_bb@[i2].0;
                crate::bits::lemma_bit_single(origin as u64, s);
                crate::bits::lemma_bit_single(dest as u64, s);
                crate::bits::lemma_bit_not(ob, s);
                crate::bits::lemma_bit_not(db, s);
                crate::bits::lemma_bit_and(a, dbn, s);
                crate::bits::lemma_bit_and(a & dbn, obn, s);
                crate::bits::lemma_bit_or((a & dbn) & obn, db, s);
                if i2 != piece_index(action.piece) && s == origin as u64 && bit(a, s) {
                    assert(bit(old(self).piece_bb@[piece_index(action.piece)].0, s));
                }
            }
            assert forall|c: int, s: u64|
                0 <= c < 2 && s < 64 implies (#[trigger] bit(self.player_bb@[c].0, s) == (if s
                    == dest as u64 {
                    c == color_index(old(self).active)
                } else if s == origin as u64 {
                    false
                } else {
                    bit(old(self).player_bb@[c].0, s)
                })) by {
                let a = old(self).player_bb@[c].0;
                crate::bits::lemma_bit_single(origin as u64, s);
                crate::bits::lemma_bit_single(dest as u64, s);
                crate::bits::lemma_bit_not(ob, s);
                crate::bits::lemma_bit_not(db, s);
                crate::bits::lemma_bit_and(a, dbn, s);
                crate::bits::lemma_bit_and(a, obn, s);
                crate::bits::lemma_bit_or(a & obn, db, s);
                if c != color_index(old(self).active) && s == origin as u64 && bit(a, s) {
                    assert(bit(old(self).player_bb@[color_index(old(self).active)].0, s));
                }
            }
            assert forall|s: u64|
                ((bit(self.piece_bb@[0].0, s) || bit(self.piece_bb@[1].0, s) || bit(
                    self.piece_bb@[2].0,
                    s,
                ) || bit(self.piece_bb@[3].0, s) || bit(self.piece_bb@[4].0, s) || bit(
                    self.piece_bb@[5].0,
                    s,
                )) <==> (#[trigger] bit(self.player_bb@[0].0, s) || bit(
                    self.player_bb@[1].0,
                    s,
                ))) by {
                if s < 64 && s == dest as u64 {
                    assert(bit(self.piece_bb@[piece_index(action.piece)].0, s));
                    assert(bit(self.player_bb@[color_index(old(self).active)].0, s));
                }
            }
        }
    }

    fn letter_piece_at(c: char) -> (r: Option<Piece>)
        ensures
            r == letter_piece(c),
    {
        match c {
            'k' | 'K' => Some(Piece::King),
            'q' | 'Q' => Some(Piece::Queen),
            'n' | 'N' => Some(Piece::Knight),
            'p' | 'P' => Some(Piece::Pawn),
            'b' | 'B' => Some(Piece::Bishop),
            'r' | 'R' => Some(Piece::Rook),
            _ => None,
        }
    }

    /// Parse a position from its textual encoding. The result is exactly
    /// what [`fen_parse`] denotes: for well-formed text, a state whose every
    /// field the text fixes; for malformed text, nothing.
    pub fn from_fen(fen: &str) -> (r: Option<ChessState>)
        ensures
            r is Some <==> fen_parse(fen@) is Some,
            r matches Some(st) ==> {
                let parts = fen_parse(fen@)->Some_0;
                &&& st.wf()
                &&& pieces_view(st.piece_bb) == parts.0
                &&& players_view(st.player_bb) == parts.1
                &&& st.active == parts.2
                &&& flags_view(st.castle_ks) == parts.3
                &&& flags_view(st.castle_qs) == parts.4
                &&& (parts.5 is None ==> st.en_passant is None)
                &&& (parts.5 matches Some(sq) ==> st.en_passant matches Some(bb) && bb.0 == 1u64
                    << sq)
                &&& st.move_rule == parts.6
            },
    {
        let n = fen.unicode_len();
        let mut idx: usize = 0;
        let mut i: u32 = 0;
        let mut piece_bb = [
            BitBoard(0),
            BitBoard(0),
            BitBoard(0),
            BitBoard(0),
            BitBoard(0),
            BitBoard(0),
        ];
        let mut player_bb = [BitBoard(0), BitBoard(0)];
        proof {
            broadcast use crate::bits::lemma_bit_zero;

            assert(pieces_view(piece_bb) =~= seq![0u64, 0u64, 0u64, 0u64, 0u64, 0u64]);
            assert(players_view(player_bb) =~= seq![0u64, 0u64]);
        }
        let mut done = false;
        while !done
            invariant
                n == fen@.len(),
                idx <= n,
                i <= 64,
                forall|i2: int, j2: int, s: u64|
                    0 <= i2 < j2 < 6 ==> !(#[trigger] bit(piece_bb@[i2].0, s) && #[trigger] bit(
                        piece_bb@[j2].0,
                        s,
                    )),
                forall|s: u64| !(#[trigger] bit(player_bb@[0].0, s) && bit(player_bb@[1].0, s)),
                forall|s: u64|
                    #![trigger bit(player_bb@[0].0, s)]
                    #![trigger bit(player_bb@[1].0, s)]
                    ((bit(piece_bb@[0].0, s) || bit(piece_bb@[1].0, s) || bit(piece_bb@[2].0, s)
                        || bit(piece_bb@[3].0, s) || bit(piece_bb@[4].0, s) || bit(
                        piece_bb@[5].0,
                        s,
                    )) <==> (bit(player_bb@[0].0, s) || bit(player_bb@[1].0, s))),
                !done ==> parse_board(
                    fen@,
                    idx as int,
                    i as int,
                    pieces_view(piece_bb),
                    players_view(player_bb),
                ) == parse_board(
                    fen@,
                    0,
                    0,
                    seq![0u64, 0u64, 0u64, 0u64, 0u64, 0u64],
                    seq![0u64, 0u64],
                ),
                done ==> parse_board(
                    fen@,
                    0,
                    0,
                    seq![0u64, 0u64, 0u64, 0u64, 0u64, 0u64],
                    seq![0u64, 0u64],
                ) == Some((idx as int, pieces_view(piece_bb), players_view(player_bb))),
            decreases n - idx,
        {
            let ghost idx0 = idx as int;
            let ghost i0 = i as int;
            let ghost pieces0 = pieces_view(piece_bb);
            let ghost players0 = players_view(player_bb);
            if idx >= n {
                proof {
                    assert(parse_board(fen@, idx0, i0, pieces0, players0) is None);
                }
                return None;
            }
            let c = fen.get_char(idx);
            idx += 1;
            if c == '/' {
                proof {
                    assert(parse_board(fen@, idx0, i0, pieces0, players0) == parse_board(
                        fen@,
                        idx as int,
                        i0,
                        pieces0,
                        players0,
                    ));
                }
                continue;
            } else if c == ' ' {
                done = true;
                proof {
                    assert(parse_board(fen@, idx0, i0, pieces0, players0) == Some(
                        (idx as int, pieces0, players0),
                    ));
                }
                continue;
            } else if c >= '0' && c <= '9' {
                let d = (c as u32) - 48;
                i += d;
                if i > 64 {
                    proof {
                        assert(parse_board(fen@, idx0, i0, pieces0, players0) is None);
                    }
                    return None;
                }
                proof {
                    assert(parse_board(fen@, idx0, i0, pieces0, players0) == parse_board(
                        fen@,
                        idx as int,
                        i as int,
                        pieces0,
                        players0,
                    ));
                }
                continue;
            }
            let piece = match Self::letter_piece_at(c) {
                Some(p) => p,
                None => {
                    proof {
                        assert(parse_board(fen@, idx0, i0, pieces0, players0) is None);
                    }
                    return None;
                },
            };
            let cidx: usize = if c >= 'A' && c <= 'Z' {
                0
            } else {
                1
            };
            if i >= 64 {
                proof {
                    assert(parse_board(fen@, idx0, i0, pieces0, players0) is None);
                }
                return None;
            }
            let pos = 8 * (8 - (i / 8) - 1) + i % 8;
            if !(player_bb[0].union_with(player_bb[1]).empty_at(pos)) {
                proof {
                    crate::bits::lemma_bit_or(players0[0], players0[1], pos as u64);
                    assert(parse_board(fen@, idx0, i0, pieces0, players0) is None);
                }
                return None;
            }
            let pidx = piece.index();
            let ghost old_piece_bb = piece_bb;
            let ghost old_player_bb = player_bb;
            let ghost posb = 1u64 << (pos as u64);
            let v = piece_bb[pidx];
            piece_bb[pidx] = v.add_pos(pos);
            let v = player_bb[cidx];
            player_bb[cidx] = v.add_pos(pos);
            proof {
                assert forall|i2: int, s: u64| 0 <= i2 < 6 implies (#[trigger] bit(
                    piece_bb@[i2].0,
                    s,
                ) == (bit(old_piece_bb@[i2].0, s) || (i2 == pidx && s == pos as u64))) by {
                    crate::bits::lemma_bit_or(old_piece_bb@[i2].0, posb, s);
                    crate::bits::lemma_bit_single(pos as u64, s);
                }
                assert forall|c2: int, s: u64| 0 <= c2 < 2 implies (#[trigger] bit(
                    player_bb@[c2].0,
                    s,
                ) == (bit(old_player_bb@[c2].0, s) || (c2 == cidx && s == pos as u64))) by {
                    crate::bits::lemma_bit_or(old_player_bb@[c2].0, posb, s);
                    crate::bits::lemma_bit_single(pos as u64, s);
                }
                crate::bits::lemma_bit_or(old_player_bb@[0].0, old_player_bb@[1].0, pos as u64);
                assert(!(bit(old_piece_bb@[0].0, pos as u64) || bit(old_piece_bb@[1].0, pos as u64)
                    || bit(old_piece_bb@[2].0, pos as u64) || bit(old_piece_bb@[3].0, pos as u64)
                    || bit(old_piece_bb@[4].0, pos as u64) || bit(
                    old_piece_bb@[5].0,
                    pos as u64,
                )));
                assert forall|i2: int, j2: int, s: u64|
                    0 <= i2 < j2 < 6 implies !(#[trigger] bit(piece_bb@[i2].0, s) && #[trigger] bit(
                    piece_bb@[j2].0,
                    s,
                )) by {
                    assert(bit(piece_bb@[i2].0, s) == (bit(old_piece_bb@[i2].0, s) || (i2
                        == pidx as int && s == pos as u64)));
                    assert(bit(piece_bb@[j2].0, s) == (bit(old_piece_bb@[j2].0, s) || (j2
                        == pidx as int && s == pos as u64)));
                    if s == pos as u64 {
                        assert(!bit(old_piece_bb@[i2].0, s));
                        assert(!bit(old_piece_bb@[j2].0, s));
                    }
                }
                assert forall|s: u64|
                    !(#[trigger] bit(player_bb@[0].0, s) && bit(player_bb@[1].0, s)) by {
                    assert(bit(player_bb@[0].0, s) == (bit(old_player_bb@[0].0, s) || (0
                        == cidx as int && s == pos as u64)));
                    assert(bit(player_bb@[1].0, s) == (bit(old_player_bb@[1].0, s) || (1
                        == cidx as int && s == pos as u64)));
                }
                assert forall|s: u64|
                    ((bit(piece_bb@[0].0, s) || bit(piece_bb@[1].0, s) || bit(piece_bb@[2].0, s)
                        || bit(piece_bb@[3].0, s) || bit(piece_bb@[4].0, s) || bit(
                        piece_bb@[5].0,
                        s,
                    )) <==> (#[trigger] bit(player_bb@[0].0, s) || bit(player_bb@[1].0, s))) by {
                    if s == pos as u64 {
                        assert(bit(piece_bb@[pidx as int].0, s));
                        assert(bit(player_bb@[cidx as int].0, s));
                    }
                }
                // the spec recursion takes the same step
                assert(pieces_view(piece_bb) =~= pieces0.update(
                    pidx as int,
                    pieces0[pidx as int] | posb,
                ));
                assert(players_view(player_bb) =~= players0.update(
                    cidx as int,
                    players0[cidx as int] | posb,
                ));
                assert(parse_board(fen@, idx0, i0, pieces0, players0) == parse_board(
                    fen@,
                    idx as int,
                    i0 + 1,
                    pieces_view(piece_bb),
                    players_view(player_bb),
                ));
            }
            i += 1;
        }
        let ghost pieces_s = pieces_view(piece_bb);
        let ghost players_s = players_view(player_bb);
        let ghost i1g = idx as int;
        proof {
            assert(fen_parse(fen@) == fen_rest1(fen@, i1g, pieces_s, players_s));
        }
        if idx >= n {
            proof {
                assert(parse_color(fen@, i1g) is None);
            }
            return None;
        }
        let c = fen.get_char(idx);
        let active = match c {
            'w' => Color::White,
            'b' => Color::Black,
            _ => {
                proof {
                    assert(parse_color(fen@, i1g) is None);
                }
                return None;
            },
        };
        idx += 1;
        if idx >= n {
            proof {
                assert(parse_color(fen@, i1g) is None);
            }
            return None;
        }
        idx += 1;
        let ghost i2g = idx as int;
        proof {
            assert(parse_color(fen@, i1g) == Some((i2g, active)));
            assert(fen_parse(fen@) == fen_rest2(fen@, i2g, pieces_s, players_s, active));
        }
        let mut castle_ks = [false, false];
        let mut castle_qs = [false, false];
        proof {
            assert(flags_view(castle_ks) =~= seq![false, false]);
            assert(flags_view(castle_qs) =~= seq![false, false]);
        }
        let mut done2 = false;
        while !done2
            invariant
                n == fen@.len(),
                idx <= n,
                fen_parse(fen@) == fen_rest2(fen@, i2g, pieces_s, players_s, active),
                !done2 ==> parse_castling(
                    fen@,
                    idx as int,
                    flags_view(castle_ks),
                    flags_view(castle_qs),
                ) == parse_castling(fen@, i2g, seq![false, false], seq![false, false]),
                done2 ==> parse_castling(fen@, i2g, seq![false, false], seq![false, false])
                    == Some((idx as int, flags_view(castle_ks), flags_view(castle_qs))),
            decreases n - idx,
        {
            let ghost idx0 = idx as int;
            let ghost ks0 = flags_view(castle_ks);
            let ghost qs0 = flags_view(castle_qs);
            if idx >= n {
                proof {
                    assert(parse_castling(fen@, idx0, ks0, qs0) is None);
                }
                return None;
            }
            let c = fen.get_char(idx);
            idx += 1;
            match c {
                'k' => {
                    castle_ks[1] = true;
                    proof {
                        assert(flags_view(castle_ks) =~= ks0.update(1, true));
                        assert(parse_castling(fen@, idx0, ks0, qs0) == parse_castling(
                            fen@,
                            idx as int,
                            flags_view(castle_ks),
                            qs0,
                        ));
                    }
                },
                'K' => {
                    castle_ks[0] = true;
                    proof {
                        assert(flags_view(castle_ks) =~= ks0.update(0, true));
                        assert(parse_castling(fen@, idx0, ks0, qs0) == parse_castling(
                            fen@,
                            idx as int,
                            flags_view(castle_ks),
                            qs0,
                        ));
                    }
                },
                'q' => {
                    castle_qs[1] = true;
                    proof {
                        assert(flags_view(castle_qs) =~= qs0.update(1, true));
                        assert(parse_castling(fen@, idx0, ks0, qs0) == parse_castling(
                            fen@,
                            idx as int,
                            ks0,
                            flags_view(castle_qs),
                        ));
                    }
                },
                'Q' => {
                    castle_qs[0] = true;
                    proof {
                        assert(flags_view(castle_qs) =~= qs0.update(0, true));
                        assert(parse_castling(fen@, idx0, ks0, qs0) == parse_castling(
                            fen@,
                            idx as int,
                            ks0,
                            flags_view(castle_qs),
                        ));
                    }
                },
                '-' => {
                    proof {
                        assert(parse_castling(fen@, idx0, ks0, qs0) == parse_castling(
                            fen@,
                            idx as int,
                            ks0,
                            qs0,
                        ));
                    }
                },
                ' ' => {
                    done2 = true;
                    proof {
                        assert(parse_castling(fen@, idx0, ks0, qs0) == Some(
                            (idx as int, ks0, qs0),
                        ));
                    }
                },
                _ => {
                    proof {
                        assert(parse_castling(fen@, idx0, ks0, qs0) is None);
                    }
                    return None;
                },
            }
        }
        let ghost ks_s = flags_view(castle_ks);
        let ghost qs_s = flags_view(castle_qs);
        let ghost i3g = idx as int;
        proof {
            assert(fen_parse(fen@) == fen_rest3(fen@, i3g, pieces_s, players_s, active, ks_s, qs_s));
        }
        if idx >= n {
            proof {
                assert(parse_en_passant(fen@, i3g) is None);
            }
            return None;
        }
        let c = fen.get_char(idx);
        idx += 1;
        let en_passant = if c == '-' {
            None
        } else {
            if !(c >= 'a' && c <= 'h') {
                proof {
                    assert(parse_en_passant(fen@, i3g) is None);
                }
                return None;
            }
            if idx >= n {
                proof {
                    assert(parse_en_passant(fen@, i3g) is None);
                }
                return None;
            }
            let f = fen.get_char(idx);
            idx += 1;
            if !(f >= '1' && f <= '8') {
                proof {
                    assert(parse_en_passant(fen@, i3g) is None);
                }
                return None;
            }
            let pos = ((f as u32) - 49) * 8 + ((c as u32) - 97);
            Some(BitBoard::from_pos(pos))
        };
        if idx >= n {
            proof {
                assert(parse_en_passant(fen@, i3g) is None);
            }
            return None;
        }
        idx += 1;
        let ghost epr = parse_en_passant(fen@, i3g);
        let ghost i4g = idx as int;
        proof {
            assert(epr is Some && epr->Some_0.0 == i4g);
            assert(fen_parse(fen@) == fen_rest4(
                fen@,
                i4g,
                pieces_s,
                players_s,
                active,
                ks_s,
                qs_s,
                epr->Some_0.1,
            ));
        }
        let ghost ep_s = epr->Some_0.1;
        let mut val: u64 = 0;
        let mut digits: usize = 0;
        while idx < n && fen.get_char(idx) != ' '
            invariant
                n == fen@.len(),
                idx <= n,
                val <= 0xFFFF_FFFF,
                digits <= idx,
                fen_parse(fen@) == fen_rest4(
                    fen@,
                    i4g,
                    pieces_s,
                    players_s,
                    active,
                    ks_s,
                    qs_s,
                    ep_s,
                ),
                parse_clock(fen@, idx as int, val as int, digits as int) == parse_clock(
                    fen@,
                    i4g,
                    0,
                    0,
                ),
            decreases n - idx,
        {
            let ghost idx0 = idx as int;
            let ghost val0 = val as int;
            let ghost digits0 = digits as int;
            let c = fen.get_char(idx);
            if !(c >= '0' && c <= '9') {
                proof {
                    assert(parse_clock(fen@, idx0, val0, digits0) is None);
                }
                return None;
            }
            val = val * 10 + ((c as u32) - 48) as u64;
            if val > 0xFFFF_FFFF {
                proof {
                    assert(parse_clock(fen@, idx0, val0, digits0) is None);
                }
                return None;
            }
            digits += 1;
            idx += 1;
            proof {
                assert(parse_clock(fen@, idx0, val0, digits0) == parse_clock(
                    fen@,
                    idx as int,
                    val as int,
                    digits as int,
                ));
            }
        }
        proof {
            assert(parse_clock(fen@, idx as int, val as int, digits as int) == (if digits == 0 {
                None
            } else {
                Some(val as u32)
            }));
        }
        if digits == 0 {
            return None;
        }
        let move_rule = val as u32;
        let st = ChessState { active, piece_bb, player_bb, castle_ks, castle_qs, en_passant, move_rule };
        proof {
            assert(parse_clock(fen@, i4g, 0, 0) == Some(move_rule));
            assert(fen_parse(fen@) == Some(
                (pieces_s, players_s, active, ks_s, qs_s, ep_s, move_rule),
            ));
            assert(pieces_view(st.piece_bb) == pieces_s);
            assert(players_view(st.player_bb) == players_s);
            assert(flags_view(st.castle_ks) == ks_s);
            assert(flags_view(st.castle_qs) == qs_s);
        }
        Some(st)
    }
}

/// The square index a file letter and rank digit name, `a1` being square 0
/// and `h8` square 63.
pub fn algebra_to_pos(rank: char, file: char) -> (r: u32)
    requires
        'a' <= rank <= 'h',
        '1' <= file <= '8',
    ensures
        r == (file as int - '1' as int) * 8 + (rank as int - 'a' as int),
        r < 64,
{
    (file as u32 - 49) * 8 + (rank as u32 - 97)
}

/// The file letter of a square, `a` through `h`.
pub open spec fn file_letter(x: int) -> char {
    if x == 0 {
        'a'
    } else if x == 1 {
        'b'
    } else if x == 2 {
        'c'
    } else if x == 3 {
        'd'
    } else if x == 4 {
        'e'
    } else if x == 5 {
        'f'
    } else if x == 6 {
        'g'
    } else {
        'h'
    }
}

/// The rank digit of a square, `1` through `8`.
pub open spec fn rank_digit(y: int) -> char {
    if y == 0 {
        '1'
    } else if y == 1 {
        '2'
    } else if y == 2 {
        '3'
    } else if y == 3 {
        '4'
    } else if y == 4 {
        '5'
    } else if y == 5 {
        '6'
    } else if y == 6 {
        '7'
    } else {
        '8'
    }
}

/// The two-character algebraic name of a square: file letter then rank digit.
pub fn pos_to_algebra(pos: u32) -> (r: String)
    requires
        pos < 64,
    ensures
        r@.len() == 2,
        r@[0] == file_letter(pos as int % 8),
        r@[1] == rank_digit(pos as int / 8),
{
    let x = pos % 8;
    let y = pos / 8;
    let fs: &str = match x {
        0 => "a",
        1 => "b",
        2 => "c",
        3 => "d",
        4 => "e",
        5 => "f",
        6 => "g",
        _ => "h",
    };
    let rs: &str = match y {
        0 => "1",
        1 => "2",
        2 => "3",
        3 => "4",
        4 => "5",
        5 => "6",
        6 => "7",
        _ => "8",
    };
    proof {
        reveal_strlit("a");
        reveal_strlit("b");
        reveal_strlit("c");
        reveal_strlit("d");
        reveal_strlit("e");
        reveal_strlit("f");
        reveal_strlit("g");
        reveal_strlit("h");
        reveal_strlit("1");
        reveal_strlit("2");
        reveal_strlit("3");
        reveal_strlit("4");
        reveal_strlit("5");
        reveal_strlit("6");
        reveal_strlit("7");
        reveal_strlit("8");
    }
    let mut out = String::from_str(fs);
    out.append(rs);
    out
}

} // verus!
