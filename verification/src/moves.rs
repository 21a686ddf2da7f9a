//! The move generator: every pseudo-legal move of the side to move, stated
//! and proved as an exact membership condition.

use vstd::prelude::*;
use crate::bits::{bit, BitBoard};
use crate::magic::{bishop_reaches, rook_reaches, MagicCache};
use crate::pieces::{color_index, opp, Color, Piece};
use crate::state::{ChessState, Move};
use crate::tables::{king_reaches, knight_reaches, Cache};

verus! {

broadcast use crate::bits::group_bit_lemmas;

/// The bitboard of the side to move.
pub open spec fn own_bb(st: ChessState) -> u64 {
    st.player_bb@[color_index(st.active)].0
}

/// The bitboard of the opposing side.
pub open spec fn enemy_bb(st: ChessState) -> u64 {
    st.player_bb@[color_index(opp(st.active))].0
}

/// The bitboard of all occupied squares.
pub open spec fn occ_bb(st: ChessState) -> u64 {
    st.player_bb@[0].0 | st.player_bb@[1].0
}

/// The bitboard of the side to move's pieces of one kind.
pub open spec fn own_kind(st: ChessState, p: Piece) -> u64 {
    st.piece_bb@[crate::pieces::piece_index(p)].0 & own_bb(st)
}

/// `i` is the lowest member of `b`.
pub open spec fn is_lowest(b: u64, i: u64) -> bool {
    bit(b, i) && (forall|j: u64| j < i ==> !bit(b, j))
}

/// The square one step ahead of `o` for colour `c`.
pub open spec fn fwd(c: Color, o: int) -> int {
    if c == Color::White {
        o + 8
    } else {
        o - 8
    }
}

/// The rank from which a pawn of colour `c` may push two squares.
pub open spec fn double_row(c: Color) -> int {
    if c == Color::White {
        1
    } else {
        6
    }
}

/// The rank beyond which a pawn of colour `c` never moves further.
pub open spec fn end_row(c: Color) -> int {
    if c == Color::White {
        7
    } else {
        0
    }
}

/// The pawn destinations from `o`: a single push onto an empty square, a
/// double push from the home rank through two empty squares, and diagonal
/// captures onto enemy-occupied squares.
pub open spec fn pawn_target(c: Color, occ: u64, enemy: u64, o: int, d: int) -> bool {
    let y = o / 8;
    let x = o % 8;
    let f = fwd(c, o);
    let f2 = fwd(c, f);
    y != end_row(c) && ((d == f && !bit(occ, d as u64)) || (y == double_row(c) && d == f2 && !bit(
        occ,
        f as u64,
    ) && !bit(occ, d as u64)) || (x != 0 && d == f - 1 && bit(enemy, d as u64)) || (x != 7 && d == f
        + 1 && bit(enemy, d as u64)))
}

/// `m` is a pseudo-legal knight move in `st`.
pub open spec fn pl_knight(st: ChessState, m: Move) -> bool {
    m.origin < 64 && m.dest < 64 && bit(own_kind(st, Piece::Knight), m.origin as u64)
        && knight_reaches(m.origin as u64, m.dest as u64) && !bit(own_bb(st), m.dest as u64)
}

/// `m` is a pseudo-legal pawn move in `st`.
pub open spec fn pl_pawn(st: ChessState, m: Move) -> bool {
    m.origin < 64 && m.dest < 64 && bit(own_kind(st, Piece::Pawn), m.origin as u64) && pawn_target(
        st.active,
        occ_bb(st),
        enemy_bb(st),
        m.origin as int,
        m.dest as int,
    )
}

/// `m` is a pseudo-legal bishop move in `st`.
pub open spec fn pl_bishop(st: ChessState, m: Move) -> bool {
    m.origin < 64 && m.dest < 64 && bit(own_kind(st, Piece::Bishop), m.origin as u64)
        && bishop_reaches(occ_bb(st), m.origin as u64, m.dest as u64) && !bit(
        own_bb(st),
        m.dest as u64,
    )
}

/// `m` is a pseudo-legal queen move in `st`.
pub open spec fn pl_queen(st: ChessState, m: Move) -> bool {
    m.origin < 64 && m.dest < 64 && bit(own_kind(st, Piece::Queen), m.origin as u64) && (
    bishop_reaches(occ_bb(st), m.origin as u64, m.dest as u64) || rook_reaches(
        occ_bb(st),
        m.origin as u64,
        m.dest as u64,
    )) && !bit(own_bb(st), m.dest as u64)
}

/// `m` is a pseudo-legal rook move in `st`.
pub open spec fn pl_rook(st: ChessState, m: Move) -> bool {
    m.origin < 64 && m.dest < 64 && bit(own_kind(st, Piece::Rook), m.origin as u64) && rook_reaches(
        occ_bb(st),
        m.origin as u64,
        m.dest as u64,
    ) && !bit(own_bb(st), m.dest as u64)
}

/// `m` is a pseudo-legal king move in `st`: generation starts from the
/// lowest-indexed king square of the side to move, and no move is offered
/// when that side has no king on the board.
pub open spec fn pl_king(st: ChessState, m: Move) -> bool {
    m.origin < 64 && m.dest < 64 && own_kind(st, Piece::King) != 0 && is_lowest(
        own_kind(st, Piece::King),
        m.origin as u64,
    ) && king_reaches(m.origin as u64, m.dest as u64) && !bit(own_bb(st), m.dest as u64)
}

/// `m` is a pseudo-legal move in `st`: it obeys its piece's movement and
/// occupancy rules for the side to move, without any king-safety check.
/// En-passant captures, castling and promotion are never offered.
pub open spec fn pseudo_legal(st: ChessState, m: Move) -> bool {
    match m.piece {
        Piece::Knight => pl_knight(st, m),
        Piece::Pawn => pl_pawn(st, m),
        Piece::Bishop => pl_bishop(st, m),
        Piece::Queen => pl_queen(st, m),
        Piece::Rook => pl_rook(st, m),
        Piece::King => pl_king(st, m),
    }
}

/// Append one move per member of `targets`, all with the same piece kind and
/// origin.
fn push_targets(moves: &mut Vec<Move>, piece: Piece, origin: u32, targets: BitBoard)
    requires
        origin < 64,
        old(moves)@.no_duplicates(),
        forall|m: Move| old(moves)@.contains(m) ==> !(m.piece == piece && m.origin == origin),
    ensures
        final(moves)@.no_duplicates(),
        forall|m: Move| #[trigger] final(moves)@.contains(m) <==> (old(moves)@.contains(m) || (
        m.piece == piece && m.origin == origin && m.dest < 64 && bit(targets.0, m.dest as u64))),
{
    let idx = targets.get_indices();
    let ghost orig = moves@;
    let ghost mut emitted: u64 = 0;
    proof {
        assert(0u64 & targets.0 == 0u64) by (bit_vector);
    }
    let n = idx.len();
    let mut k: usize = 0;
    while k < n
        invariant
            origin < 64,
            0 <= k <= n,
            n == idx@.len(),
            forall|j: int| 0 <= j < idx@.len() ==> (#[trigger] idx@[j]) < 64 && bit(
                targets.0,
                idx@[j] as u64,
            ),
            forall|j1: int, j2: int| 0 <= j1 < j2 < idx@.len() ==> idx@[j1] < idx@[j2],
            forall|s: u64| s < 64 && bit(targets.0, s) ==> idx@.contains(s as u32),
            emitted & targets.0 == emitted,
            forall|j: int| 0 <= j < k ==> bit(emitted, #[trigger] idx@[j] as u64),
            forall|j: int| k <= j < idx@.len() ==> !bit(emitted, #[trigger] idx@[j] as u64),
            forall|m: Move| #[trigger] moves@.contains(m) <==> (orig.contains(m) || (m.piece
                == piece && m.origin == origin && m.dest < 64 && bit(emitted, m.dest as u64))),
            moves@.no_duplicates(),
            forall|m: Move| orig.contains(m) ==> !(m.piece == piece && m.origin == origin),
        decreases n - k,
    {
        let d = idx[k];
        let mv = Move::new(piece, origin, d);
        let ghost snap = moves@;
        moves.push(mv);
        proof {
            let pb = 1u64 << (d as u64);
            let em = emitted;
            emitted = em | pb;
            assert(bit(targets.0, d as u64));
            assert(!bit(em, d as u64));
            assert(!snap.contains(mv)) by {
                if snap.contains(mv) {
                    assert(bit(em, d as u64));
                }
            }
            assert forall|i: int, j: int|
                0 <= i < moves@.len() && 0 <= j < moves@.len() && i != j implies moves@[i]
                != moves@[j] by {
                if i < snap.len() && j < snap.len() {
                    assert(snap[i] == moves@[i] && snap[j] == moves@[j]);
                } else if i < snap.len() {
                    assert(snap[i] == moves@[i] && moves@[j] == mv);
                    assert(snap.contains(snap[i]));
                } else if j < snap.len() {
                    assert(snap[j] == moves@[j] && moves@[i] == mv);
                    assert(snap.contains(snap[j]));
                }
            }
            assert(moves@.no_duplicates());
            assert forall|m: Move| #[trigger] moves@.contains(m) <==> (snap.contains(m) || m
                == mv) by {
                if moves@.contains(m) {
                    let j = choose|j: int| 0 <= j < moves@.len() && moves@[j] == m;
                    if j < snap.len() {
                        assert(snap[j] == m);
                    }
                }
                if snap.contains(m) {
                    let j = choose|j: int| 0 <= j < snap.len() && snap[j] == m;
                    assert(moves@[j] == m);
                }
                assert(moves@[moves@.len() - 1] == mv);
            }
            assert forall|s: u64| #[trigger] bit(emitted, s) <==> (bit(em, s) || s == d as u64) by {
                crate::bits::lemma_bit_or(em, pb, s);
                crate::bits::lemma_bit_single(d as u64, s);
            }
            assert forall|s: u64| s < 64 && #[trigger] bit(emitted, s) implies bit(
                targets.0,
                s,
            ) by {
                crate::bits::lemma_subset_masked(em, targets.0);
            }
            crate::bits::lemma_subset_masked(emitted, targets.0);
            assert forall|j: int| k + 1 <= j < idx@.len() implies !bit(
                emitted,
                #[trigger] idx@[j] as u64,
            ) by {
                assert(idx@[k as int] < idx@[j]);
            }
        }
        k += 1;
    }
    proof {
        assert forall|s: u64| s < 64 implies (bit(emitted, s) <==> bit(targets.0, s)) by {
            crate::bits::lemma_subset_masked(emitted, targets.0);
            if bit(targets.0, s) {
                assert(idx@.contains(s as u32));
                let j = choose|j: int| 0 <= j < idx@.len() && idx@[j] == s as u32;
                assert(bit(emitted, idx@[j] as u64));
            }
        }
        crate::bits::lemma_bit_extensionality(emitted, targets.0);
    }
}

impl ChessState {
    /// Every pseudo-legal move of the side to move, each exactly once per
    /// piece, origin and destination; membership in the result is exactly
    /// [`pseudo_legal`].
    pub fn legal_moves(&self, cache: &Cache, magic: &MagicCache) -> (moves: Vec<Move>)
        requires
            self.wf(),
            cache.wf(),
            magic.wf(),
        ensures
            moves@.no_duplicates(),
            forall|m: Move| #[trigger] moves@.contains(m) <==> pseudo_legal(*self, m),
    {
        let mut moves: Vec<Move> = Vec::new();

        let targetable = self.player_bb[self.active.index()].invert();
        let occupied = self.player_bb[0].union_with(self.player_bb[1]);
        let player = self.player_bb[self.active.index()];
        let enemy = self.player_bb[self.active.opposite().index()];

        // knight moves
        let bb = self.piece_bb[Piece::Knight.index()].intersect(player);
        let idx = bb.get_indices();
        let ghost mut oem: u64 = 0;
        proof {
            assert(0u64 & bb.0 == 0u64) by (bit_vector);
        }
        let n = idx.len();
        let mut k: usize = 0;
        while k < n
            invariant
                self.wf(),
                cache.wf(),
                magic.wf(),
                targetable.0 == !own_bb(*self),
                occupied.0 == occ_bb(*self),
                enemy.0 == enemy_bb(*self),
                bb.0 == own_kind(*self, Piece::Knight),
                0 <= k <= n,
                n == idx@.len(),
                forall|j: int| 0 <= j < idx@.len() ==> (#[trigger] idx@[j]) < 64 && bit(
                    bb.0,
                    idx@[j] as u64,
                ),
                forall|j1: int, j2: int| 0 <= j1 < j2 < idx@.len() ==> idx@[j1] < idx@[j2],
                forall|s: u64| s < 64 && bit(bb.0, s) ==> idx@.contains(s as u32),
                oem & bb.0 == oem,
                forall|j: int| 0 <= j < k ==> bit(oem, #[trigger] idx@[j] as u64),
                forall|j: int| k <= j < idx@.len() ==> !bit(oem, #[trigger] idx@[j] as u64),
                forall|m: Move| #[trigger] moves@.contains(m) <==> ((m.piece
                    == Piece::Knight && pl_knight(*self, m) && bit(oem, m.origin as u64))),
                moves@.no_duplicates(),
            decreases n - k,
        {
            let o = idx[k];
            let targets = cache.knight_moves(o).intersect(targetable);
            proof {
                assert forall|m: Move| moves@.contains(m) implies !(m.piece == Piece::Knight
                    && m.origin == o) by {
                    if m.piece == Piece::Knight && m.origin == o {
                        assert(bit(oem, idx@[k as int] as u64));
                    }
                }
            }
            push_targets(&mut moves, Piece::Knight, o, targets);
            proof {
                let pb = 1u64 << (o as u64);
                let em = oem;
                oem = em | pb;
                assert forall|s: u64| #[trigger] bit(oem, s) <==> (bit(em, s) || s
                    == o as u64) by {
                    crate::bits::lemma_bit_or(em, pb, s);
                    crate::bits::lemma_bit_single(o as u64, s);
                }
                assert forall|s: u64| s < 64 && #[trigger] bit(oem, s) implies bit(bb.0, s) by {
                    crate::bits::lemma_subset_masked(em, bb.0);
                }
                crate::bits::lemma_subset_masked(oem, bb.0);
                assert forall|j: int| k + 1 <= j < idx@.len() implies !bit(
                    oem,
                    #[trigger] idx@[j] as u64,
                ) by {
                    assert(idx@[k as int] < idx@[j]);
                }
            }
            k += 1;
        }
        proof {
            assert forall|s: u64| s < 64 implies (bit(oem, s) <==> bit(bb.0, s)) by {
                crate::bits::lemma_subset_masked(oem, bb.0);
                if bit(bb.0, s) {
                    assert(idx@.contains(s as u32));
                    let j = choose|j: int| 0 <= j < idx@.len() && idx@[j] == s as u32;
                    assert(bit(oem, idx@[j] as u64));
                }
            }
            crate::bits::lemma_bit_extensionality(oem, bb.0);
        }

        // pawn moves
        let bb = self.piece_bb[Piece::Pawn.index()].intersect(player);
        let idx = bb.get_indices();
        let ghost mut oem: u64 = 0;
        proof {
            assert(0u64 & bb.0 == 0u64) by (bit_vector);
        }
        let n = idx.len();
        let mut k: usize = 0;
        while k < n
            invariant
                self.wf(),
                cache.wf(),
                magic.wf(),
                targetable.0 == !own_bb(*self),
                occupied.0 == occ_bb(*self),
                enemy.0 == enemy_bb(*self),
                bb.0 == own_kind(*self, Piece::Pawn),
                0 <= k <= n,
                n == idx@.len(),
                forall|j: int| 0 <= j < idx@.len() ==> (#[trigger] idx@[j]) < 64 && bit(
                    bb.0,
                    idx@[j] as u64,
                ),
                forall|j1: int, j2: int| 0 <= j1 < j2 < idx@.len() ==> idx@[j1] < idx@[j2],
                forall|s: u64| s < 64 && bit(bb.0, s) ==> idx@.contains(s as u32),
                oem & bb.0 == oem,
                forall|j: int| 0 <= j < k ==> bit(oem, #[trigger] idx@[j] as u64),
                forall|j: int| k <= j < idx@.len() ==> !bit(oem, #[trigger] idx@[j] as u64),
                forall|m: Move| #[trigger] moves@.contains(m) <==> (((m.piece == Piece::Knight && pl_knight(*self, m))) || (m.piece
                    == Piece::Pawn && pl_pawn(*self, m) && bit(oem, m.origin as u64))),
                moves@.no_duplicates(),
            decreases n - k,
        {
            let o = idx[k];
            let y = o / 8;
            let x = o % 8;
            let er: u32 = match self.active {
                Color::White => 7,
                Color::Black => 0,
            };
            let dr: u32 = match self.active {
                Color::White => 1,
                Color::Black => 6,
            };
            let mut targets = BitBoard::new_empty();
            if y != er {
                let f: u32 = match self.active {
                    Color::White => o + 8,
                    Color::Black => o - 8,
                };
                if x != 0 {
                    let cl = f - 1;
                    if !enemy.empty_at(cl) {
                        let ghost prev = targets.0;
                        targets = targets.add_pos(cl);
                        proof {
                            assert forall|s: u64| #[trigger] bit(targets.0, s) <==> (bit(prev, s)
                                || s == cl as u64) by {
                                crate::bits::lemma_bit_or(prev, 1u64 << (cl as u64), s);
                                crate::bits::lemma_bit_single(cl as u64, s);
                            }
                        }
                    }
                }
                if x != 7 {
                    let cr = f + 1;
                    if !enemy.empty_at(cr) {
                        let ghost prev = targets.0;
                        targets = targets.add_pos(cr);
                        proof {
                            assert forall|s: u64| #[trigger] bit(targets.0, s) <==> (bit(prev, s)
                                || s == cr as u64) by {
                                crate::bits::lemma_bit_or(prev, 1u64 << (cr as u64), s);
                                crate::bits::lemma_bit_single(cr as u64, s);
                            }
                        }
                    }
                }
                if occupied.empty_at(f) {
                    let ghost prev = targets.0;
                    targets = targets.add_pos(f);
                    proof {
                        assert forall|s: u64| #[trigger] bit(targets.0, s) <==> (bit(prev, s) || s
                            == f as u64) by {
                            crate::bits::lemma_bit_or(prev, 1u64 << (f as u64), s);
                            crate::bits::lemma_bit_single(f as u64, s);
                        }
                    }
                    if y == dr {
                        let f2: u32 = match self.active {
                            Color::White => o + 16,
                            Color::Black => o - 16,
                        };
                        if occupied.empty_at(f2) {
                            let ghost prev = targets.0;
                            targets = targets.add_pos(f2);
                            proof {
                                assert forall|s: u64| #[trigger] bit(targets.0, s) <==> (bit(
                                    prev,
                                    s,
                                ) || s == f2 as u64) by {
                                    crate::bits::lemma_bit_or(prev, 1u64 << (f2 as u64), s);
                                    crate::bits::lemma_bit_single(f2 as u64, s);
                                }
                            }
                        }
                    }
                }
            }
            proof {
                assert forall|s: u64| #[trigger] bit(targets.0, s) <==> (s < 64 && pawn_target(
                    self.active,
                    occ_bb(*self),
                    enemy_bb(*self),
                    o as int,
                    s as int,
                )) by {
                    broadcast use crate::bits::lemma_bit_zero;

                }
            }
            proof {
                assert forall|m: Move| moves@.contains(m) implies !(m.piece == Piece::Pawn
                    && m.origin == o) by {
                    if m.piece == Piece::Pawn && m.origin == o {
                        assert(bit(oem, idx@[k as int] as u64));
                    }
                }
            }
            push_targets(&mut moves, Piece::Pawn, o, targets);
            proof {
                let pb = 1u64 << (o as u64);
                let em = oem;
                oem = em | pb;
                assert forall|s: u64| #[trigger] bit(oem, s) <==> (bit(em, s) || s
                    == o as u64) by {
                    crate::bits::lemma_bit_or(em, pb, s);
                    crate::bits::lemma_bit_single(o as u64, s);
                }
                assert forall|s: u64| s < 64 && #[trigger] bit(oem, s) implies bit(bb.0, s) by {
                    crate::bits::lemma_subset_masked(em, bb.0);
                }
                crate::bits::lemma_subset_masked(oem, bb.0);
                assert forall|j: int| k + 1 <= j < idx@.len() implies !bit(
                    oem,
                    #[trigger] idx@[j] as u64,
                ) by {
                    assert(idx@[k as int] < idx@[j]);
                }
            }
            k += 1;
        }
        proof {
            assert forall|s: u64| s < 64 implies (bit(oem, s) <==> bit(bb.0, s)) by {
                crate::bits::lemma_subset_masked(oem, bb.0);
                if bit(bb.0, s) {
                    assert(idx@.contains(s as u32));
                    let j = choose|j: int| 0 <= j < idx@.len() && idx@[j] == s as u32;
                    assert(bit(oem, idx@[j] as u64));
                }
            }
            crate::bits::lemma_bit_extensionality(oem, bb.0);
        }

        // bishop moves
        let bb = self.piece_bb[Piece::Bishop.index()].intersect(player);
        let idx = bb.get_indices();
        let ghost mut oem: u64 = 0;
        proof {
            assert(0u64 & bb.0 == 0u64) by (bit_vector);
        }
        let n = idx.len();
        let mut k: usize = 0;
        while k < n
            invariant
                self.wf(),
                cache.wf(),
                magic.wf(),
                targetable.0 == !own_bb(*self),
                occupied.0 == occ_bb(*self),
                enemy.0 == enemy_bb(*self),
                bb.0 == own_kind(*self, Piece::Bishop),
                0 <= k <= n,
                n == idx@.len(),
                forall|j: int| 0 <= j < idx@.len() ==> (#[trigger] idx@[j]) < 64 && bit(
                    bb.0,
                    idx@[j] as u64,
                ),
                forall|j1: int, j2: int| 0 <= j1 < j2 < idx@.len() ==> idx@[j1] < idx@[j2],
                forall|s: u64| s < 64 && bit(bb.0, s) ==> idx@.contains(s as u32),
                oem & bb.0 == oem,
                forall|j: int| 0 <= j < k ==> bit(oem, #[trigger] idx@[j] as u64),
                forall|j: int| k <= j < idx@.len() ==> !bit(oem, #[trigger] idx@[j] as u64),
                forall|m: Move| #[trigger] moves@.contains(m) <==> (((m.piece == Piece::Knight && pl_knight(*self, m)) || (m.piece == Piece::Pawn
                    && pl_pawn(*self, m))) || (m.piece
                    == Piece::Bishop && pl_bishop(*self, m) && bit(oem, m.origin as u64))),
                moves@.no_duplicates(),
            decreases n - k,
        {
            let o = idx[k];
            let targets = magic.bishop_moves(o, occupied).intersect(targetable);
            proof {
                assert forall|m: Move| moves@.contains(m) implies !(m.piece == Piece::Bishop
                    && m.origin == o) by {
                    if m.piece == Piece::Bishop && m.origin == o {
                        assert(bit(oem, idx@[k as int] as u64));
                    }
                }
            }
            push_targets(&mut moves, Piece::Bishop, o, targets);
            proof {
                let pb = 1u64 << (o as u64);
                let em = oem;
                oem = em | pb;
                assert forall|s: u64| #[trigger] bit(oem, s) <==> (bit(em, s) || s
                    == o as u64) by {
                    crate::bits::lemma_bit_or(em, pb, s);
                    crate::bits::lemma_bit_single(o as u64, s);
                }
                assert forall|s: u64| s < 64 && #[trigger] bit(oem, s) implies bit(bb.0, s) by {
                    crate::bits::lemma_subset_masked(em, bb.0);
                }
                crate::bits::lemma_subset_masked(oem, bb.0);
                assert forall|j: int| k + 1 <= j < idx@.len() implies !bit(
                    oem,
                    #[trigger] idx@[j] as u64,
                ) by {
                    assert(idx@[k as int] < idx@[j]);
                }
            }
            k += 1;
        }
        proof {
            assert forall|s: u64| s < 64 implies (bit(oem, s) <==> bit(bb.0, s)) by {
                crate::bits::lemma_subset_masked(oem, bb.0);
                if bit(bb.0, s) {
                    assert(idx@.contains(s as u32));
                    let j = choose|j: int| 0 <= j < idx@.len() && idx@[j] == s as u32;
                    assert(bit(oem, idx@[j] as u64));
                }
            }
            crate::bits::lemma_bit_extensionality(oem, bb.0);
        }

        // queen moves
        let bb = self.piece_bb[Piece::Queen.index()].intersect(player);
        let idx = bb.get_indices();
        let ghost mut oem: u64 = 0;
        proof {
            assert(0u64 & bb.0 == 0u64) by (bit_vector);
        }
        let n = idx.len();
        let mut k: usize = 0;
        while k < n
            invariant
                self.wf(),
                cache.wf(),
                magic.wf(),
                targetable.0 == !own_bb(*self),
                occupied.0 == occ_bb(*self),
                enemy.0 == enemy_bb(*self),
                bb.0 == own_kind(*self, Piece::Queen),
                0 <= k <= n,
                n == idx@.len(),
                forall|j: int| 0 <= j < idx@.len() ==> (#[trigger] idx@[j]) < 64 && bit(
                    bb.0,
                    idx@[j] as u64,
                ),
                forall|j1: int, j2: int| 0 <= j1 < j2 < idx@.len() ==> idx@[j1] < idx@[j2],
                forall|s: u64| s < 64 && bit(bb.0, s) ==> idx@.contains(s as u32),
                oem & bb.0 == oem,
                forall|j: int| 0 <= j < k ==> bit(oem, #[trigger] idx@[j] as u64),
                forall|j: int| k <= j < idx@.len() ==> !bit(oem, #[trigger] idx@[j] as u64),
                forall|m: Move| #[trigger] moves@.contains(m) <==> (((m.piece == Piece::Knight && pl_knight(*self, m)) || (m.piece == Piece::Pawn
                    && pl_pawn(*self, m)) || (m.piece == Piece::Bishop && pl_bishop(*self, m))) || (m.piece
                    == Piece::Queen && pl_queen(*self, m) && bit(oem, m.origin as u64))),
                moves@.no_duplicates(),
            decreases n - k,
        {
            let o = idx[k];
            let targets = magic.bishop_moves(o, occupied).union_with(
                magic.rook_moves(o, occupied),
            ).intersect(targetable);
            proof {
                assert forall|m: Move| moves@.contains(m) implies !(m.piece == Piece::Queen
                    && m.origin == o) by {
                    if m.piece == Piece::Queen && m.origin == o {
                        assert(bit(oem, idx@[k as int] as u64));
                    }
                }
            }
            push_targets(&mut moves, Piece::Queen, o, targets);
            proof {
                let pb = 1u64 << (o as u64);
                let em = oem;
                oem = em | pb;
                assert forall|s: u64| #[trigger] bit(oem, s) <==> (bit(em, s) || s
                    == o as u64) by {
                    crate::bits::lemma_bit_or(em, pb, s);
                    crate::bits::lemma_bit_single(o as u64, s);
                }
                assert forall|s: u64| s < 64 && #[trigger] bit(oem, s) implies bit(bb.0, s) by {
                    crate::bits::lemma_subset_masked(em, bb.0);
                }
                crate::bits::lemma_subset_masked(oem, bb.0);
                assert forall|j: int| k + 1 <= j < idx@.len() implies !bit(
                    oem,
                    #[trigger] idx@[j] as u64,
                ) by {
                    assert(idx@[k as int] < idx@[j]);
                }
            }
            k += 1;
        }
        proof {
            assert forall|s: u64| s < 64 implies (bit(oem, s) <==> bit(bb.0, s)) by {
                crate::bits::lemma_subset_masked(oem, bb.0);
                if bit(bb.0, s) {
                    assert(idx@.contains(s as u32));
                    let j = choose|j: int| 0 <= j < idx@.len() && idx@[j] == s as u32;
                    assert(bit(oem, idx@[j] as u64));
                }
            }
            crate::bits::lemma_bit_extensionality(oem, bb.0);
        }

        // rook moves
        let bb = self.piece_bb[Piece::Rook.index()].intersect(player);
        let idx = bb.get_indices();
        let ghost mut oem: u64 = 0;
        proof {
            assert(0u64 & bb.0 == 0u64) by (bit_vector);
        }
        let n = idx.len();
        let mut k: usize = 0;
        while k < n
            invariant
                self.wf(),
                cache.wf(),
                magic.wf(),
                targetable.0 == !own_bb(*self),
                occupied.0 == occ_bb(*self),
                enemy.0 == enemy_bb(*self),
                bb.0 == own_kind(*self, Piece::Rook),
                0 <= k <= n,
                n == idx@.len(),
                forall|j: int| 0 <= j < idx@.len() ==> (#[trigger] idx@[j]) < 64 && bit(
                    bb.0,
                    idx@[j] as u64,
                ),
                forall|j1: int, j2: int| 0 <= j1 < j2 < idx@.len() ==> idx@[j1] < idx@[j2],
                forall|s: u64| s < 64 && bit(bb.0, s) ==> idx@.contains(s as u32),
                oem & bb.0 == oem,
                forall|j: int| 0 <= j < k ==> bit(oem, #[trigger] idx@[j] as u64),
                forall|j: int| k <= j < idx@.len() ==> !bit(oem, #[trigger] idx@[j] as u64),
                forall|m: Move| #[trigger] moves@.contains(m) <==> (((m.piece == Piece::Knight && pl_knight(*self, m)) || (m.piece == Piece::Pawn
                    && pl_pawn(*self, m)) || (m.piece == Piece::Bishop && pl_bishop(*self, m)) || (m.piece
                    == Piece::Queen && pl_queen(*self, m))) || (m.piece
                    == Piece::Rook && pl_rook(*self, m) && bit(oem, m.origin as u64))),
                moves@.no_duplicates(),
            decreases n - k,
        {
            let o = idx[k];
            let targets = magic.rook_moves(o, occupied).intersect(targetable);
            proof {
                assert forall|m: Move| moves@.contains(m) implies !(m.piece == Piece::Rook
                    && m.origin == o) by {
                    if m.piece == Piece::Rook && m.origin == o {
                        assert(bit(oem, idx@[k as int] as u64));
                    }
                }
            }
            push_targets(&mut moves, Piece::Rook, o, targets);
            proof {
                let pb = 1u64 << (o as u64);
                let em = oem;
                oem = em | pb;
                assert forall|s: u64| #[trigger] bit(oem, s) <==> (bit(em, s) || s
                    == o as u64) by {
                    crate::bits::lemma_bit_or(em, pb, s);
                    crate::bits::lemma_bit_single(o as u64, s);
                }
                assert forall|s: u64| s < 64 && #[trigger] bit(oem, s) implies bit(bb.0, s) by {
                    crate::bits::lemma_subset_masked(em, bb.0);
                }
                crate::bits::lemma_subset_masked(oem, bb.0);
                assert forall|j: int| k + 1 <= j < idx@.len() implies !bit(
                    oem,
                    #[trigger] idx@[j] as u64,
                ) by {
                    assert(idx@[k as int] < idx@[j]);
                }
            }
            k += 1;
        }
        proof {
            assert forall|s: u64| s < 64 implies (bit(oem, s) <==> bit(bb.0, s)) by {
                crate::bits::lemma_subset_masked(oem, bb.0);
                if bit(bb.0, s) {
                    assert(idx@.contains(s as u32));
                    let j = choose|j: int| 0 <= j < idx@.len() && idx@[j] == s as u32;
                    assert(bit(oem, idx@[j] as u64));
                }
            }
            crate::bits::lemma_bit_extensionality(oem, bb.0);
        }

        // king moves
        let kbb = self.piece_bb[Piece::King.index()].intersect(player);
        if kbb.not_empty() {
            let o = kbb.solo_pos();
            let targets = cache.king_moves(o).intersect(targetable);
            let ghost snap = moves@;
            proof {
                assert(forall|m: Move|
                    moves@.contains(m) ==> !(m.piece == Piece::King && m.origin == o));
            }
            push_targets(&mut moves, Piece::King, o, targets);
            proof {
                assert forall|m: Move| #[trigger] moves@.contains(m) <==> ((m.piece == Piece::Knight && pl_knight(*self, m)) || (m.piece == Piece::Pawn
                    && pl_pawn(*self, m)) || (m.piece == Piece::Bishop && pl_bishop(*self, m)) || (m.piece
                    == Piece::Queen && pl_queen(*self, m)) || (m.piece == Piece::Rook && pl_rook(*self, m)) || (m.piece
                    == Piece::King && pl_king(*self, m))) by {
                    if m.piece == Piece::King && pl_king(*self, m) {
                        assert(m.origin == o);
                    }
                }
            }
        }

        proof {
            assert forall|m: Move| #[trigger] moves@.contains(m) <==> pseudo_legal(
                *self,
                m,
            ) by {}
        }
        moves
    }
}

} // verus!
