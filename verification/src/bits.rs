//! A 64-bit set over board squares: bit `i` set means square `i` is a member
//! (0 = a1 ... 63 = h8, rank-major, file varies fastest).

use vstd::prelude::*;

verus! {

/// True iff bit `i` of `b` is set. Indices 64 and above are never members.
pub open spec fn bit(b: u64, i: u64) -> bool {
    i < 64 && (b >> i) & 1u64 == 1u64
}

/// Number of set bits among the low `n` bits of `b`.
pub open spec fn pop_below(b: u64, n: int) -> nat
    decreases n,
{
    if n <= 0 {
        0
    } else {
        pop_below(b, n - 1) + (if bit(b, (n - 1) as u64) {
            1nat
        } else {
            0nat
        })
    }
}

/// Number of set bits of `b`.
pub open spec fn popcount(b: u64) -> nat {
    pop_below(b, 64)
}

pub broadcast proof fn lemma_bit_and(a: u64, b: u64, i: u64)
    by (bit_vector)
    ensures
        #[trigger] bit(a & b, i) <==> bit(a, i) && bit(b, i),
{
}

pub broadcast proof fn lemma_bit_or(a: u64, b: u64, i: u64)
    by (bit_vector)
    ensures
        #[trigger] bit(a | b, i) <==> bit(a, i) || bit(b, i),
{
}

pub broadcast proof fn lemma_bit_not(a: u64, i: u64)
    by (bit_vector)
    ensures
        #[trigger] bit(!a, i) <==> i < 64 && !bit(a, i),
{
}

pub broadcast proof fn lemma_bit_single(j: u64, i: u64)
    by (bit_vector)
    ensures
        j < 64 ==> (#[trigger] bit(1u64 << j, i) <==> i == j),
{
}

pub broadcast proof fn lemma_bit_zero(i: u64)
    by (bit_vector)
    ensures
        !#[trigger] bit(0u64, i),
{
}

pub broadcast group group_bit_lemmas {
    lemma_bit_and,
    lemma_bit_or,
    lemma_bit_not,
    lemma_bit_single,
    lemma_bit_zero,
}

/// Two words with the same members are equal.
pub proof fn lemma_bit_extensionality(a: u64, b: u64)
    requires
        forall|i: u64| i < 64 ==> (bit(a, i) <==> bit(b, i)),
    ensures
        a == b,
{
    if a != b {
        let d = a ^ b;
        assert(d != 0) by (bit_vector)
            requires
                a != b,
                d == a ^ b,
        ;
        vstd::std_specs::bits::axiom_u64_trailing_zeros(d);
        let tz = vstd::std_specs::bits::u64_trailing_zeros(d) as u64;
        assert(bit(a, tz) != bit(b, tz)) by (bit_vector)
            requires
                tz < 64,
                d == a ^ b,
                (d >> tz) & 1u64 == 1u64,
        ;
    }
}

/// When `a & m == a`, every member of `a` is a member of `m`, and conversely.
pub proof fn lemma_subset_masked(a: u64, m: u64)
    ensures
        a & m == a <==> (forall|i: u64| i < 64 ==> (bit(a, i) ==> bit(m, i))),
{
    if a & m == a {
        assert forall|i: u64| i < 64 && bit(a, i) implies bit(m, i) by {
            assert(a & m == a && bit(a, i) ==> bit(m, i)) by (bit_vector);
        }
    }
    if forall|i: u64| i < 64 ==> (bit(a, i) ==> bit(m, i)) {
        let d = a & !m;
        if d != 0 {
            vstd::std_specs::bits::axiom_u64_trailing_zeros(d);
            let tz = vstd::std_specs::bits::u64_trailing_zeros(d) as u64;
            assert(bit(a, tz) && !bit(m, tz)) by (bit_vector)
                requires
                    tz < 64,
                    d == a & !m,
                    (d >> tz) & 1u64 == 1u64,
            ;
        }
        assert(a & m == a) by (bit_vector)
            requires
                a & !m == 0,
        ;
    }
}

proof fn lemma_pop_below_present(b: u64, i: u64, n: int)
    requires
        i < n,
        bit(b, i),
    ensures
        pop_below(b, n) >= 1,
    decreases n,
{
    if i < n - 1 {
        lemma_pop_below_present(b, i, n - 1);
    }
}

/// A word with a set bit has at least one member.
pub proof fn lemma_popcount_present(b: u64, i: u64)
    requires
        bit(b, i),
    ensures
        popcount(b) >= 1,
{
    lemma_pop_below_present(b, i, 64);
}

/// Removing from `b` a bit it does not have leaves `b` a subset of `m`.
pub proof fn lemma_subset_drop_bit(b: u64, m: u64, p: u64)
    by (bit_vector)
    requires
        p < 64,
        b & (m | (1u64 << p)) == b,
        (b >> p) & 1u64 != 1u64,
    ensures
        b & m == b,
{
}

/// A subset of `m | 1 << p` holding `p` splits into a subset of `m` plus `p`.
pub proof fn lemma_subset_split_bit(b: u64, m: u64, p: u64)
    by (bit_vector)
    requires
        p < 64,
        b & (m | (1u64 << p)) == b,
        (b >> p) & 1u64 == 1u64,
    ensures
        (b & !(1u64 << p)) & m == (b & !(1u64 << p)),
        (b & !(1u64 << p)) | (1u64 << p) == b,
{
}

/// A subset of `m` is a subset of any superset of `m`.
pub proof fn lemma_subset_grow(b: u64, m: u64, x: u64)
    by (bit_vector)
    requires
        b & m == b,
    ensures
        b & (m | x) == b,
{
}

/// Adding the same bit to a subset of `m` keeps it inside `m | 1 << p`.
pub proof fn lemma_subset_add_bit(q: u64, m: u64, p: u64)
    by (bit_vector)
    requires
        q & m == q,
    ensures
        (q | (1u64 << p)) & (m | (1u64 << p)) == (q | (1u64 << p)),
{
}

/// Adding the same absent bit to two words preserves their distinction.
pub proof fn lemma_or_bit_cancel(a: u64, b: u64, p: u64)
    by (bit_vector)
    requires
        p < 64,
        (a >> p) & 1u64 != 1u64,
        (b >> p) & 1u64 != 1u64,
        a | (1u64 << p) == b | (1u64 << p),
    ensures
        a == b,
{
}

/// Masking is idempotent, and only the empty set is a subset of the empty set.
pub proof fn lemma_mask_facts(a: u64, m: u64)
    by (bit_vector)
    ensures
        (a & m) & m == a & m,
        a & 0u64 == a <==> a == 0u64,
{
}

/// A word that is not zero has at least one member.
pub proof fn lemma_popcount_nonzero(b: u64)
    requires
        b != 0,
    ensures
        popcount(b) >= 1,
{
    vstd::std_specs::bits::axiom_u64_trailing_zeros(b);
    let tz = vstd::std_specs::bits::u64_trailing_zeros(b) as u64;
    assert(bit(b, tz));
    lemma_popcount_present(b, tz);
}

/// Counting stops changing over a span with no members.
pub proof fn lemma_pop_flat(b: u64, k: int, n: int)
    requires
        0 <= k <= n <= 64,
        forall|i: u64| k <= i < n ==> !bit(b, i),
    ensures
        pop_below(b, n) == pop_below(b, k),
    decreases n,
{
    if n > k {
        assert(!bit(b, (n - 1) as u64));
        lemma_pop_flat(b, k, n - 1);
    }
}

/// A span with every slot a member holds exactly `hi - lo` members.
pub proof fn lemma_pop_full(b: u64, lo: int, hi: int)
    requires
        0 <= lo <= hi <= 64,
        forall|i: u64| lo <= i < hi ==> bit(b, i),
    ensures
        pop_below(b, hi) == pop_below(b, lo) + (hi - lo),
    decreases hi,
{
    if hi > lo {
        assert(bit(b, (hi - 1) as u64));
        lemma_pop_full(b, lo, hi - 1);
    }
}

/// A span whose only member sits at `q` holds exactly one member.
pub proof fn lemma_pop_exact_one(b: u64, lo: int, q: int, hi: int)
    requires
        0 <= lo <= q < hi <= 64,
        bit(b, q as u64),
        forall|i: u64| lo <= i < hi && #[trigger] bit(b, i) ==> i == q,
    ensures
        pop_below(b, hi) == pop_below(b, lo) + 1,
{
    lemma_pop_flat(b, lo, q);
    assert(pop_below(b, q + 1) == pop_below(b, q) + 1);
    lemma_pop_flat(b, q + 1, hi);
}

/// A span whose only members sit at `q1` and `q2` holds exactly two members.
pub proof fn lemma_pop_exact_two(b: u64, lo: int, q1: int, q2: int, hi: int)
    requires
        0 <= lo <= q1 < q2 < hi <= 64,
        bit(b, q1 as u64),
        bit(b, q2 as u64),
        forall|i: u64| lo <= i < hi && #[trigger] bit(b, i) ==> (i == q1 || i == q2),
    ensures
        pop_below(b, hi) == pop_below(b, lo) + 2,
{
    lemma_pop_flat(b, lo, q1);
    assert(pop_below(b, q1 + 1) == pop_below(b, q1) + 1);
    lemma_pop_flat(b, q1 + 1, q2);
    assert(pop_below(b, q2 + 1) == pop_below(b, q2) + 1);
    lemma_pop_flat(b, q2 + 1, hi);
}


/// Round trip of single-square sets: adding square `s` to the empty board
/// makes `s` a member, and no other square.
pub proof fn lemma_single_bit_round_trip(s: u64, t: u64)
    requires
        s < 64,
        t < 64,
    ensures
        bit(0u64 | (1u64 << s), s),
        t != s ==> !bit(0u64 | (1u64 << s), t),
{
    broadcast use group_bit_lemmas;

}

/// A bitboard: an immutable 64-bit value whose set bits are the member squares.
#[derive(Clone, Copy, Debug, PartialEq, Eq, Structural)]
pub struct BitBoard(pub u64);

impl BitBoard {
    /// The empty set.
    pub fn new_empty() -> (r: Self)
        ensures
            r.0 == 0u64,
    {
        Self(0)
    }

    /// The singleton set holding only square `pos`.
    pub fn from_pos(pos: u32) -> (r: Self)
        requires
            pos < 64,
        ensures
            r.0 == 1u64 << (pos as u64),
    {
        Self(1u64 << pos)
    }

    /// Whether square `pos` is absent.
    pub fn empty_at(&self, pos: u32) -> (r: bool)
        requires
            pos < 64,
        ensures
            r == !bit(self.0, pos as u64),
    {
        (self.0 >> pos) & 1 != 1
    }

    /// Set union.
    pub fn union_with(&self, other: Self) -> (r: Self)
        ensures
            r.0 == self.0 | other.0,
    {
        Self(self.0 | other.0)
    }

    /// Set intersection.
    pub fn intersect(&self, other: Self) -> (r: Self)
        ensures
            r.0 == self.0 & other.0,
    {
        Self(self.0 & other.0)
    }

    /// Set complement.
    pub fn invert(&self) -> (r: Self)
        ensures
            r.0 == !self.0,
    {
        Self(!self.0)
    }

    /// The set with square `pos` added.
    pub fn add_pos(&self, pos: u32) -> (r: Self)
        requires
            pos < 64,
        ensures
            r.0 == self.0 | (1u64 << (pos as u64)),
    {
        self.union_with(Self::from_pos(pos))
    }

    /// The set with square `pos` removed.
    pub fn clear_pos(&self, pos: u32) -> (r: Self)
        requires
            pos < 64,
        ensures
            r.0 == self.0 & !(1u64 << (pos as u64)),
    {
        self.intersect(Self::from_pos(pos).invert())
    }

    /// Whether no square is a member.
    pub fn is_empty(&self) -> (r: bool)
        ensures
            r == (self.0 == 0u64),
    {
        self.0 == 0
    }

    /// Whether some square is a member.
    pub fn not_empty(&self) -> (r: bool)
        ensures
            r == (self.0 != 0u64),
    {
        self.0 != 0
    }

    /// Number of member squares.
    pub fn count(&self) -> (r: u32)
        ensures
            r == popcount(self.0),
            r <= 64,
    {
        let mut r: u32 = 0;
        for i in 0..64u32
            invariant
                r == pop_below(self.0, i as int),
                r <= i,
        {
            if (self.0 >> i) & 1 == 1 {
                r = r + 1;
            }
        }
        r
    }

    /// Index of the lowest member square; 64 when the set is empty.
    pub fn solo_pos(&self) -> (r: u32)
        ensures
            self.0 == 0u64 ==> r == 64,
            self.0 != 0u64 ==> r < 64 && bit(self.0, r as u64) && forall|j: u64|
                j < r ==> !bit(self.0, j),
    {
        let mut i: u32 = 0;
        while i < 64
            invariant
                i <= 64,
                forall|j: u64| j < i ==> !bit(self.0, j),
            decreases 64 - i,
        {
            if (self.0 >> (i as u64)) & 1u64 == 1 {
                proof {
                    broadcast use lemma_bit_zero;

                    assert(bit(self.0, i as u64));
                    assert(!bit(0u64, i as u64));
                }
                return i;
            }
            i = i + 1;
        }
        proof {
            broadcast use lemma_bit_zero;

            assert(forall|j: u64| j < 64 ==> (bit(self.0, j) <==> bit(0u64, j)));
            lemma_bit_extensionality(self.0, 0u64);
        }
        64
    }

    /// The member squares, in ascending order.
    pub fn get_indices(&self) -> (r: Vec<u32>)
        ensures
            r@.len() == popcount(self.0),
            forall|k: int| 0 <= k < r@.len() ==> r@[k] < 64 && bit(self.0, r@[k] as u64),
            forall|k1: int, k2: int| 0 <= k1 < k2 < r@.len() ==> r@[k1] < r@[k2],
            forall|s: u64| s < 64 && bit(self.0, s) ==> r@.contains(s as u32),
    {
        let mut r: Vec<u32> = Vec::new();
        for i in 0..64u32
            invariant
                r@.len() == pop_below(self.0, i as int),
                forall|k: int| 0 <= k < r@.len() ==> r@[k] < i && bit(self.0, r@[k] as u64),
                forall|k1: int, k2: int| 0 <= k1 < k2 < r@.len() ==> r@[k1] < r@[k2],
                forall|s: u64| s < i && bit(self.0, s) ==> r@.contains(s as u32),
        {
            if (self.0 >> i) & 1 == 1 {
                let ghost old_r = r@;
                r.push(i);
                proof {
                    assert(forall|s: u64|
                        s < 64 && #[trigger] old_r.contains(s as u32) ==> r@.contains(
                            s as u32,
                        )) by {
                        assert(forall|k: int| 0 <= k < old_r.len() ==> r@[k] == old_r[k]);
                    }
                    assert(r@[r@.len() - 1] == i);
                    assert(r@.contains(i));
                }
            }
        }
        r
    }

}

} // verus!
