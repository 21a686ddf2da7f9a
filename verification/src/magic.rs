//! Sliding-piece magic engine: per-square occupancy masks, fixed magic
//! multipliers, dense attack tables keyed by a hashed occupancy subset, and
//! per-square-pair ray tables.

use vstd::prelude::*;
use crate::bits::{bit, pop_below, popcount, BitBoard};

verus! {

broadcast use crate::bits::group_bit_lemmas;

/// Fixed, pre-discovered magic multipliers for rook-type sliding, one per
/// square.
pub const MAGIC_ROOKS: [u64; 64] = [
    36033423772491904,
    2323857820178460676,
    6953575418995671177,
    5800645116222767232,
    3602914904120517120,
    3530826506039331584,
    36030996260324736,
    612491476202422400,
    29977089876705289,
    2392674750709762,
    140874928357504,
    2378463865669288032,
    1460010738574693424,
    1127068675080200,
    5045720449750146560,
    1820017200552345993,
    148760075017338888,
    4791672755986944,
    5914634786208481552,
    865395365786947584,
    6956092199235053568,
    297378862684210176,
    708085507330056,
    5233184966038274820,
    2328572120025539200,
    4538786151139712,
    1161928983035576352,
    580964903839401984,
    2612369877362573376,
    72621102338151464,
    7098813223479545986,
    5764962141304046609,
    5190468957148021888,
    2305918463203348480,
    1163337454493638656,
    2306986503496009729,
    81143962441614384,
    1157455892715676160,
    37198746177538402,
    2378182217831547202,
    4634555895190159372,
    1802319528982495232,
    17592722948224,
    147846931886506016,
    562984382496784,
    72061992118026368,
    2314886501210783752,
    4632023139549839396,
    4900067030927172096,
    110443759023423616,
    1335880889091154432,
    146508034618688128,
    4725410709406748928,
    38317980295135360,
    4661968359261184,
    4830190641549972992,
    2506852087170629635,
    2450028604691587201,
    3465062517514963089,
    90635767277432866,
    83119780659203843,
    6009490924839705730,
    1688854358698010,
    595179697852481794,
];

/// Fixed, pre-discovered magic multipliers for bishop-type sliding, one per
/// square.
pub const MAGIC_BISHOPS: [u64; 64] = [
    18023198964588608,
    565183370002432,
    2269958943801344,
    73187894138798080,
    299342044858368,
    143074487468032,
    145204288946176,
    282027148968448,
    4432440328704,
    2233416810560,
    1143494273941504,
    22007420813312,
    72062009801244672,
    2203587182592,
    2207881758720,
    1101693714944,
    18014535982121472,
    9007207979024512,
    580610926055968,
    73183529379307520,
    3386497971519504,
    457401401090048,
    70385991418880,
    281477128913408,
    2256197996513280,
    316659416433152,
    43991470997536,
    2814887239778816,
    145135543263240,
    1691048885653512,
    145135568552448,
    1126037350121984,
    598203047084544,
    1130306545385984,
    281754150111232,
    72059795209191808,
    1130349492998400,
    9008299840505856,
    2252351717245440,
    2252903620296768,
    290408575799296,
    1126466909638656,
    288249102343340288,
    412719513856,
    2305851809619510276,
    598151522418721,
    1143500687016448,
    4505800814886944,
    74835644907520,
    74775514972160,
    283477278720,
    2216951808,
    34630537216,
    70386058298368,
    1134764786483200,
    571754644897792,
    18693979652096,
    1116708341760,
    8608843776,
    9007199259066880,
    9007199523308032,
    277059207424,
    4432540991616,
    18031992859803776,
];

/// The square index of file `x` on rank `y`.
pub open spec fn sq(x: int, y: int) -> u64 {
    (y * 8 + x) as u64
}

/// `c` lies strictly between `a` and `b` on a line.
pub open spec fn strictly_between(a: int, b: int, c: int) -> bool {
    (a < c && c < b) || (b < c && c < a)
}

/// A rook-type slider on `pos` reaches `s` through occupancy `occ`: the two
/// squares share a rank or a file and every square strictly between them is
/// empty. The first occupied square along a ray is itself reached.
pub open spec fn rook_reaches(occ: u64, pos: u64, s: u64) -> bool {
    let x = pos as int % 8;
    let y = pos as int / 8;
    let xs = s as int % 8;
    let ys = s as int / 8;
    pos < 64 && s < 64 && ((ys == y && xs != x && (forall|x3: int|
        strictly_between(x, xs, x3) ==> !bit(occ, #[trigger] sq(x3, y)))) || (xs == x && ys != y
        && (forall|y3: int| strictly_between(y, ys, y3) ==> !bit(occ, #[trigger] sq(x, y3)))))
}

/// A bishop-type slider on `pos` reaches `s` through occupancy `occ`: the two
/// squares share a diagonal and every square strictly between them is empty.
pub open spec fn bishop_reaches(occ: u64, pos: u64, s: u64) -> bool {
    let x = pos as int % 8;
    let y = pos as int / 8;
    let xs = s as int % 8;
    let ys = s as int / 8;
    pos < 64 && s < 64 && ((xs - x == ys - y && xs != x && (forall|x3: int|
        strictly_between(x, xs, x3) ==> !bit(occ, #[trigger] sq(x3, y + (x3 - x))))) || (xs - x
        == -(ys - y) && xs != x && (forall|x3: int|
        strictly_between(x, xs, x3) ==> !bit(occ, #[trigger] sq(x3, y - (x3 - x))))))
}

/// `s` is a relevant-occupancy square for a rook on `pos`: on the same rank or
/// file, distinct from `pos`, and not on the board's edge along that ray.
pub open spec fn in_rook_mask(pos: u64, s: u64) -> bool {
    let x = pos as int % 8;
    let y = pos as int / 8;
    let xs = s as int % 8;
    let ys = s as int / 8;
    pos < 64 && s < 64 && s != pos && ((ys == y && 1 <= xs && xs <= 6) || (xs == x && 1 <= ys && ys
        <= 6))
}

/// `s` is a relevant-occupancy square for a bishop on `pos`: on a shared
/// diagonal, distinct from `pos`, and away from every board edge.
pub open spec fn in_bishop_mask(pos: u64, s: u64) -> bool {
    let x = pos as int % 8;
    let y = pos as int / 8;
    let xs = s as int % 8;
    let ys = s as int / 8;
    pos < 64 && s < 64 && s != pos && (xs - x == ys - y || xs - x == -(ys - y)) && 1 <= xs && xs
        <= 6 && 1 <= ys && ys <= 6
}

/// Every member of `b` is a relevant-occupancy square for a rook on `pos`.
pub open spec fn relevant_rook(b: u64, pos: u64) -> bool {
    forall|i: u64| i < 64 ==> (#[trigger] bit(b, i) ==> in_rook_mask(pos, i))
}

/// Every member of `b` is a relevant-occupancy square for a bishop on `pos`.
pub open spec fn relevant_bishop(b: u64, pos: u64) -> bool {
    forall|i: u64| i < 64 ==> (#[trigger] bit(b, i) ==> in_bishop_mask(pos, i))
}

/// The dense-table slot of occupancy subset `sub` under a magic multiplier
/// and a table of `2^bits` slots.
pub open spec fn magic_key(sub: u64, magic: u64, bits: u64) -> u64 {
    (sub.wrapping_mul(magic)) >> ((64 - bits) as u64)
}

/// A sequence of boards holds the word `b`.
pub open spec fn contains_board(v: Seq<BitBoard>, b: u64) -> bool {
    exists|k: int| 0 <= k < v.len() && v[k].0 == b
}

proof fn lemma_key_bound(sub: u64, magic: u64, bits: u64)
    by (bit_vector)
    requires
        1 <= bits <= 63,
    ensures
        magic_key(sub, magic, bits) < (1u64 << bits),
{
}

fn test_bit(occ: u64, idx: u32) -> (r: bool)
    requires
        idx < 64,
    ensures
        r == bit(occ, idx as u64),
{
    (occ >> (idx as u64)) & 1u64 == 1
}

/// Whether every square strictly between files `xa` and `xb` on rank `y` is
/// empty in `occ`.
fn rank_clear(occ: u64, y: i32, xa: i32, xb: i32) -> (r: bool)
    requires
        0 <= y < 8,
        0 <= xa < 8,
        0 <= xb < 8,
        xa != xb,
    ensures
        r == (forall|x3: int|
            strictly_between(xa as int, xb as int, x3) ==> !bit(occ, #[trigger] sq(x3, y as int))),
{
    let lo = if xa < xb {
        xa
    } else {
        xb
    };
    let hi = if xa < xb {
        xb
    } else {
        xa
    };
    let mut x3 = lo + 1;
    while x3 < hi
        invariant
            0 <= y < 8,
            0 <= lo < hi < 8,
            lo + 1 <= x3 <= hi,
            lo == if xa < xb {
                xa
            } else {
                xb
            },
            hi == if xa < xb {
                xb
            } else {
                xa
            },
            forall|c: int| lo < c < x3 ==> !bit(occ, #[trigger] sq(c, y as int)),
        decreases hi - x3,
    {
        if test_bit(occ, (y * 8 + x3) as u32) {
            proof {
                assert(strictly_between(xa as int, xb as int, x3 as int));
                assert(bit(occ, sq(x3 as int, y as int)));
            }
            return false;
        }
        proof {
            assert(!bit(occ, sq(x3 as int, y as int)));
        }
        x3 = x3 + 1;
    }
    true
}

/// Whether every square strictly between ranks `ya` and `yb` on file `x` is
/// empty in `occ`.
fn file_clear(occ: u64, x: i32, ya: i32, yb: i32) -> (r: bool)
    requires
        0 <= x < 8,
        0 <= ya < 8,
        0 <= yb < 8,
        ya != yb,
    ensures
        r == (forall|y3: int|
            strictly_between(ya as int, yb as int, y3) ==> !bit(occ, #[trigger] sq(x as int, y3))),
{
    let lo = if ya < yb {
        ya
    } else {
        yb
    };
    let hi = if ya < yb {
        yb
    } else {
        ya
    };
    let mut y3 = lo + 1;
    while y3 < hi
        invariant
            0 <= x < 8,
            0 <= lo < hi < 8,
            lo + 1 <= y3 <= hi,
            lo == if ya < yb {
                ya
            } else {
                yb
            },
            hi == if ya < yb {
                yb
            } else {
                ya
            },
            forall|c: int| lo < c < y3 ==> !bit(occ, #[trigger] sq(x as int, c)),
        decreases hi - y3,
    {
        if test_bit(occ, (y3 * 8 + x) as u32) {
            proof {
                assert(strictly_between(ya as int, yb as int, y3 as int));
                assert(bit(occ, sq(x as int, y3 as int)));
            }
            return false;
        }
        proof {
            assert(!bit(occ, sq(x as int, y3 as int)));
        }
        y3 = y3 + 1;
    }
    true
}

/// Whether every square strictly between `(xa, ya)` and `(xb, yb)` on their
/// shared rising diagonal is empty in `occ`.
fn diag_clear(occ: u64, xa: i32, ya: i32, xb: i32, yb: i32) -> (r: bool)
    requires
        0 <= xa < 8,
        0 <= ya < 8,
        0 <= xb < 8,
        0 <= yb < 8,
        xb - xa == yb - ya,
        xa != xb,
    ensures
        r == (forall|x3: int|
            strictly_between(xa as int, xb as int, x3) ==> !bit(
                occ,
                #[trigger] sq(x3, ya + (x3 - xa)),
            )),
{
    let (lo, ylo) = if xa < xb {
        (xa, ya)
    } else {
        (xb, yb)
    };
    let hi = if xa < xb {
        xb
    } else {
        xa
    };
    let mut x3 = lo + 1;
    while x3 < hi
        invariant
            0 <= lo < hi < 8,
            lo + 1 <= x3 <= hi,
            xb - xa == yb - ya,
            0 <= ya < 8,
            0 <= yb < 8,
            0 <= xa < 8,
            0 <= xb < 8,
            xa != xb,
            lo == if xa < xb {
                xa
            } else {
                xb
            },
            ylo == if xa < xb {
                ya
            } else {
                yb
            },
            hi == if xa < xb {
                xb
            } else {
                xa
            },
            forall|c: int| lo < c < x3 ==> !bit(occ, #[trigger] sq(c, ya + (c - xa))),
        decreases hi - x3,
    {
        if test_bit(occ, ((ylo + (x3 - lo)) * 8 + x3) as u32) {
            proof {
                assert(strictly_between(xa as int, xb as int, x3 as int));
                assert(ylo + (x3 - lo) == ya + (x3 - xa));
                assert(bit(occ, sq(x3 as int, ya + (x3 - xa))));
            }
            return false;
        }
        proof {
            assert(ylo + (x3 - lo) == ya + (x3 - xa));
            assert(!bit(occ, sq(x3 as int, ya + (x3 - xa))));
        }
        x3 = x3 + 1;
    }
    true
}

/// Whether every square strictly between `(xa, ya)` and `(xb, yb)` on their
/// shared falling diagonal is empty in `occ`.
fn anti_clear(occ: u64, xa: i32, ya: i32, xb: i32, yb: i32) -> (r: bool)
    requires
        0 <= xa < 8,
        0 <= ya < 8,
        0 <= xb < 8,
        0 <= yb < 8,
        xb - xa == -(yb - ya),
        xa != xb,
    ensures
        r == (forall|x3: int|
            strictly_between(xa as int, xb as int, x3) ==> !bit(
                occ,
                #[trigger] sq(x3, ya - (x3 - xa)),
            )),
{
    let (lo, ylo) = if xa < xb {
        (xa, ya)
    } else {
        (xb, yb)
    };
    let hi = if xa < xb {
        xb
    } else {
        xa
    };
    let mut x3 = lo + 1;
    while x3 < hi
        invariant
            0 <= lo < hi < 8,
            lo + 1 <= x3 <= hi,
            xb - xa == -(yb - ya),
            0 <= ya < 8,
            0 <= yb < 8,
            0 <= xa < 8,
            0 <= xb < 8,
            xa != xb,
            lo == if xa < xb {
                xa
            } else {
                xb
            },
            ylo == if xa < xb {
                ya
            } else {
                yb
            },
            hi == if xa < xb {
                xb
            } else {
                xa
            },
            forall|c: int| lo < c < x3 ==> !bit(occ, #[trigger] sq(c, ya - (c - xa))),
        decreases hi - x3,
    {
        if test_bit(occ, ((ylo - (x3 - lo)) * 8 + x3) as u32) {
            proof {
                assert(strictly_between(xa as int, xb as int, x3 as int));
                assert(ylo - (x3 - lo) == ya - (x3 - xa));
                assert(bit(occ, sq(x3 as int, ya - (x3 - xa))));
            }
            return false;
        }
        proof {
            assert(ylo - (x3 - lo) == ya - (x3 - xa));
            assert(!bit(occ, sq(x3 as int, ya - (x3 - xa))));
        }
        x3 = x3 + 1;
    }
    true
}



/// All subsets of `mask`: the copy-and-extend enumeration, one entry per
/// subset.
fn subsets_of(mask: BitBoard) -> (r: Vec<BitBoard>)
    ensures
        forall|b: u64| contains_board(r@, b) <==> b & mask.0 == b,
        r@.len() == vstd::arithmetic::power2::pow2(popcount(mask.0)),
        r@.no_duplicates(),
        r@[0].0 == 0,
{
    let idx = mask.get_indices();
    let mut perms: Vec<BitBoard> = Vec::new();
    perms.push(BitBoard(0));
    let ghost mut processed: u64 = 0;
    proof {
        assert(0u64 & mask.0 == 0u64) by (bit_vector);
        vstd::arithmetic::power2::lemma2_to64();
        assert forall|b: u64| contains_board(perms@, b) <==> b & processed == b by {
            crate::bits::lemma_mask_facts(b, 0);
            if b == 0 {
                assert(perms@[0].0 == b);
            }
        }
    }
    let nidx = idx.len();
    let mut i: usize = 0;
    while i < nidx
        invariant
            0 <= i <= nidx,
            nidx == idx@.len(),
            forall|k: int| 0 <= k < idx@.len() ==> (#[trigger] idx@[k]) < 64 && bit(mask.0, idx@[k] as u64),
            forall|k1: int, k2: int| 0 <= k1 < k2 < idx@.len() ==> idx@[k1] < idx@[k2],
            forall|s: u64| s < 64 && bit(mask.0, s) ==> idx@.contains(s as u32),
            processed & mask.0 == processed,
            forall|k: int| 0 <= k < i ==> bit(processed, #[trigger] idx@[k] as u64),
            forall|k: int| i <= k < idx@.len() ==> !bit(processed, #[trigger] idx@[k] as u64),
            forall|b: u64| contains_board(perms@, b) <==> b & processed == b,
            idx@.len() == popcount(mask.0),
            perms@.len() == vstd::arithmetic::power2::pow2(i as nat),
            perms@.no_duplicates(),
            perms@[0].0 == 0,
        decreases nidx - i,
    {
        let p = idx[i];
        let ghost old_processed = processed;
        let ghost old_perms = perms@;
        proof {
            assert forall|k: int| 0 <= k < old_perms.len() implies !bit(
                (#[trigger] old_perms[k]).0,
                p as u64,
            ) by {
                assert(old_perms[k].0 == perms@[k].0);
                assert(contains_board(perms@, old_perms[k].0));
                crate::bits::lemma_subset_masked(old_perms[k].0, processed);
            }
        }
        let n = perms.len();
        let mut j: usize = 0;
        while j < n
            invariant
                0 <= j <= n,
                n == old_perms.len(),
                perms@.len() == n + j,
                p < 64,
                forall|k: int| 0 <= k < n ==> perms@[k] == old_perms[k],
                forall|k: int|
                    n <= k < n + j ==> (#[trigger] perms@[k]).0 == old_perms[k - n].0 | (1u64 << (
                    p as u64)),
                old_perms.no_duplicates(),
                forall|k: int| 0 <= k < n ==> !bit((#[trigger] old_perms[k]).0, p as u64),
                perms@.no_duplicates(),
            decreases n - j,
        {
            let v = perms[j];
            perms.push(v.add_pos(p));
            proof {
                let pb = 1u64 << (p as u64);
                let last = perms@.len() - 1;
                assert(perms@[last].0 == old_perms[j as int].0 | pb);
                assert forall|k1: int, k2: int|
                    0 <= k1 < perms@.len() && 0 <= k2 < perms@.len() && k1 != k2 implies perms@[k1]
                    != perms@[k2] by {
                    if k1 < last && k2 < last {
                        assert(perms@[k1] != perms@[k2]);
                    } else {
                        let ko = if k1 == last {
                            k2
                        } else {
                            k1
                        };
                        if ko < n {
                            // an old entry lacks the new bit, the new one has it
                            crate::bits::lemma_bit_or(old_perms[j as int].0, pb, p as u64);
                            crate::bits::lemma_bit_single(p as u64, p as u64);
                            assert(bit(perms@[last].0, p as u64));
                            assert(perms@[ko] == old_perms[ko]);
                            assert(!bit(old_perms[ko].0, p as u64));
                            assert(!bit(perms@[ko].0, p as u64));
                        } else {
                            // two extended entries differ because their bases do
                            if perms@[ko].0 == perms@[last].0 {
                                crate::bits::lemma_or_bit_cancel(
                                    old_perms[ko - n].0,
                                    old_perms[j as int].0,
                                    p as u64,
                                );
                                assert(old_perms[ko - n] == old_perms[j as int]);
                                assert(false);
                            }
                        }
                    }
                }
                assert(perms@.no_duplicates());
            }
            j += 1;
        }
        proof {
            let pb = 1u64 << (p as u64);
            let m = old_processed;
            processed = m | pb;
            assert(bit(mask.0, p as u64));
            assert(!bit(m, p as u64));
            // membership in the doubled list is exactly being a subset of the
            // grown processed set
            assert forall|b: u64| contains_board(perms@, b) implies b & processed == b by {
                let k = choose|k: int| 0 <= k < perms@.len() && perms@[k].0 == b;
                if k < n {
                    assert(old_perms[k].0 == b);
                    assert(contains_board(old_perms, b));
                    crate::bits::lemma_subset_grow(b, m, pb);
                } else {
                    let q = old_perms[k - n].0;
                    assert(contains_board(old_perms, q));
                    assert(q & m == q);
                    crate::bits::lemma_subset_add_bit(q, m, p as u64);
                }
            }
            assert forall|b: u64| b & processed == b implies contains_board(perms@, b) by {
                if (b >> (p as u64)) & 1u64 == 1u64 {
                    crate::bits::lemma_subset_split_bit(b, m, p as u64);
                    let q = b & !pb;
                    assert(contains_board(old_perms, q));
                    let k = choose|k: int| 0 <= k < old_perms.len() && old_perms[k].0 == q;
                    assert(perms@[k + n].0 == q | pb);
                    assert(perms@[k + n].0 == b);
                } else {
                    crate::bits::lemma_subset_drop_bit(b, m, p as u64);
                    assert(b & m == b);
                    assert(contains_board(old_perms, b));
                    let k = choose|k: int| 0 <= k < old_perms.len() && old_perms[k].0 == b;
                    assert(perms@[k].0 == b);
                }
            }
            // the processed set stays inside the mask and now covers one more
            // listed bit
            crate::bits::lemma_subset_masked(m, mask.0);
            assert forall|t: u64| t < 64 && #[trigger] bit(processed, t) implies bit(mask.0, t) by {
                crate::bits::lemma_bit_or(m, pb, t);
                crate::bits::lemma_bit_single(p as u64, t);
            }
            crate::bits::lemma_subset_masked(processed, mask.0);
            assert forall|k: int| 0 <= k < i + 1 implies bit(processed, #[trigger] idx@[k] as u64) by {
                crate::bits::lemma_bit_or(m, pb, idx@[k] as u64);
                crate::bits::lemma_bit_single(p as u64, idx@[k] as u64);
            }
            assert forall|k: int| i + 1 <= k < idx@.len() implies !bit(
                processed,
                #[trigger] idx@[k] as u64,
            ) by {
                assert(idx@[i as int] < idx@[k]);
                crate::bits::lemma_bit_or(m, pb, idx@[k] as u64);
                crate::bits::lemma_bit_single(p as u64, idx@[k] as u64);
            }
            vstd::arithmetic::power2::lemma_pow2_unfold((i + 1) as nat);
            vstd::arithmetic::power2::lemma_pow2_pos(i as nat);
            assert(perms@.len() == vstd::arithmetic::power2::pow2((i + 1) as nat));
            assert(old_perms.len() >= 1);
            assert(perms@[0] == old_perms[0]);
        }
        i += 1;
    }
    proof {
        assert forall|t: u64| t < 64 implies (bit(processed, t) <==> bit(mask.0, t)) by {
            crate::bits::lemma_subset_masked(processed, mask.0);
            if bit(mask.0, t) {
                assert(idx@.contains(t as u32));
                let k = choose|k: int| 0 <= k < idx@.len() && idx@[k] == t as u32;
                assert(bit(processed, idx@[k] as u64));
            }
        }
        crate::bits::lemma_bit_extensionality(processed, mask.0);
    }
    perms
}


/// `m` is exactly the set of relevant-occupancy squares for a rook on `p`.
pub open spec fn is_rook_mask_of(m: u64, p: int) -> bool {
    forall|s: u64| #[trigger] bit(m, s) <==> in_rook_mask(p as u64, s)
}

/// `m` is exactly the set of relevant-occupancy squares for a bishop on `p`.
pub open spec fn is_bishop_mask_of(m: u64, p: int) -> bool {
    forall|s: u64| #[trigger] bit(m, s) <==> in_bishop_mask(p as u64, s)
}

/// The unique word whose members are the relevant-occupancy squares for a
/// rook on `p`.
pub open spec fn rook_mask_val(p: int) -> u64 {
    choose|m: u64| is_rook_mask_of(m, p)
}

/// The unique word whose members are the relevant-occupancy squares for a
/// bishop on `p`.
pub open spec fn bishop_mask_val(p: int) -> u64 {
    choose|m: u64| is_bishop_mask_of(m, p)
}

/// The slot a relevant rook subset hashes to on square `p`.
pub open spec fn rook_key(p: int, b: u64) -> u64 {
    magic_key(b, MAGIC_ROOKS[p], popcount(rook_mask_val(p)) as u64)
}

/// The slot a relevant bishop subset hashes to on square `p`.
pub open spec fn bishop_key(p: int, b: u64) -> u64 {
    magic_key(b, MAGIC_BISHOPS[p], popcount(bishop_mask_val(p)) as u64)
}

/// The fixed rook multipliers are collision-free: on every square, two
/// relevant occupancy subsets hashing to the same slot have the same
/// reference attack set.
pub open spec fn rook_magics_ok() -> bool {
    forall|p: int, b1: u64, b2: u64|
        (0 <= p < 64 && relevant_rook(b1, p as u64) && relevant_rook(b2, p as u64)
            && #[trigger] rook_key(p, b1) == #[trigger] rook_key(p, b2)) ==> (forall|s: u64|
            #[trigger] rook_reaches(b1, p as u64, s) <==> rook_reaches(b2, p as u64, s))
}

/// The fixed bishop multipliers are collision-free in the same sense.
pub open spec fn bishop_magics_ok() -> bool {
    forall|p: int, b1: u64, b2: u64|
        (0 <= p < 64 && relevant_bishop(b1, p as u64) && relevant_bishop(b2, p as u64)
            && #[trigger] bishop_key(p, b1) == #[trigger] bishop_key(p, b2)) ==> (forall|s: u64|
            #[trigger] bishop_reaches(b1, p as u64, s) <==> bishop_reaches(b2, p as u64, s))
}

/// Both fixed multiplier tables are collision-free.
pub open spec fn magics_ok() -> bool {
    rook_magics_ok() && bishop_magics_ok()
}



/// `s` lies on the rank or file ray that leads from `pos` through `other`,
/// strictly after `pos` and no farther than `other`.
pub open spec fn rook_ray_member(pos: u64, other: u64, s: u64) -> bool {
    let x = pos as int % 8;
    let y = pos as int / 8;
    let xo = other as int % 8;
    let yo = other as int / 8;
    let xs = s as int % 8;
    let ys = s as int / 8;
    pos < 64 && other < 64 && s < 64 && ((xo == x && yo != y && xs == x && (strictly_between(
        y,
        yo,
        ys,
    ) || s == other)) || (yo == y && xo != x && ys == y && (strictly_between(x, xo, xs) || s
        == other)))
}

/// `s` lies on the diagonal ray that leads from `pos` through `other`,
/// strictly after `pos` and no farther than `other`.
pub open spec fn bishop_ray_member(pos: u64, other: u64, s: u64) -> bool {
    let x = pos as int % 8;
    let y = pos as int / 8;
    let xo = other as int % 8;
    let yo = other as int / 8;
    let xs = s as int % 8;
    let ys = s as int / 8;
    pos < 64 && other < 64 && s < 64 && ((xo - x == yo - y && xo != x && xs - x == ys - y
        && (strictly_between(x, xo, xs) || s == other)) || (xo - x == -(yo - y) && xo != x && xs - x
        == -(ys - y) && (strictly_between(x, xo, xs) || s == other)))
}

fn rook_ray_entry(pos: u32, other: u32) -> (r: BitBoard)
    requires
        pos < 64,
        other < 64,
    ensures
        forall|s: u64| #[trigger] bit(r.0, s) <==> rook_ray_member(pos as u64, other as u64, s),
{
    let x = (pos % 8) as i32;
    let y = (pos / 8) as i32;
    let xo = (other % 8) as i32;
    let yo = (other / 8) as i32;
    let mut bb = BitBoard::new_empty();
    for s in 0..64u32
        invariant
            pos < 64,
            other < 64,
            x == pos as int % 8,
            y == pos as int / 8,
            xo == other as int % 8,
            yo == other as int / 8,
            forall|t: u64| #[trigger] bit(bb.0, t) <==> (t < s && rook_ray_member(
                pos as u64,
                other as u64,
                t,
            )),
    {
        let xs = (s % 8) as i32;
        let ys = (s / 8) as i32;
        let hit = (xo == x && yo != y && xs == x && (((y < ys && ys < yo) || (yo < ys && ys < y))
            || s == other)) || (yo == y && xo != x && ys == y && (((x < xs && xs < xo) || (xo < xs
            && xs < x)) || s == other));
        if hit {
            let ghost prev = bb.0;
            bb = bb.add_pos(s);
            proof {
                assert forall|t: u64| #[trigger] bit(bb.0, t) <==> (bit(prev, t) || t
                    == s as u64) by {
                    crate::bits::lemma_bit_or(prev, 1u64 << (s as u64), t);
                    crate::bits::lemma_bit_single(s as u64, t);
                }
            }
        }
    }
    bb
}

fn bishop_ray_entry(pos: u32, other: u32) -> (r: BitBoard)
    requires
        pos < 64,
        other < 64,
    ensures
        forall|s: u64| #[trigger] bit(r.0, s) <==> bishop_ray_member(pos as u64, other as u64, s),
{
    let x = (pos % 8) as i32;
    let y = (pos / 8) as i32;
    let xo = (other % 8) as i32;
    let yo = (other / 8) as i32;
    let mut bb = BitBoard::new_empty();
    for s in 0..64u32
        invariant
            pos < 64,
            other < 64,
            x == pos as int % 8,
            y == pos as int / 8,
            xo == other as int % 8,
            yo == other as int / 8,
            forall|t: u64| #[trigger] bit(bb.0, t) <==> (t < s && bishop_ray_member(
                pos as u64,
                other as u64,
                t,
            )),
    {
        let xs = (s % 8) as i32;
        let ys = (s / 8) as i32;
        let hit = (xo - x == yo - y && xo != x && xs - x == ys - y && (((x < xs && xs < xo) || (xo
            < xs && xs < x)) || s == other)) || (xo - x == -(yo - y) && xo != x && xs - x == -(ys
            - y) && (((x < xs && xs < xo) || (xo < xs && xs < x)) || s == other));
        if hit {
            let ghost prev = bb.0;
            bb = bb.add_pos(s);
            proof {
                assert forall|t: u64| #[trigger] bit(bb.0, t) <==> (bit(prev, t) || t
                    == s as u64) by {
                    crate::bits::lemma_bit_or(prev, 1u64 << (s as u64), t);
                    crate::bits::lemma_bit_single(s as u64, t);
                }
            }
        }
    }
    bb
}


/// The stored word at a dense-table slot.
pub open spec fn table_at(t: Seq<BitBoard>, key: u64) -> u64 {
    t[key as int].0
}

/// The slot abbreviation for a rook table with `bits` index bits.
pub open spec fn rkey(p: int, bits: u64, b: u64) -> u64 {
    magic_key(b, MAGIC_ROOKS[p], bits)
}

/// The slot abbreviation for a bishop table with `bits` index bits.
pub open spec fn bkey(p: int, bits: u64, b: u64) -> u64 {
    magic_key(b, MAGIC_BISHOPS[p], bits)
}

fn fill_rook_table(pos: u32, bits: u32) -> (r: Option<Vec<BitBoard>>)
    requires
        pos < 64,
        1 <= bits <= 16,
        bits as nat == popcount(rook_mask_val(pos as int)),
    ensures
        match r {
            Some(t) => {
                &&& t@.len() == (1u64 << (bits as u64)) as int
                &&& forall|b: u64, s: u64|
                    relevant_rook(b, pos as u64) ==> (#[trigger] bit(
                        table_at(t@, rkey(pos as int, bits as u64, b)),
                        s,
                    ) <==> rook_reaches(b, pos as u64, s))
            },
            None => !rook_magics_ok(),
        },
{
    let perms = MagicCache::gen_rook(pos);
    let size: usize = 1usize << bits;
    proof {
        assert((1usize << bits) as int == (1u64 << (bits as u64)) as int) by (bit_vector)
            requires
                bits <= 16,
        ;
    }
    let mut table: Vec<BitBoard> = Vec::new();
    let mut written: Vec<bool> = Vec::new();
    let mut c: usize = 0;
    while c < size
        invariant
            c <= size,
            table@.len() == c,
            written@.len() == c,
            forall|j: int| 0 <= j < c ==> !(#[trigger] written@[j]),
        decreases size - c,
    {
        table.push(BitBoard(0));
        written.push(false);
        c += 1;
    }
    let n = perms.len();
    let mut i: usize = 0;
    while i < n
        invariant
            pos < 64,
            1 <= bits <= 16,
            bits as nat == popcount(rook_mask_val(pos as int)),
            0 <= i <= n,
            n == perms@.len(),
            table@.len() == size,
            written@.len() == size,
            size as int == (1u64 << (bits as u64)) as int,
            forall|b: u64| contains_board(perms@, b) <==> relevant_rook(b, pos as u64),
            forall|k: int, s: u64|
                0 <= k < i ==> (#[trigger] bit(
                    table_at(table@, rkey(pos as int, bits as u64, perms@[k].0)),
                    s,
                ) <==> rook_reaches(perms@[k].0, pos as u64, s)),
            forall|k: int|
                0 <= k < i ==> written@[rkey(pos as int, bits as u64, #[trigger] perms@[k].0) as int],
            forall|j: int|
                0 <= j < size && #[trigger] written@[j] ==> exists|k: int|
                    0 <= k < i && rkey(pos as int, bits as u64, #[trigger] perms@[k].0) as int == j,
        decreases n - i,
    {
        let sub = perms[i];
        let res = MagicCache::solve_rook(sub, pos);
        let key64 = sub.0.wrapping_mul(MAGIC_ROOKS[pos as usize]) >> ((64 - bits) as u64);
        proof {
            lemma_key_bound(sub.0, MAGIC_ROOKS[pos as int], bits as u64);
            assert(key64 == rkey(pos as int, bits as u64, sub.0));
        }
        let key = key64 as usize;
        let ghost snap_table = table@;
        let ghost snap_written = written@;
        if written[key] {
            if table[key].0 != res.0 {
                proof {
                    let j = key as int;
                    let k = choose|k: int|
                        0 <= k < i && rkey(pos as int, bits as u64, perms@[k].0) as int == j;
                    let b1 = perms@[k].0;
                    let b2 = sub.0;
                    let t1 = table_at(table@, rkey(pos as int, bits as u64, b1));
                    assert(contains_board(perms@, b1));
                    assert(contains_board(perms@, b2));
                    assert(rook_key(pos as int, b1) == rkey(pos as int, bits as u64, b1));
                    assert(rook_key(pos as int, b2) == rkey(pos as int, bits as u64, b2));
                    assert(rook_key(pos as int, b1) == rook_key(pos as int, b2));
                    if (forall|s: u64|
                        #[trigger] rook_reaches(b1, pos as u64, s) <==> rook_reaches(
                            b2,
                            pos as u64,
                            s,
                        )) {
                        assert forall|i2: u64| i2 < 64 implies (bit(t1, i2) <==> bit(
                            res.0,
                            i2,
                        )) by {
                            assert(rook_reaches(b1, pos as u64, i2) <==> rook_reaches(
                                b2,
                                pos as u64,
                                i2,
                            ));
                        }
                        crate::bits::lemma_bit_extensionality(t1, res.0);
                        assert(false);
                    }
                    assert(!rook_magics_ok());
                }
                return None;
            }
        } else {
            let ghost old_written = written@;
            table.set(key, res);
            written.set(key, true);
            proof {
                assert forall|k: int| 0 <= k < i implies rkey(
                    pos as int,
                    bits as u64,
                    #[trigger] perms@[k].0,
                ) as int != key as int by {
                    assert(old_written[rkey(pos as int, bits as u64, perms@[k].0) as int]);
                }
            }
        }
        proof {
            assert(perms@[i as int] == sub);
            assert forall|k: int| 0 <= k < i + 1 implies rkey(
                pos as int,
                bits as u64,
                #[trigger] perms@[k].0,
            ) < (1u64 << (bits as u64)) by {
                lemma_key_bound(perms@[k].0, MAGIC_ROOKS[pos as int], bits as u64);
            }
            assert forall|k: int, s: u64| 0 <= k < i + 1 implies (#[trigger] bit(
                table_at(table@, rkey(pos as int, bits as u64, perms@[k].0)),
                s,
            ) <==> rook_reaches(perms@[k].0, pos as u64, s)) by {
                if k < i {
                    assert(bit(table_at(snap_table, rkey(pos as int, bits as u64, perms@[k].0)), s)
                        <==> rook_reaches(perms@[k].0, pos as u64, s));
                    assert(table_at(table@, rkey(pos as int, bits as u64, perms@[k].0))
                        == table_at(snap_table, rkey(pos as int, bits as u64, perms@[k].0)));
                } else {
                    assert(table_at(table@, rkey(pos as int, bits as u64, sub.0)) == res.0);
                }
            }
            assert forall|k: int| 0 <= k < i + 1 implies written@[rkey(
                pos as int,
                bits as u64,
                #[trigger] perms@[k].0,
            ) as int] by {
                if k < i {
                    assert(snap_written[rkey(pos as int, bits as u64, perms@[k].0) as int]);
                }
            }
            assert forall|j: int| 0 <= j < size && #[trigger] written@[j] implies exists|k: int|
                0 <= k < i + 1 && rkey(pos as int, bits as u64, #[trigger] perms@[k].0) as int
                    == j by {
                if j == key as int {
                    assert(rkey(pos as int, bits as u64, perms@[i as int].0) as int == j);
                } else {
                    assert(snap_written[j]);
                    let k = choose|k: int|
                        0 <= k < i && rkey(pos as int, bits as u64, perms@[k].0) as int == j;
                    assert(rkey(pos as int, bits as u64, perms@[k].0) as int == j);
                }
            }
        }
        i += 1;
    }
    proof {
        assert forall|b: u64, s: u64| relevant_rook(b, pos as u64) implies (#[trigger] bit(
            table_at(table@, rkey(pos as int, bits as u64, b)),
            s,
        ) <==> rook_reaches(b, pos as u64, s)) by {
            assert(contains_board(perms@, b));
            let k = choose|k: int| 0 <= k < perms@.len() && perms@[k].0 == b;
            assert(bit(table_at(table@, rkey(pos as int, bits as u64, perms@[k].0)), s)
                <==> rook_reaches(perms@[k].0, pos as u64, s));
        }
    }
    Some(table)
}

fn fill_bishop_table(pos: u32, bits: u32) -> (r: Option<Vec<BitBoard>>)
    requires
        pos < 64,
        1 <= bits <= 16,
        bits as nat == popcount(bishop_mask_val(pos as int)),
    ensures
        match r {
            Some(t) => {
                &&& t@.len() == (1u64 << (bits as u64)) as int
                &&& forall|b: u64, s: u64|
                    relevant_bishop(b, pos as u64) ==> (#[trigger] bit(
                        table_at(t@, bkey(pos as int, bits as u64, b)),
                        s,
                    ) <==> bishop_reaches(b, pos as u64, s))
            },
            None => !bishop_magics_ok(),
        },
{
    let perms = MagicCache::gen_bishop(pos);
    let size: usize = 1usize << bits;
    proof {
        assert((1usize << bits) as int == (1u64 << (bits as u64)) as int) by (bit_vector)
            requires
                bits <= 16,
        ;
    }
    let mut table: Vec<BitBoard> = Vec::new();
    let mut written: Vec<bool> = Vec::new();
    let mut c: usize = 0;
    while c < size
        invariant
            c <= size,
            table@.len() == c,
            written@.len() == c,
            forall|j: int| 0 <= j < c ==> !(#[trigger] written@[j]),
        decreases size - c,
    {
        table.push(BitBoard(0));
        written.push(false);
        c += 1;
    }
    let n = perms.len();
    let mut i: usize = 0;
    while i < n
        invariant
            pos < 64,
            1 <= bits <= 16,
            bits as nat == popcount(bishop_mask_val(pos as int)),
            0 <= i <= n,
            n == perms@.len(),
            table@.len() == size,
            written@.len() == size,
            size as int == (1u64 << (bits as u64)) as int,
            forall|b: u64| contains_board(perms@, b) <==> relevant_bishop(b, pos as u64),
            forall|k: int, s: u64|
                0 <= k < i ==> (#[trigger] bit(
                    table_at(table@, bkey(pos as int, bits as u64, perms@[k].0)),
                    s,
                ) <==> bishop_reaches(perms@[k].0, pos as u64, s)),
            forall|k: int|
                0 <= k < i ==> written@[bkey(pos as int, bits as u64, #[trigger] perms@[k].0) as int],
            forall|j: int|
                0 <= j < size && #[trigger] written@[j] ==> exists|k: int|
                    0 <= k < i && bkey(pos as int, bits as u64, #[trigger] perms@[k].0) as int == j,
        decreases n - i,
    {
        let sub = perms[i];
        let res = MagicCache::solve_bishop(sub, pos);
        let key64 = sub.0.wrapping_mul(MAGIC_BISHOPS[pos as usize]) >> ((64 - bits) as u64);
        proof {
            lemma_key_bound(sub.0, MAGIC_BISHOPS[pos as int], bits as u64);
            assert(key64 == bkey(pos as int, bits as u64, sub.0));
        }
        let key = key64 as usize;
        let ghost snap_table = table@;
        let ghost snap_written = written@;
        if written[key] {
            if table[key].0 != res.0 {
                proof {
                    let j = key as int;
                    let k = choose|k: int|
                        0 <= k < i && bkey(pos as int, bits as u64, perms@[k].0) as int == j;
                    let b1 = perms@[k].0;
                    let b2 = sub.0;
                    let t1 = table_at(table@, bkey(pos as int, bits as u64, b1));
                    assert(contains_board(perms@, b1));
                    assert(contains_board(perms@, b2));
                    assert(bishop_key(pos as int, b1) == bkey(pos as int, bits as u64, b1));
                    assert(bishop_key(pos as int, b2) == bkey(pos as int, bits as u64, b2));
                    assert(bishop_key(pos as int, b1) == bishop_key(pos as int, b2));
                    if (forall|s: u64|
                        #[trigger] bishop_reaches(b1, pos as u64, s) <==> bishop_reaches(
                            b2,
                            pos as u64,
                            s,
                        )) {
                        assert forall|i2: u64| i2 < 64 implies (bit(t1, i2) <==> bit(
                            res.0,
                            i2,
                        )) by {
                            assert(bishop_reaches(b1, pos as u64, i2) <==> bishop_reaches(
                                b2,
                                pos as u64,
                                i2,
                            ));
                        }
                        crate::bits::lemma_bit_extensionality(t1, res.0);
                        assert(false);
                    }
                    assert(!bishop_magics_ok());
                }
                return None;
            }
        } else {
            let ghost old_written = written@;
            table.set(key, res);
            written.set(key, true);
            proof {
                assert forall|k: int| 0 <= k < i implies bkey(
                    pos as int,
                    bits as u64,
                    #[trigger] perms@[k].0,
                ) as int != key as int by {
                    assert(old_written[bkey(pos as int, bits as u64, perms@[k].0) as int]);
                }
            }
        }
        proof {
            assert(perms@[i as int] == sub);
            assert forall|k: int| 0 <= k < i + 1 implies bkey(
                pos as int,
                bits as u64,
                #[trigger] perms@[k].0,
            ) < (1u64 << (bits as u64)) by {
                lemma_key_bound(perms@[k].0, MAGIC_BISHOPS[pos as int], bits as u64);
            }
            assert forall|k: int, s: u64| 0 <= k < i + 1 implies (#[trigger] bit(
                table_at(table@, bkey(pos as int, bits as u64, perms@[k].0)),
                s,
            ) <==> bishop_reaches(perms@[k].0, pos as u64, s)) by {
                if k < i {
                    assert(bit(table_at(snap_table, bkey(pos as int, bits as u64, perms@[k].0)), s)
                        <==> bishop_reaches(perms@[k].0, pos as u64, s));
                    assert(table_at(table@, bkey(pos as int, bits as u64, perms@[k].0))
                        == table_at(snap_table, bkey(pos as int, bits as u64, perms@[k].0)));
                } else {
                    assert(table_at(table@, bkey(pos as int, bits as u64, sub.0)) == res.0);
                }
            }
            assert forall|k: int| 0 <= k < i + 1 implies written@[bkey(
                pos as int,
                bits as u64,
                #[trigger] perms@[k].0,
            ) as int] by {
                if k < i {
                    assert(snap_written[bkey(pos as int, bits as u64, perms@[k].0) as int]);
                }
            }
            assert forall|j: int| 0 <= j < size && #[trigger] written@[j] implies exists|k: int|
                0 <= k < i + 1 && bkey(pos as int, bits as u64, #[trigger] perms@[k].0) as int
                    == j by {
                if j == key as int {
                    assert(bkey(pos as int, bits as u64, perms@[i as int].0) as int == j);
                } else {
                    assert(snap_written[j]);
                    let k = choose|k: int|
                        0 <= k < i && bkey(pos as int, bits as u64, perms@[k].0) as int == j;
                    assert(bkey(pos as int, bits as u64, perms@[k].0) as int == j);
                }
            }
        }
        i += 1;
    }
    proof {
        assert forall|b: u64, s: u64| relevant_bishop(b, pos as u64) implies (#[trigger] bit(
            table_at(table@, bkey(pos as int, bits as u64, b)),
            s,
        ) <==> bishop_reaches(b, pos as u64, s)) by {
            assert(contains_board(perms@, b));
            let k = choose|k: int| 0 <= k < perms@.len() && perms@[k].0 == b;
            assert(bit(table_at(table@, bkey(pos as int, bits as u64, perms@[k].0)), s)
                <==> bishop_reaches(perms@[k].0, pos as u64, s));
        }
    }
    Some(table)
}

/// Masking an occupancy down to a rook's relevant squares does not change the
/// reachable set: edge and off-ray squares never matter.
#[verifier::rlimit(60)]
pub proof fn lemma_rook_reach_masked(occ: u64, m: u64, pos: u64)
    requires
        pos < 64,
        forall|s: u64| #[trigger] bit(m, s) <==> in_rook_mask(pos, s),
    ensures
        forall|s: u64| #[trigger] rook_reaches(occ & m, pos, s) <==> rook_reaches(occ, pos, s),
{
    let x = pos as int % 8;
    let y = pos as int / 8;
    assert forall|s: u64| #[trigger] rook_reaches(occ & m, pos, s) <==> rook_reaches(
        occ,
        pos,
        s,
    ) by {
        if s < 64 {
            let xs = s as int % 8;
            let ys = s as int / 8;
            assert forall|x3: int| strictly_between(x, xs, x3) implies (bit(
                occ & m,
                #[trigger] sq(x3, y),
            ) <==> bit(occ, sq(x3, y))) by {
                assert(in_rook_mask(pos, sq(x3, y)));
                assert(bit(m, sq(x3, y)));
                crate::bits::lemma_bit_and(occ, m, sq(x3, y));
            }
            assert forall|y3: int| strictly_between(y, ys, y3) implies (bit(
                occ & m,
                #[trigger] sq(x, y3),
            ) <==> bit(occ, sq(x, y3))) by {
                assert(in_rook_mask(pos, sq(x, y3)));
                assert(bit(m, sq(x, y3)));
                crate::bits::lemma_bit_and(occ, m, sq(x, y3));
            }
        }
    }
}

/// Masking an occupancy down to a bishop's relevant squares does not change
/// the reachable set.
#[verifier::rlimit(60)]
pub proof fn lemma_bishop_reach_masked(occ: u64, m: u64, pos: u64)
    requires
        pos < 64,
        forall|s: u64| #[trigger] bit(m, s) <==> in_bishop_mask(pos, s),
    ensures
        forall|s: u64| #[trigger] bishop_reaches(occ & m, pos, s) <==> bishop_reaches(occ, pos, s),
{
    let x = pos as int % 8;
    let y = pos as int / 8;
    assert forall|s: u64| #[trigger] bishop_reaches(occ & m, pos, s) <==> bishop_reaches(
        occ,
        pos,
        s,
    ) by {
        if s < 64 {
            let xs = s as int % 8;
            let ys = s as int / 8;
            if xs - x == ys - y {
                assert forall|x3: int| strictly_between(x, xs, x3) implies (bit(
                    occ & m,
                    #[trigger] sq(x3, y + (x3 - x)),
                ) <==> bit(occ, sq(x3, y + (x3 - x)))) by {
                    assert(in_bishop_mask(pos, sq(x3, y + (x3 - x))));
                    assert(bit(m, sq(x3, y + (x3 - x))));
                    crate::bits::lemma_bit_and(occ, m, sq(x3, y + (x3 - x)));
                }
            }
            if xs - x == -(ys - y) {
                assert forall|x3: int| strictly_between(x, xs, x3) implies (bit(
                    occ & m,
                    #[trigger] sq(x3, y - (x3 - x)),
                ) <==> bit(occ, sq(x3, y - (x3 - x)))) by {
                    assert(in_bishop_mask(pos, sq(x3, y - (x3 - x))));
                    assert(bit(m, sq(x3, y - (x3 - x))));
                    crate::bits::lemma_bit_and(occ, m, sq(x3, y - (x3 - x)));
                }
            }
        }
    }
}

/// The per-square occupancy masks, index widths, magic-hashed attack tables,
/// and square-pair ray tables for both sliding-piece families.
pub struct MagicCache {
    pub bishop_bits: Vec<u32>,
    pub rook_bits: Vec<u32>,
    pub bishop_masks: Vec<BitBoard>,
    pub rook_masks: Vec<BitBoard>,
    pub rook_cache: Vec<Vec<BitBoard>>,
    pub bishop_cache: Vec<Vec<BitBoard>>,
    pub rook_rays: Vec<BitBoard>,
    pub bishop_rays: Vec<BitBoard>,
}

impl MagicCache {
    /// Every mask is the square's relevant-occupancy set, every width is its
    /// mask's population count, and every table slot reachable from a
    /// relevant subset holds exactly the ray-cast attack set of that subset.
    pub open spec fn wf(&self) -> bool {
        &&& self.rook_masks@.len() == 64
        &&& self.bishop_masks@.len() == 64
        &&& self.rook_bits@.len() == 64
        &&& self.bishop_bits@.len() == 64
        &&& self.rook_cache@.len() == 64
        &&& self.bishop_cache@.len() == 64
        &&& self.rook_rays@.len() == 4096
        &&& self.bishop_rays@.len() == 4096
        &&& forall|p: int, s: u64|
            0 <= p < 64 ==> (#[trigger] bit(self.rook_masks@[p].0, s) <==> in_rook_mask(
                p as u64,
                s,
            ))
        &&& forall|p: int, s: u64|
            0 <= p < 64 ==> (#[trigger] bit(self.bishop_masks@[p].0, s) <==> in_bishop_mask(
                p as u64,
                s,
            ))
        &&& forall|p: int|
            0 <= p < 64 ==> (1 <= #[trigger] self.rook_bits@[p] <= 16 && self.rook_bits@[p] as nat
                == popcount(rook_mask_val(p)))
        &&& forall|p: int|
            0 <= p < 64 ==> (1 <= #[trigger] self.bishop_bits@[p] <= 16
                && self.bishop_bits@[p] as nat == popcount(bishop_mask_val(p)))
        &&& forall|p: int|
            0 <= p < 64 ==> (#[trigger] self.rook_cache@[p])@.len() == (1u64 << (
            self.rook_bits@[p] as u64)) as int
        &&& forall|p: int|
            0 <= p < 64 ==> (#[trigger] self.bishop_cache@[p])@.len() == (1u64 << (
            self.bishop_bits@[p] as u64)) as int
        &&& forall|p: int, b: u64, s: u64|
            0 <= p < 64 && relevant_rook(b, p as u64) ==> (#[trigger] bit(
                table_at(self.rook_cache@[p]@, rkey(p, self.rook_bits@[p] as u64, b)),
                s,
            ) <==> rook_reaches(b, p as u64, s))
        &&& forall|p: int, b: u64, s: u64|
            0 <= p < 64 && relevant_bishop(b, p as u64) ==> (#[trigger] bit(
                table_at(self.bishop_cache@[p]@, bkey(p, self.bishop_bits@[p] as u64, b)),
                s,
            ) <==> bishop_reaches(b, p as u64, s))
        &&& forall|q: int, s: u64|
            0 <= q < 4096 ==> (#[trigger] bit(self.rook_rays@[q].0, s) <==> rook_ray_member(
                (q / 64) as u64,
                (q % 64) as u64,
                s,
            ))
        &&& forall|q: int, s: u64|
            0 <= q < 4096 ==> (#[trigger] bit(self.bishop_rays@[q].0, s) <==> bishop_ray_member(
                (q / 64) as u64,
                (q % 64) as u64,
                s,
            ))
    }

    /// Build every mask, table, and ray entry. Returns nothing exactly when
    /// some fixed multiplier maps two relevant subsets with different attack
    /// sets to the same slot; such a conflict is detected during the build
    /// and aborts it.
    pub fn new() -> (r: Option<MagicCache>)
        ensures
            r matches Some(c) ==> c.wf() && magics_ok(),
            r is None ==> !magics_ok(),
    {
        let mut rook_bits: Vec<u32> = Vec::new();
        let mut bishop_bits: Vec<u32> = Vec::new();
        let mut rook_masks: Vec<BitBoard> = Vec::new();
        let mut bishop_masks: Vec<BitBoard> = Vec::new();
        for pos in 0..64u32
            invariant
                rook_bits@.len() == pos,
                bishop_bits@.len() == pos,
                rook_masks@.len() == pos,
                bishop_masks@.len() == pos,
                forall|p: int, s: u64|
                    0 <= p < pos ==> (#[trigger] bit(rook_masks@[p].0, s) <==> in_rook_mask(
                        p as u64,
                        s,
                    )),
                forall|p: int, s: u64|
                    0 <= p < pos ==> (#[trigger] bit(bishop_masks@[p].0, s) <==> in_bishop_mask(
                        p as u64,
                        s,
                    )),
                forall|p: int|
                    0 <= p < pos ==> (1 <= #[trigger] rook_bits@[p] <= 16 && rook_bits@[p] as nat
                        == popcount(rook_mask_val(p))),
                forall|p: int|
                    0 <= p < pos ==> (1 <= #[trigger] bishop_bits@[p] <= 16
                        && bishop_bits@[p] as nat == popcount(bishop_mask_val(p))),
        {
            let rm = Self::rook_mask(pos);
            let bm = Self::bishop_mask(pos);
            let rb = rm.count();
            let bb = bm.count();
            proof {
                assert(is_rook_mask_of(rm.0, pos as int));
                assert(is_bishop_mask_of(bm.0, pos as int));
                let mv = rook_mask_val(pos as int);
                assert(is_rook_mask_of(mv, pos as int));
                assert forall|i2: u64| i2 < 64 implies (bit(mv, i2) <==> bit(rm.0, i2)) by {}
                crate::bits::lemma_bit_extensionality(mv, rm.0);
                let bv = bishop_mask_val(pos as int);
                assert(is_bishop_mask_of(bv, pos as int));
                assert forall|i2: u64| i2 < 64 implies (bit(bv, i2) <==> bit(bm.0, i2)) by {}
                crate::bits::lemma_bit_extensionality(bv, bm.0);
                lemma_rook_mask_popcount(rm.0, pos as u64);
                lemma_bishop_mask_popcount(bm.0, pos as u64);
                crate::bits::lemma_popcount_nonzero(rm.0);
                crate::bits::lemma_popcount_nonzero(bm.0);
            }
            rook_masks.push(rm);
            bishop_masks.push(bm);
            rook_bits.push(rb);
            bishop_bits.push(bb);
        }
        let mut rook_cache: Vec<Vec<BitBoard>> = Vec::new();
        let mut bishop_cache: Vec<Vec<BitBoard>> = Vec::new();
        for pos in 0..64u32
            invariant
                rook_bits@.len() == 64,
                bishop_bits@.len() == 64,
                forall|p: int|
                    0 <= p < 64 ==> (1 <= #[trigger] rook_bits@[p] <= 16 && rook_bits@[p] as nat
                        == popcount(rook_mask_val(p))),
                forall|p: int|
                    0 <= p < 64 ==> (1 <= #[trigger] bishop_bits@[p] <= 16
                        && bishop_bits@[p] as nat == popcount(bishop_mask_val(p))),
                rook_cache@.len() == pos,
                bishop_cache@.len() == pos,
                forall|p: int|
                    0 <= p < pos ==> (#[trigger] rook_cache@[p])@.len() == (1u64 << (
                    rook_bits@[p] as u64)) as int,
                forall|p: int|
                    0 <= p < pos ==> (#[trigger] bishop_cache@[p])@.len() == (1u64 << (
                    bishop_bits@[p] as u64)) as int,
                forall|p: int, b: u64, s: u64|
                    0 <= p < pos && relevant_rook(b, p as u64) ==> (#[trigger] bit(
                        table_at(rook_cache@[p]@, rkey(p, rook_bits@[p] as u64, b)),
                        s,
                    ) <==> rook_reaches(b, p as u64, s)),
                forall|p: int, b: u64, s: u64|
                    0 <= p < pos && relevant_bishop(b, p as u64) ==> (#[trigger] bit(
                        table_at(bishop_cache@[p]@, bkey(p, bishop_bits@[p] as u64, b)),
                        s,
                    ) <==> bishop_reaches(b, p as u64, s)),
        {
            let rt_opt = fill_rook_table(pos, rook_bits[pos as usize]);
            let rt = match rt_opt {
                Some(t) => t,
                None => {
                    return None;
                },
            };
            let bt_opt = fill_bishop_table(pos, bishop_bits[pos as usize]);
            let bt = match bt_opt {
                Some(t) => t,
                None => {
                    return None;
                },
            };
            rook_cache.push(rt);
            bishop_cache.push(bt);
        }
        let rook_rays = Self::gen_rook_rays();
        let bishop_rays = Self::gen_bishop_rays();
        let c = MagicCache {
            bishop_bits,
            rook_bits,
            bishop_masks,
            rook_masks,
            rook_cache,
            bishop_cache,
            rook_rays,
            bishop_rays,
        };
        proof {
            assert(c.wf());
            lemma_wf_implies_magics_ok(&c);
        }
        Some(c)
    }

    /// The relevant-occupancy mask for a rook on `pos`.
    pub fn rook_mask(pos: u32) -> (r: BitBoard)
        requires
            pos < 64,
        ensures
            forall|s: u64| #[trigger] bit(r.0, s) <==> in_rook_mask(pos as u64, s),
            r.0 != 0,
    {
        let x = (pos % 8) as i32;
        let y = (pos / 8) as i32;
        let mut bb = BitBoard::new_empty();
        for s in 0..64u32
            invariant
                pos < 64,
                x == pos as int % 8,
                y == pos as int / 8,
                forall|t: u64| #[trigger] bit(bb.0, t) <==> (t < s && in_rook_mask(pos as u64, t)),
        {
            let xs = (s % 8) as i32;
            let ys = (s / 8) as i32;
            if s != pos && ((ys == y && 1 <= xs && xs <= 6) || (xs == x && 1 <= ys && ys <= 6)) {
                let ghost prev = bb.0;
                bb = bb.add_pos(s);
                proof {
                    assert forall|t: u64| #[trigger] bit(bb.0, t) <==> (bit(prev, t) || t
                        == s as u64) by {
                        crate::bits::lemma_bit_or(prev, 1u64 << (s as u64), t);
                        crate::bits::lemma_bit_single(s as u64, t);
                    }
                }
            }
        }
        proof {
            let x = pos as int % 8;
            let y = pos as int / 8;
            let wx: int = if x <= 5 {
                x + 1
            } else {
                1
            };
            assert(in_rook_mask(pos as u64, sq(wx, y)));
            assert(bit(bb.0, sq(wx, y)));
        }
        bb
    }

    /// The relevant-occupancy mask for a bishop on `pos`.
    pub fn bishop_mask(pos: u32) -> (r: BitBoard)
        requires
            pos < 64,
        ensures
            forall|s: u64| #[trigger] bit(r.0, s) <==> in_bishop_mask(pos as u64, s),
            r.0 != 0,
    {
        let x = (pos % 8) as i32;
        let y = (pos / 8) as i32;
        let mut bb = BitBoard::new_empty();
        for s in 0..64u32
            invariant
                pos < 64,
                x == pos as int % 8,
                y == pos as int / 8,
                forall|t: u64| #[trigger] bit(bb.0, t) <==> (t < s && in_bishop_mask(pos as u64, t)),
        {
            let xs = (s % 8) as i32;
            let ys = (s / 8) as i32;
            let dx = xs - x;
            let dy = ys - y;
            if s != pos && (dx == dy || dx == -dy) && 1 <= xs && xs <= 6 && 1 <= ys && ys <= 6 {
                let ghost prev = bb.0;
                bb = bb.add_pos(s);
                proof {
                    assert forall|t: u64| #[trigger] bit(bb.0, t) <==> (bit(prev, t) || t
                        == s as u64) by {
                        crate::bits::lemma_bit_or(prev, 1u64 << (s as u64), t);
                        crate::bits::lemma_bit_single(s as u64, t);
                    }
                }
            }
        }
        proof {
            let x = pos as int % 8;
            let y = pos as int / 8;
            let wx: int = if x <= 5 {
                x + 1
            } else {
                x - 1
            };
            let wy: int = if y <= 5 {
                y + 1
            } else {
                y - 1
            };
            assert(in_bishop_mask(pos as u64, sq(wx, wy)));
            assert(bit(bb.0, sq(wx, wy)));
        }
        bb
    }

    /// The reference ray-cast attack set of a rook on `pos` through occupancy
    /// `mask`, first blocker included.
    pub fn solve_rook(mask: BitBoard, pos: u32) -> (r: BitBoard)
        requires
            pos < 64,
        ensures
            forall|s: u64| #[trigger] bit(r.0, s) <==> rook_reaches(mask.0, pos as u64, s),
    {
        let x = (pos % 8) as i32;
        let y = (pos / 8) as i32;
        let mut bb = BitBoard::new_empty();
        for s in 0..64u32
            invariant
                pos < 64,
                x == pos as int % 8,
                y == pos as int / 8,
                forall|t: u64| #[trigger] bit(bb.0, t) <==> (t < s && rook_reaches(
                    mask.0,
                    pos as u64,
                    t,
                )),
        {
            let xs = (s % 8) as i32;
            let ys = (s / 8) as i32;
            let reach = if ys == y && xs != x {
                rank_clear(mask.0, y, x, xs)
            } else if xs == x && ys != y {
                file_clear(mask.0, x, y, ys)
            } else {
                false
            };
            if reach {
                let ghost prev = bb.0;
                bb = bb.add_pos(s);
                proof {
                    assert forall|t: u64| #[trigger] bit(bb.0, t) <==> (bit(prev, t) || t
                        == s as u64) by {
                        crate::bits::lemma_bit_or(prev, 1u64 << (s as u64), t);
                        crate::bits::lemma_bit_single(s as u64, t);
                    }
                }
            }
        }
        bb
    }

    /// The reference ray-cast attack set of a bishop on `pos` through occupancy
    /// `mask`, first blocker included.
    pub fn solve_bishop(mask: BitBoard, pos: u32) -> (r: BitBoard)
        requires
            pos < 64,
        ensures
            forall|s: u64| #[trigger] bit(r.0, s) <==> bishop_reaches(mask.0, pos as u64, s),
    {
        let x = (pos % 8) as i32;
        let y = (pos / 8) as i32;
        let mut bb = BitBoard::new_empty();
        for s in 0..64u32
            invariant
                pos < 64,
                x == pos as int % 8,
                y == pos as int / 8,
                forall|t: u64| #[trigger] bit(bb.0, t) <==> (t < s && bishop_reaches(
                    mask.0,
                    pos as u64,
                    t,
                )),
        {
            let xs = (s % 8) as i32;
            let ys = (s / 8) as i32;
            let reach = if xs - x == ys - y && xs != x {
                diag_clear(mask.0, x, y, xs, ys)
            } else if xs - x == -(ys - y) && xs != x {
                anti_clear(mask.0, x, y, xs, ys)
            } else {
                false
            };
            if reach {
                let ghost prev = bb.0;
                bb = bb.add_pos(s);
                proof {
                    assert forall|t: u64| #[trigger] bit(bb.0, t) <==> (bit(prev, t) || t
                        == s as u64) by {
                        crate::bits::lemma_bit_or(prev, 1u64 << (s as u64), t);
                        crate::bits::lemma_bit_single(s as u64, t);
                    }
                }
            }
        }
        bb
    }

    /// All occupancy subsets relevant to a rook on `pos`: the complete,
    /// duplicate-free enumeration, one entry per subset of the mask, starting
    /// from the empty set.
    pub fn gen_rook(pos: u32) -> (r: Vec<BitBoard>)
        requires
            pos < 64,
        ensures
            forall|b: u64| contains_board(r@, b) <==> relevant_rook(b, pos as u64),
            r@.len() == vstd::arithmetic::power2::pow2(popcount(rook_mask_val(pos as int))),
            r@.no_duplicates(),
            r@[0].0 == 0,
    {
        let mask = Self::rook_mask(pos);
        let r = subsets_of(mask);
        proof {
            assert forall|b: u64| contains_board(r@, b) <==> relevant_rook(b, pos as u64) by {
                crate::bits::lemma_subset_masked(b, mask.0);
            }
            assert(is_rook_mask_of(mask.0, pos as int));
            let mv = rook_mask_val(pos as int);
            assert(is_rook_mask_of(mv, pos as int));
            assert forall|i2: u64| i2 < 64 implies (bit(mv, i2) <==> bit(mask.0, i2)) by {}
            crate::bits::lemma_bit_extensionality(mv, mask.0);
        }
        r
    }

    /// All occupancy subsets relevant to a bishop on `pos`: the complete,
    /// duplicate-free enumeration, one entry per subset of the mask, starting
    /// from the empty set.
    pub fn gen_bishop(pos: u32) -> (r: Vec<BitBoard>)
        requires
            pos < 64,
        ensures
            forall|b: u64| contains_board(r@, b) <==> relevant_bishop(b, pos as u64),
            r@.len() == vstd::arithmetic::power2::pow2(popcount(bishop_mask_val(pos as int))),
            r@.no_duplicates(),
            r@[0].0 == 0,
    {
        let mask = Self::bishop_mask(pos);
        let r = subsets_of(mask);
        proof {
            assert forall|b: u64| contains_board(r@, b) <==> relevant_bishop(b, pos as u64) by {
                crate::bits::lemma_subset_masked(b, mask.0);
            }
            assert(is_bishop_mask_of(mask.0, pos as int));
            let mv = bishop_mask_val(pos as int);
            assert(is_bishop_mask_of(mv, pos as int));
            assert forall|i2: u64| i2 < 64 implies (bit(mv, i2) <==> bit(mask.0, i2)) by {}
            crate::bits::lemma_bit_extensionality(mv, mask.0);
        }
        r
    }

    /// All 64 x 64 rook-family ray entries, indexed by `origin * 64 + other`.
    pub fn gen_rook_rays() -> (r: Vec<BitBoard>)
        ensures
            r@.len() == 4096,
            forall|q: int, s: u64| 0 <= q < 4096 ==> (#[trigger] bit(r@[q].0, s) <==> rook_ray_member(
                (q / 64) as u64,
                (q % 64) as u64,
                s,
            )),
    {
        let mut r: Vec<BitBoard> = Vec::new();
        for q in 0..4096u32
            invariant
                r@.len() == q,
                forall|q2: int, s: u64| 0 <= q2 < q ==> (#[trigger] bit(r@[q2].0, s)
                    <==> rook_ray_member((q2 / 64) as u64, (q2 % 64) as u64, s)),
        {
            r.push(rook_ray_entry(q / 64, q % 64));
        }
        r
    }

    /// All 64 x 64 bishop-family ray entries, indexed by `origin * 64 + other`.
    pub fn gen_bishop_rays() -> (r: Vec<BitBoard>)
        ensures
            r@.len() == 4096,
            forall|q: int, s: u64| 0 <= q < 4096 ==> (#[trigger] bit(r@[q].0, s)
                <==> bishop_ray_member((q / 64) as u64, (q % 64) as u64, s)),
    {
        let mut r: Vec<BitBoard> = Vec::new();
        for q in 0..4096u32
            invariant
                r@.len() == q,
                forall|q2: int, s: u64| 0 <= q2 < q ==> (#[trigger] bit(r@[q2].0, s)
                    <==> bishop_ray_member((q2 / 64) as u64, (q2 % 64) as u64, s)),
        {
            r.push(bishop_ray_entry(q / 64, q % 64));
        }
        r
    }

    /// The squares a rook-type slider on `pos` can reach through `occupancy`,
    /// answered from the dense table: the same set a direct ray-cast yields.
    pub fn rook_moves(&self, pos: u32, occupancy: BitBoard) -> (r: BitBoard)
        requires
            self.wf(),
            pos < 64,
        ensures
            forall|s: u64| #[trigger] bit(r.0, s) <==> rook_reaches(occupancy.0, pos as u64, s),
    {
        let mask = self.rook_masks[pos as usize];
        let masked = occupancy.intersect(mask);
        let bits = self.rook_bits[pos as usize];
        let key64 = masked.0.wrapping_mul(MAGIC_ROOKS[pos as usize]) >> ((64 - bits) as u64);
        proof {
            lemma_key_bound(masked.0, MAGIC_ROOKS[pos as int], bits as u64);
            crate::bits::lemma_mask_facts(occupancy.0, mask.0);
            crate::bits::lemma_subset_masked(masked.0, mask.0);
            assert(relevant_rook(masked.0, pos as u64));
            assert(key64 == rkey(pos as int, bits as u64, masked.0));
            lemma_rook_reach_masked(occupancy.0, mask.0, pos as u64);
            assert(key64 < 65536) by (bit_vector)
                requires
                    key64 < (1u64 << (bits as u64)),
                    bits <= 16,
            ;
        }
        let r = self.rook_cache[pos as usize][key64 as usize];
        proof {
            assert(r.0 == table_at(
                self.rook_cache@[pos as int]@,
                rkey(pos as int, bits as u64, masked.0),
            ));
            assert forall|s: u64| #[trigger] bit(r.0, s) <==> rook_reaches(
                occupancy.0,
                pos as u64,
                s,
            ) by {
                assert(bit(
                    table_at(
                        self.rook_cache@[pos as int]@,
                        rkey(pos as int, self.rook_bits@[pos as int] as u64, masked.0),
                    ),
                    s,
                ) <==> rook_reaches(masked.0, pos as u64, s));
                assert(rook_reaches(occupancy.0 & mask.0, pos as u64, s) <==> rook_reaches(
                    occupancy.0,
                    pos as u64,
                    s,
                ));
            }
        }
        r
    }

    /// The squares a bishop-type slider on `pos` can reach through
    /// `occupancy`, answered from the dense table.
    pub fn bishop_moves(&self, pos: u32, occupancy: BitBoard) -> (r: BitBoard)
        requires
            self.wf(),
            pos < 64,
        ensures
            forall|s: u64| #[trigger] bit(r.0, s) <==> bishop_reaches(occupancy.0, pos as u64, s),
    {
        let mask = self.bishop_masks[pos as usize];
        let masked = occupancy.intersect(mask);
        let bits = self.bishop_bits[pos as usize];
        let key64 = masked.0.wrapping_mul(MAGIC_BISHOPS[pos as usize]) >> ((64 - bits) as u64);
        proof {
            lemma_key_bound(masked.0, MAGIC_BISHOPS[pos as int], bits as u64);
            crate::bits::lemma_mask_facts(occupancy.0, mask.0);
            crate::bits::lemma_subset_masked(masked.0, mask.0);
            assert(relevant_bishop(masked.0, pos as u64));
            assert(key64 == bkey(pos as int, bits as u64, masked.0));
            lemma_bishop_reach_masked(occupancy.0, mask.0, pos as u64);
            assert(key64 < 65536) by (bit_vector)
                requires
                    key64 < (1u64 << (bits as u64)),
                    bits <= 16,
            ;
        }
        let r = self.bishop_cache[pos as usize][key64 as usize];
        proof {
            assert(r.0 == table_at(
                self.bishop_cache@[pos as int]@,
                bkey(pos as int, bits as u64, masked.0),
            ));
            assert forall|s: u64| #[trigger] bit(r.0, s) <==> bishop_reaches(
                occupancy.0,
                pos as u64,
                s,
            ) by {
                assert(bit(
                    table_at(
                        self.bishop_cache@[pos as int]@,
                        bkey(pos as int, self.bishop_bits@[pos as int] as u64, masked.0),
                    ),
                    s,
                ) <==> bishop_reaches(masked.0, pos as u64, s));
                assert(bishop_reaches(occupancy.0 & mask.0, pos as u64, s) <==> bishop_reaches(
                    occupancy.0,
                    pos as u64,
                    s,
                ));
            }
        }
        r
    }

    /// The rank-or-file ray squares from `pos` through `other`, inclusive of
    /// `other`; empty when the two squares share no rank or file.
    pub fn rook_ray(&self, pos: u32, other: u32) -> (r: BitBoard)
        requires
            self.wf(),
            pos < 64,
            other < 64,
        ensures
            forall|s: u64| #[trigger] bit(r.0, s) <==> rook_ray_member(
                pos as u64,
                other as u64,
                s,
            ),
    {
        let r = self.rook_rays[(pos * 64 + other) as usize];
        proof {
            let q = (pos * 64 + other) as int;
            assert(q / 64 == pos as int && q % 64 == other as int);
        }
        r
    }

    /// The diagonal ray squares from `pos` through `other`, inclusive of
    /// `other`; empty when the two squares share no diagonal.
    pub fn bishop_ray(&self, pos: u32, other: u32) -> (r: BitBoard)
        requires
            self.wf(),
            pos < 64,
            other < 64,
        ensures
            forall|s: u64| #[trigger] bit(r.0, s) <==> bishop_ray_member(
                pos as u64,
                other as u64,
                s,
            ),
    {
        let r = self.bishop_rays[(pos * 64 + other) as usize];
        proof {
            let q = (pos * 64 + other) as int;
            assert(q / 64 == pos as int && q % 64 == other as int);
        }
        r
    }
}

/// Collision-freedom of the fixed multipliers: a cache that satisfies its
/// invariant certifies that, on every square, any two relevant occupancy
/// subsets hashing to the same slot have equal reference attack sets.
pub proof fn lemma_wf_implies_magics_ok(c: &MagicCache)
    requires
        c.wf(),
    ensures
        magics_ok(),
{
    assert forall|p: int, b1: u64, b2: u64|
        (0 <= p < 64 && relevant_rook(b1, p as u64) && relevant_rook(b2, p as u64)
            && #[trigger] rook_key(p, b1) == #[trigger] rook_key(p, b2)) implies (forall|s: u64|
        #[trigger] rook_reaches(b1, p as u64, s) <==> rook_reaches(b2, p as u64, s)) by {
        let bits = c.rook_bits@[p] as u64;
        assert(rook_key(p, b1) == rkey(p, bits, b1));
        assert(rook_key(p, b2) == rkey(p, bits, b2));
        assert forall|s: u64| #[trigger] rook_reaches(b1, p as u64, s) <==> rook_reaches(
            b2,
            p as u64,
            s,
        ) by {
            assert(bit(table_at(c.rook_cache@[p]@, rkey(p, bits, b1)), s) <==> rook_reaches(
                b1,
                p as u64,
                s,
            ));
            assert(bit(table_at(c.rook_cache@[p]@, rkey(p, bits, b2)), s) <==> rook_reaches(
                b2,
                p as u64,
                s,
            ));
        }
    }
    assert forall|p: int, b1: u64, b2: u64|
        (0 <= p < 64 && relevant_bishop(b1, p as u64) && relevant_bishop(b2, p as u64)
            && #[trigger] bishop_key(p, b1) == #[trigger] bishop_key(p, b2)) implies (forall|
        s: u64,
    |
        #[trigger] bishop_reaches(b1, p as u64, s) <==> bishop_reaches(b2, p as u64, s)) by {
        let bits = c.bishop_bits@[p] as u64;
        assert(bishop_key(p, b1) == bkey(p, bits, b1));
        assert(bishop_key(p, b2) == bkey(p, bits, b2));
        assert forall|s: u64| #[trigger] bishop_reaches(b1, p as u64, s) <==> bishop_reaches(
            b2,
            p as u64,
            s,
        ) by {
            assert(bit(table_at(c.bishop_cache@[p]@, bkey(p, bits, b1)), s) <==> bishop_reaches(
                b1,
                p as u64,
                s,
            ));
            assert(bit(table_at(c.bishop_cache@[p]@, bkey(p, bits, b2)), s) <==> bishop_reaches(
                b2,
                p as u64,
                s,
            ));
        }
    }
}

/// The count of relevant-occupancy squares a rook's mask holds on rank `k`.
pub open spec fn rook_rank_contrib(pos: u64, k: int) -> int {
    let x = pos as int % 8;
    let y = pos as int / 8;
    if k == y {
        if 1 <= x <= 6 {
            5
        } else {
            6
        }
    } else if 1 <= k <= 6 {
        1
    } else {
        0
    }
}

proof fn rook_slice_count(m: u64, pos: u64, k: int)
    requires
        pos < 64,
        forall|s: u64| #[trigger] bit(m, s) <==> in_rook_mask(pos, s),
        0 <= k < 8,
    ensures
        pop_below(m, 8 * k + 8) == pop_below(m, 8 * k) + rook_rank_contrib(pos, k),
{
    let x = pos as int % 8;
    let y = pos as int / 8;
    assert forall|i: u64| 8 * k <= i < 8 * k + 8 && #[trigger] bit(m, i) implies (i as int / 8 == k
        && (i as int == 8 * k + (i as int % 8))) by {
        assert(in_rook_mask(pos, i));
    }
    if k == y {
        crate::bits::lemma_pop_flat(m, 8 * k, 8 * k + 1);
        if 1 <= x <= 6 {
            assert forall|i: u64| 8 * k + 1 <= i < 8 * k + x implies bit(m, i) by {
                assert(in_rook_mask(pos, i));
            }
            crate::bits::lemma_pop_full(m, 8 * k + 1, 8 * k + x);
            crate::bits::lemma_pop_flat(m, 8 * k + x, 8 * k + x + 1);
            assert forall|i: u64| 8 * k + x + 1 <= i < 8 * k + 7 implies bit(m, i) by {
                assert(in_rook_mask(pos, i));
            }
            crate::bits::lemma_pop_full(m, 8 * k + x + 1, 8 * k + 7);
        } else {
            assert forall|i: u64| 8 * k + 1 <= i < 8 * k + 7 implies bit(m, i) by {
                assert(in_rook_mask(pos, i));
            }
            crate::bits::lemma_pop_full(m, 8 * k + 1, 8 * k + 7);
        }
        crate::bits::lemma_pop_flat(m, 8 * k + 7, 8 * k + 8);
    } else if 1 <= k <= 6 {
        crate::bits::lemma_pop_flat(m, 8 * k, 8 * k + x);
        assert(in_rook_mask(pos, (8 * k + x) as u64));
        assert(bit(m, (8 * k + x) as u64));
        assert(pop_below(m, 8 * k + x + 1) == pop_below(m, 8 * k + x) + 1);
        crate::bits::lemma_pop_flat(m, 8 * k + x + 1, 8 * k + 8);
    } else {
        crate::bits::lemma_pop_flat(m, 8 * k, 8 * k + 8);
    }
}

/// Mask-size correctness for rook masks: the number of relevant-occupancy
/// squares is five or six along the rank plus five or six along the file,
/// edge coordinates having the larger share excluded; edge squares thus have
/// fewer relevant bits than central ones.
pub proof fn lemma_rook_mask_popcount(m: u64, pos: u64)
    requires
        pos < 64,
        forall|s: u64| #[trigger] bit(m, s) <==> in_rook_mask(pos, s),
    ensures
        popcount(m) == (if 1 <= pos as int % 8 <= 6 {
            5int
        } else {
            6int
        }) + (if 1 <= pos as int / 8 <= 6 {
            5int
        } else {
            6int
        }),
{
    rook_slice_count(m, pos, 0);
    rook_slice_count(m, pos, 1);
    rook_slice_count(m, pos, 2);
    rook_slice_count(m, pos, 3);
    rook_slice_count(m, pos, 4);
    rook_slice_count(m, pos, 5);
    rook_slice_count(m, pos, 6);
    rook_slice_count(m, pos, 7);
}

/// The count of relevant-occupancy squares a bishop's mask holds on rank
/// `k`: one for each diagonal whose crossing file stays off the edges.
pub open spec fn bishop_rank_contrib(pos: u64, k: int) -> int {
    let x = pos as int % 8;
    let y = pos as int / 8;
    let d = if k >= y {
        k - y
    } else {
        y - k
    };
    if k < 1 || k > 6 || k == y {
        0
    } else {
        (if 1 <= x - d && x - d <= 6 {
            1int
        } else {
            0int
        }) + (if 1 <= x + d && x + d <= 6 {
            1int
        } else {
            0int
        })
    }
}

#[verifier::rlimit(100)]
proof fn bishop_slice_count(m: u64, pos: u64, k: int)
    requires
        pos < 64,
        forall|s: u64| #[trigger] bit(m, s) <==> in_bishop_mask(pos, s),
        0 <= k < 8,
    ensures
        pop_below(m, 8 * k + 8) == pop_below(m, 8 * k) + bishop_rank_contrib(pos, k),
{
    let x = pos as int % 8;
    let y = pos as int / 8;
    let d = if k >= y {
        k - y
    } else {
        y - k
    };
    let lo = 8 * k + (x - d);
    let hi = 8 * k + (x + d);
    let has_lo = 1 <= k <= 6 && k != y && 1 <= x - d <= 6;
    let has_hi = 1 <= k <= 6 && k != y && 1 <= x + d <= 6;
    assert forall|i: u64|
        8 * k <= i < 8 * k + 8 && #[trigger] bit(m, i) implies ((has_lo && i as int == lo) || (
    has_hi && i as int == hi)) by {
        assert(in_bishop_mask(pos, i));
        assert(i as int == 8 * (i as int / 8) + (i as int % 8));
    }
    if has_lo {
        assert(in_bishop_mask(pos, lo as u64));
        assert(bit(m, lo as u64));
    }
    if has_hi {
        assert(in_bishop_mask(pos, hi as u64));
        assert(bit(m, hi as u64));
    }
    if has_lo && has_hi {
        crate::bits::lemma_pop_exact_two(m, 8 * k, lo, hi, 8 * k + 8);
    } else if has_lo {
        crate::bits::lemma_pop_exact_one(m, 8 * k, lo, 8 * k + 8);
    } else if has_hi {
        crate::bits::lemma_pop_exact_one(m, 8 * k, hi, 8 * k + 8);
    } else {
        crate::bits::lemma_pop_flat(m, 8 * k, 8 * k + 8);
    }
}

/// Mask-size correctness for bishop masks: the number of relevant-occupancy
/// squares is the sum, over the seven other ranks, of the diagonal crossings
/// that stay off every board edge.
pub proof fn lemma_bishop_mask_popcount(m: u64, pos: u64)
    requires
        pos < 64,
        forall|s: u64| #[trigger] bit(m, s) <==> in_bishop_mask(pos, s),
    ensures
        popcount(m) == bishop_rank_contrib(pos, 0) + bishop_rank_contrib(pos, 1)
            + bishop_rank_contrib(pos, 2) + bishop_rank_contrib(pos, 3) + bishop_rank_contrib(
            pos,
            4,
        ) + bishop_rank_contrib(pos, 5) + bishop_rank_contrib(pos, 6) + bishop_rank_contrib(pos, 7),
{
    bishop_slice_count(m, pos, 0);
    bishop_slice_count(m, pos, 1);
    bishop_slice_count(m, pos, 2);
    bishop_slice_count(m, pos, 3);
    bishop_slice_count(m, pos, 4);
    bishop_slice_count(m, pos, 5);
    bishop_slice_count(m, pos, 6);
    bishop_slice_count(m, pos, 7);
}

} // verus!
