use chessmoves::{BitBoard, MagicCache};

const BISHOP_BITS: [u32; 64] = [
    6, 5, 5, 5, 5, 5, 5, 6, 5, 5, 5, 5, 5, 5, 5, 5, 5, 5, 7, 7, 7, 7, 5, 5, 5, 5, 7, 9, 9, 7, 5,
    5, 5, 5, 7, 9, 9, 7, 5, 5, 5, 5, 7, 7, 7, 7, 5, 5, 5, 5, 5, 5, 5, 5, 5, 5, 6, 5, 5, 5, 5, 5,
    5, 6,
];

#[test]
fn mask_popcounts_match_reference() {
    // rook relevant bits: the off-edge rank squares plus the off-edge file
    // squares, the piece's own square excluded
    for pos in 0..64u32 {
        let x = pos % 8;
        let y = pos / 8;
        let xpart = if (1..=6).contains(&x) { 5 } else { 6 };
        let ypart = if (1..=6).contains(&y) { 5 } else { 6 };
        assert_eq!(MagicCache::rook_mask(pos).count(), xpart + ypart);
        assert_eq!(MagicCache::bishop_mask(pos).count(), BISHOP_BITS[pos as usize]);
    }
}

#[test]
fn magic_construction_is_collision_free() {
    // every subset of every mask lands in its own slot or one holding the
    // same attack set, for both families, or the build would return nothing
    assert!(MagicCache::new().is_some());
}

#[test]
fn subset_enumeration_is_complete() {
    for pos in [0u32, 27, 63, 12] {
        let perms = MagicCache::gen_rook(pos);
        let mask = MagicCache::rook_mask(pos);
        assert_eq!(perms.len(), 1usize << mask.count());
        for p in &perms {
            assert_eq!(p.intersect(mask).0, p.0);
        }
        let bperms = MagicCache::gen_bishop(pos);
        assert_eq!(bperms.len(), 1usize << MagicCache::bishop_mask(pos).count());
    }
}

#[test]
fn table_query_equals_ray_cast() {
    let cache = MagicCache::new().unwrap();
    // exhaustive over every relevant subset of two squares, and spot checks
    // with occupancy outside the mask
    for pos in [0u32, 27] {
        for sub in MagicCache::gen_rook(pos) {
            assert_eq!(cache.rook_moves(pos, sub).0, MagicCache::solve_rook(sub, pos).0);
        }
        for sub in MagicCache::gen_bishop(pos) {
            assert_eq!(cache.bishop_moves(pos, sub).0, MagicCache::solve_bishop(sub, pos).0);
        }
    }
    let occs = [
        BitBoard(0),
        BitBoard(u64::MAX),
        BitBoard(0x00FF00000000FF00),
        BitBoard(0x8100000000000081),
        BitBoard(0x1234_5678_9ABC_DEF0),
    ];
    for pos in 0..64u32 {
        for occ in occs {
            assert_eq!(cache.rook_moves(pos, occ).0, MagicCache::solve_rook(occ, pos).0);
            assert_eq!(cache.bishop_moves(pos, occ).0, MagicCache::solve_bishop(occ, pos).0);
        }
    }
}

#[test]
fn ray_cast_blocks_at_first_occupied() {
    // rook on a1, blocker on a4: the file ray stops on the blocker
    let occ = BitBoard::new_empty().add_pos(24);
    let att = MagicCache::solve_rook(occ, 0);
    assert!(!att.empty_at(8));
    assert!(!att.empty_at(16));
    assert!(!att.empty_at(24));
    assert!(att.empty_at(32));
    // the whole first rank stays reachable
    for x in 1..8 {
        assert!(!att.empty_at(x));
    }
}

#[test]
fn ray_tables_hold_segments() {
    let cache = MagicCache::new().unwrap();
    // a1 toward a4: a2, a3, a4
    let r = cache.rook_ray(0, 24);
    assert_eq!(r.get_indices(), vec![8, 16, 24]);
    // a1 toward d4 diagonally: b2, c3, d4
    let b = cache.bishop_ray(0, 27);
    assert_eq!(b.get_indices(), vec![9, 18, 27]);
    // squares sharing no line give the empty set
    assert!(cache.rook_ray(0, 9).is_empty());
    assert!(cache.bishop_ray(0, 8).is_empty());
    // closer entries are subsets of farther ones along the same ray
    let near = cache.rook_ray(0, 16);
    assert_eq!(near.intersect(r).0, near.0);
}
