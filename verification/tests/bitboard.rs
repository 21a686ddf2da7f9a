use chessmoves::BitBoard;

#[test]
fn single_square_round_trip() {
    // for every square s: the singleton board holds s and nothing else
    for s in 0..64u32 {
        let b = BitBoard::new_empty().add_pos(s);
        assert!(!b.empty_at(s));
        for t in 0..64u32 {
            if t != s {
                assert!(b.empty_at(t));
            }
        }
    }
}

#[test]
fn add_then_clear_is_empty() {
    for s in 0..64u32 {
        let b = BitBoard::new_empty().add_pos(s).clear_pos(s);
        assert!(b.is_empty());
        assert!(!b.not_empty());
    }
}

#[test]
fn count_counts_members() {
    assert_eq!(BitBoard::new_empty().count(), 0);
    assert_eq!(BitBoard(u64::MAX).count(), 64);
    let b = BitBoard::new_empty().add_pos(0).add_pos(17).add_pos(63);
    assert_eq!(b.count(), 3);
    assert_eq!(b.add_pos(17).count(), 3);
}

#[test]
fn get_indices_ascending_members() {
    let b = BitBoard::new_empty().add_pos(63).add_pos(5).add_pos(20);
    let idx = b.get_indices();
    assert_eq!(idx, vec![5, 20, 63]);
    assert_eq!(BitBoard::new_empty().get_indices(), Vec::<u32>::new());
}

#[test]
fn solo_pos_is_lowest_member() {
    assert_eq!(BitBoard::new_empty().solo_pos(), 64);
    assert_eq!(BitBoard::from_pos(42).solo_pos(), 42);
    assert_eq!(BitBoard::new_empty().add_pos(9).add_pos(3).solo_pos(), 3);
}

#[test]
fn set_algebra() {
    let a = BitBoard(0b1100);
    let b = BitBoard(0b1010);
    assert_eq!(a.union_with(b).0, 0b1110);
    assert_eq!(a.intersect(b).0, 0b1000);
    assert_eq!(a.invert().0, !0b1100u64);
}
