use boardgames::bigbitboard::BigBitBoard;

#[test]
fn coord_index() {
    type B = BigBitBoard<9, 7, 1>;
    for row in 0..9 {
        for col in 0..7 {
            let index = B::to_index(row, col);
            let (r, c) = B::to_coord(index);
            assert_eq!(r, row);
            assert_eq!(c, col);
        }
    }
}

#[test]
fn ones_mask_matches_bit_count() {
    assert_eq!(BigBitBoard::<3, 3, 1>::ones().count_ones(), 9);
    assert_eq!(BigBitBoard::<8, 8, 1>::ones().count_ones(), 64);
    assert_eq!(BigBitBoard::<9, 9, 2>::ones().count_ones(), 81);
    assert_eq!(BigBitBoard::<19, 19, 6>::ones().count_ones(), 361);
}

#[test]
fn not_stays_within_bounds() {
    type B = BigBitBoard<9, 9, 2>;
    assert_eq!(B::empty().not(), B::ones());
    assert_eq!(B::ones().not(), B::empty());
}

// Own tests.

#[test]
fn set_get_clear_round_trip_across_words() {
    type B = BigBitBoard<9, 9, 2>;
    let mut b = B::empty();
    b.set(3);
    b.set(70);
    b.set_at(8, 8);
    assert!(b.get(3) && b.get(70) && b.get(80));
    assert!(b.get_at(0, 3));
    assert_eq!(b.count_ones(), 3);
    assert_eq!(b.set_indices(), vec![3, 70, 80]);
    b.clear(70);
    b.clear_at(0, 3);
    assert_eq!(b.set_indices(), vec![80]);
    assert!(!b.is_empty());
    b.clear(80);
    assert!(b.is_empty());
}

#[test]
fn set_algebra_on_two_words() {
    type B = BigBitBoard<9, 9, 2>;
    let a = B::from_index(1).or(B::from_index(65));
    let c = B::from_index(65).or(B::from_coord(0, 2));
    assert_eq!(a.and(c), B::from_index(65));
    assert_eq!(a.xor(c).set_indices(), vec![1, 2]);
    assert!(a.intersects(c));
    assert!(!a.is_disjoint(c));
    assert!(B::from_index(65).is_subset(a));
    assert!(!c.is_subset(a));
    assert_eq!(a.words(), [2, 2]);
    assert_eq!(B::new([2, 2]), a);
}
