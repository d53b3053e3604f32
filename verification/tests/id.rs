use egg::Id;

#[test]
fn id_round_trips_through_usize() {
    for n in [0usize, 1, 2, 41, 65_535, 65_536, 4_294_967_295] {
        assert_eq!(usize::from(Id::from(n)), n);
    }
}

#[test]
fn id_keeps_the_low_32_bits() {
    let wide = 4_294_967_296u64 + 7;
    if let Ok(n) = usize::try_from(wide) {
        assert_eq!(Id::from(n), Id::from(7));
        assert_eq!(usize::from(Id::from(n)), 7);
    }
}

#[test]
fn ids_are_equal_when_their_positions_are() {
    assert_eq!(Id::from(3), Id::from(3));
    assert_ne!(Id::from(3), Id::from(4));
}

#[test]
fn ids_are_ordered_by_position() {
    assert!(Id::from(3) < Id::from(4));
    assert!(Id::from(10) > Id::from(9));
    let mut ids = vec![Id::from(2), Id::from(0), Id::from(1)];
    ids.sort();
    assert_eq!(ids, vec![Id::from(0), Id::from(1), Id::from(2)]);
}

#[test]
fn id_is_copied_not_moved() {
    let a = Id::from(5);
    let b = a;
    assert_eq!(a, b);
}
