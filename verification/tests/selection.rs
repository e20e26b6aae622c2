use editor_core::selection::{Direction, Range, Selection};

#[test]
fn range_ends_and_direction() {
    let forward = Range::new(3, 8);
    assert_eq!(forward.from(), 3);
    assert_eq!(forward.to(), 8);
    assert_eq!(forward.direction(), Direction::Forward);
    let backward = Range::new(8, 3);
    assert_eq!(backward.from(), 3);
    assert_eq!(backward.to(), 8);
    assert_eq!(backward.direction(), Direction::Backward);
    let empty = Range::new(5, 5);
    assert_eq!(empty.from(), 5);
    assert_eq!(empty.to(), 5);
    assert_eq!(empty.direction(), Direction::Forward);
}

#[test]
fn flip_exchanges_the_ends() {
    assert_eq!(Range::new(3, 8).flip(), Range::new(8, 3));
    assert_eq!(Range::new(8, 3).flip(), Range::new(3, 8));
}

#[test]
fn with_direction_keeps_the_characters() {
    let r = Range::new(3, 8);
    assert_eq!(r.with_direction(Direction::Forward), Range::new(3, 8));
    assert_eq!(r.with_direction(Direction::Backward), Range::new(8, 3));
    let r = Range::new(8, 3);
    assert_eq!(r.with_direction(Direction::Forward), Range::new(3, 8));
    assert_eq!(r.with_direction(Direction::Backward), Range::new(8, 3));
    // An empty range faces forward and cannot be turned.
    let r = Range::new(5, 5);
    assert_eq!(r.with_direction(Direction::Backward), Range::new(5, 5));
}

#[test]
fn selection_holds_its_ranges_in_order() {
    let s = Selection::new(vec![Range::new(1, 2), Range::new(9, 4)], 1);
    assert_eq!(s.len(), 2);
    assert_eq!(s.primary_index(), 1);
    assert_eq!(s.ranges()[0], Range::new(1, 2));
    assert_eq!(s.ranges()[1], Range::new(9, 4));
    let s = Selection::single(4, 2);
    assert_eq!(s.len(), 1);
    assert_eq!(s.primary_index(), 0);
    assert_eq!(s.ranges()[0], Range::new(4, 2));
}

#[test]
fn fits_looks_at_the_upper_end_of_every_range() {
    let s = Selection::new(vec![Range::new(1, 2), Range::new(9, 4)], 0);
    assert!(s.fits(9));
    assert!(s.fits(10));
    assert!(!s.fits(8));
    assert!(Selection::new(vec![], 0).fits(0));
}
