use cde_rust_sudoku::base::NumberSet;

#[test]
fn union_with_itself_is_itself() {
    for d in 1..=9i8 {
        let x = NumberSet::singleton_for(d) | NumberSet::singleton_for(9);
        assert_eq!(x.union(x), x);
        assert_eq!(x | x, x);
    }
    assert_eq!(NumberSet::full().union(NumberSet::full()), NumberSet::full());
}

#[test]
fn difference_with_itself_is_empty() {
    for d in 1..=9i8 {
        let x = NumberSet::singleton_for(d) | NumberSet::singleton_for(1);
        assert_eq!(x.difference(x), NumberSet::empty());
        assert_eq!(x - x, NumberSet::empty());
    }
    assert_eq!(NumberSet::full() - NumberSet::full(), NumberSet::empty());
}

#[test]
fn singleton_for_is_singleton() {
    for d in 1..=9i8 {
        let x = NumberSet::singleton_for(d);
        assert!(x.is_singleton());
        assert!(!x.is_empty());
        assert_eq!(x.to_digit(), Some(d));
    }
}

#[test]
fn extremes() {
    assert!(NumberSet::empty().is_empty());
    assert!(!NumberSet::empty().is_singleton());
    assert!(!NumberSet::full().is_empty());
    assert!(!NumberSet::full().is_singleton());
    assert_eq!(NumberSet::empty().to_digit(), None);
    assert_eq!(NumberSet::full().to_digit(), None);
    let mut all = NumberSet::empty();
    for d in 1..=9i8 {
        all = all | NumberSet::singleton_for(d);
    }
    assert_eq!(all, NumberSet::full());
}

#[test]
fn difference_removes_only_what_is_given() {
    let three = NumberSet::singleton_for(3);
    let five = NumberSet::singleton_for(5);
    let seven = NumberSet::singleton_for(7);
    let x = three | five;
    assert_eq!(x - five, three);
    assert_eq!(x - seven, x);
    assert_eq!((x - three).to_digit(), Some(5));
    assert_eq!(NumberSet::full() - x - x, NumberSet::full() - x);
}

#[test]
fn intersects_needs_a_common_digit() {
    let three = NumberSet::singleton_for(3);
    let five = NumberSet::singleton_for(5);
    assert!(!three.intersects(five));
    assert!((three | five).intersects(five));
    assert!(NumberSet::full().intersects(three));
    assert!(!NumberSet::empty().intersects(NumberSet::full()));
    assert!(!NumberSet::empty().intersects(NumberSet::empty()));
}

#[test]
fn values_are_the_nine_digits_in_order() {
    let values = NumberSet::values();
    for k in 0..9 {
        assert_eq!(values[k].to_digit(), Some(k as i8 + 1));
    }
}
