use dirkill::{IntWrap, Sorting};

#[test]
fn test_int_wrap_bump_wraps_to_start() {
    let mut w = IntWrap::new(0usize, 0..3);
    assert_eq!(w.get(), 0);
    assert_eq!(w.bump(), 1);
    assert_eq!(w.bump(), 2);
    assert_eq!(w.bump(), 0);
}

#[test]
fn test_int_wrap_increase() {
    let mut w = IntWrap::new(0usize, 0..3);
    assert_eq!(w.increase(2), 2);
    assert_eq!(w.increase(2), 0);
}

#[test]
fn test_int_wrap_decrease() {
    let mut w = IntWrap::new(2usize, 0..3);
    assert_eq!(w.decrease(1), 1);
    assert_eq!(w.decrease(1), 0);
    assert_eq!(w.decrease(0), 0);
}

#[test]
fn test_int_wrap_decrease_snaps_to_end() {
    let mut w = IntWrap::new(1usize, 1..3);
    assert_eq!(w.decrease(1), 3);
}

#[test]
fn test_sorting_cycles_are_total() {
    assert_eq!(Sorting::Unsorted.cycle_next(), Sorting::Name);
    assert_eq!(Sorting::Name.cycle_next(), Sorting::Size);
    assert_eq!(Sorting::Size.cycle_next(), Sorting::Unsorted);
    assert_eq!(Sorting::Unsorted.cycle_prev(), Sorting::Size);
    assert_eq!(Sorting::Size.cycle_prev(), Sorting::Name);
    assert_eq!(Sorting::Name.cycle_prev(), Sorting::Unsorted);
}
