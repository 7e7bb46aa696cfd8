//! Core logic of a disk-usage cleaner: it locates directories matching a
//! target name beneath a search root, measures their recursive size, and
//! drives an interactive table where entries can be sorted, navigated and
//! deleted.  Filesystem walking, terminal drawing and key reading live
//! outside this crate; everything here is pure logic over plain values.

use vstd::prelude::*;

pub mod app;
pub mod color;
pub mod files;
pub mod present;

verus! {

/// The sort key applied to the table at render time.
#[derive(Copy, Clone, Debug, PartialEq, Eq, Structural)]
pub enum Sorting {
    /// Insertion order: no comparator is applied.
    Unsorted,
    /// Lexicographic order on the full path.
    Name,
    /// Descending byte size (largest subtrees surfaced first).
    Size,
}

/// The next key in the cycle `Unsorted -> Name -> Size -> Unsorted`.
pub open spec fn cycle_next_spec(s: Sorting) -> Sorting {
    match s {
        Sorting::Unsorted => Sorting::Name,
        Sorting::Name => Sorting::Size,
        Sorting::Size => Sorting::Unsorted,
    }
}

/// The previous key in the same cycle.
pub open spec fn cycle_prev_spec(s: Sorting) -> Sorting {
    match s {
        Sorting::Unsorted => Sorting::Size,
        Sorting::Name => Sorting::Unsorted,
        Sorting::Size => Sorting::Name,
    }
}

impl Sorting {
    /// Advances the sort key one step through the cycle
    /// `Unsorted -> Name -> Size -> Unsorted`.
    pub fn cycle_next(self) -> (r: Sorting)
        ensures
            r == cycle_next_spec(self),
    {
        match self {
            Sorting::Unsorted => Sorting::Name,
            Sorting::Name => Sorting::Size,
            Sorting::Size => Sorting::Unsorted,
        }
    }

    /// Retreats the sort key one step through the cycle
    /// `Unsorted -> Size -> Name -> Unsorted`.
    pub fn cycle_prev(self) -> (r: Sorting)
        ensures
            r == cycle_prev_spec(self),
    {
        match self {
            Sorting::Unsorted => Sorting::Size,
            Sorting::Name => Sorting::Unsorted,
            Sorting::Size => Sorting::Name,
        }
    }
}

/// Law: the two cycling directions are inverse to each other, so either
/// three steps of one, or one step of each, return the sort key to where it
/// started.
pub proof fn lemma_sort_cycle_inverse(s: Sorting)
    ensures
        cycle_prev_spec(cycle_next_spec(s)) == s,
        cycle_next_spec(cycle_prev_spec(s)) == s,
        cycle_next_spec(cycle_next_spec(cycle_next_spec(s))) == s,
{
}

/// A numeric type that `IntWrap` can count over: it maps into the
/// mathematical integers, has a largest value, and offers the arithmetic
/// and comparisons the wrapper needs.
pub trait IntWrapType: Sized + Copy {
    spec fn as_int(self) -> int;

    spec fn max_int() -> int;

    proof fn lemma_bounds(self)
        ensures
            0 <= self.as_int() <= Self::max_int(),
    ;

    fn add_u(self, n: usize) -> (r: Self)
        requires
            self.as_int() + n <= Self::max_int(),
        ensures
            r.as_int() == self.as_int() + n,
    ;

    fn sub_u(self, n: usize) -> (r: Self)
        requires
            self.as_int() - n >= 0,
        ensures
            r.as_int() == self.as_int() - n,
    ;

    fn le(self, other: Self) -> (r: bool)
        ensures
            r == (self.as_int() <= other.as_int()),
    ;

    fn lt(self, other: Self) -> (r: bool)
        ensures
            r == (self.as_int() < other.as_int()),
    ;
}

impl IntWrapType for usize {
    open spec fn as_int(self) -> int {
        self as int
    }

    open spec fn max_int() -> int {
        usize::MAX as int
    }

    proof fn lemma_bounds(self) {
    }

    fn add_u(self, n: usize) -> (r: Self) {
        self + n
    }

    fn sub_u(self, n: usize) -> (r: Self) {
        self - n
    }

    fn le(self, other: Self) -> (r: bool) {
        self <= other
    }

    fn lt(self, other: Self) -> (r: bool) {
        self < other
    }
}

/// A counter held inside a half-open range: arithmetic that leaves the
/// range snaps back to one of its bounds.  Stepping past the range resets
/// to its start; stepping below resets to its end.
pub struct IntWrap<T: IntWrapType>(T, core::ops::Range<T>);

impl<T: IntWrapType> IntWrap<T> {
    pub closed spec fn value_int(self) -> int {
        self.0.as_int()
    }

    pub closed spec fn start_int(self) -> int {
        self.1.start.as_int()
    }

    pub closed spec fn end_int(self) -> int {
        self.1.end.as_int()
    }

    /// The value after stepping to `v`: kept when the range contains it,
    /// else snapped to `fallback` (the start when stepping up, the end
    /// when stepping down).
    pub open spec fn snapped(self, v: int, fallback: int) -> int {
        if self.start_int() <= v < self.end_int() {
            v
        } else {
            fallback
        }
    }

    pub fn new(value: T, range: core::ops::Range<T>) -> (w: IntWrap<T>)
        ensures
            w.value_int() == value.as_int(),
            w.start_int() == range.start.as_int(),
            w.end_int() == range.end.as_int(),
    {
        IntWrap(value, range)
    }

    pub fn get(&self) -> (r: T)
        ensures
            r.as_int() == self.value_int(),
    {
        self.0
    }

    /// Steps the counter up by `increase`, snapping to the range's start
    /// when it leaves the range.
    pub fn increase(&mut self, increase: usize) -> (r: T)
        requires
            old(self).value_int() + increase <= T::max_int(),
        ensures
            final(self).value_int() == old(self).snapped(
                old(self).value_int() + increase,
                old(self).start_int(),
            ),
            final(self).start_int() == old(self).start_int(),
            final(self).end_int() == old(self).end_int(),
            r.as_int() == final(self).value_int(),
    {
        self.0 = self.0.add_u(increase);
        if !(self.1.start.le(self.0) && self.0.lt(self.1.end)) {
            self.0 = self.1.start;
        }
        self.0
    }

    /// Steps the counter down by `decrease`, snapping to the range's end
    /// when it leaves the range.
    pub fn decrease(&mut self, decrease: usize) -> (r: T)
        requires
            old(self).value_int() - decrease >= 0,
        ensures
            final(self).value_int() == old(self).snapped(
                old(self).value_int() - decrease,
                old(self).end_int(),
            ),
            final(self).start_int() == old(self).start_int(),
            final(self).end_int() == old(self).end_int(),
            r.as_int() == final(self).value_int(),
    {
        self.0 = self.0.sub_u(decrease);
        if !(self.1.start.le(self.0) && self.0.lt(self.1.end)) {
            self.0 = self.1.end;
        }
        self.0
    }

    /// Steps the counter up by one, snapping to the range's start when it
    /// leaves the range.
    pub fn bump(&mut self) -> (r: T)
        requires
            old(self).value_int() + 1 <= T::max_int(),
        ensures
            final(self).value_int() == old(self).snapped(
                old(self).value_int() + 1,
                old(self).start_int(),
            ),
            final(self).start_int() == old(self).start_int(),
            final(self).end_int() == old(self).end_int(),
            r.as_int() == final(self).value_int(),
    {
        self.increase(1)
    }
}

} // verus!
