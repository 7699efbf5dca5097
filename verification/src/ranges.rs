use vstd::prelude::*;

verus! {

// vstd specifies `Range` and `RangeInclusive`; the remaining range shapes
// are declared here so their bounds can be read.
#[verifier::external_type_specification]
pub struct ExRangeFull(core::ops::RangeFull);

#[verifier::external_type_specification]
#[verifier::reject_recursive_types(Idx)]
pub struct ExRangeTo<Idx>(core::ops::RangeTo<Idx>);

#[verifier::external_type_specification]
#[verifier::reject_recursive_types(Idx)]
pub struct ExRangeToInclusive<Idx>(core::ops::RangeToInclusive<Idx>);

#[verifier::external_type_specification]
#[verifier::reject_recursive_types(Idx)]
pub struct ExRangeFrom<Idx>(core::ops::RangeFrom<Idx>);

/// Relies on RangeInclusive::start: returns the stored lower bound.
pub assume_specification<Idx>[ core::ops::RangeInclusive::<Idx>::start ](
    r: &core::ops::RangeInclusive<Idx>,
) -> (s: &Idx)
    ensures
        *s == r@.start,
;

/// Relies on RangeInclusive::end: returns the stored upper bound.
pub assume_specification<Idx>[ core::ops::RangeInclusive::<Idx>::end ](
    r: &core::ops::RangeInclusive<Idx>,
) -> (e: &Idx)
    ensures
        *e == r@.end,
;

/// Emptiness and clamping for every shape of range bound: emptiness asks
/// whether no value can lie between the bounds, and `into_range` clamps the
/// bounds into `0..len`.
pub trait RangeBoundsExt<U>: Sized {
    fn is_empty(&self) -> bool;

    fn into_range(self, len: U) -> core::ops::Range<U>;
}

impl RangeBoundsExt<usize> for core::ops::RangeFull {
    /// The full range is never empty.
    fn is_empty(&self) -> (r: bool)
        ensures
            r == false,
    {
        false
    }

    fn into_range(self, len: usize) -> (r: core::ops::Range<usize>)
        ensures
            r.start == 0 && r.end == len,
    {
        0..len
    }
}

impl RangeBoundsExt<i32> for core::ops::Range<i32> {
    /// Empty when the inclusive start does not lie below the exclusive end.
    fn is_empty(&self) -> (r: bool)
        ensures
            r == (self.start >= self.end),
    {
        self.start >= self.end
    }

    fn into_range(self, len: i32) -> (r: core::ops::Range<i32>)
        ensures
            len <= 0 ==> r.start == 0 && r.end == 0,
            len > 0 ==> r.start == (if self.start > 0 {
                self.start
            } else {
                0
            }) && r.end == (if self.end < len {
                self.end
            } else {
                len
            }),
    {
        if len <= 0 {
            return 0..0;
        }
        let start: i32 = if self.start > 0 {
            self.start
        } else {
            0
        };
        let end: i32 = if self.end < len {
            self.end
        } else {
            len
        };
        start..end
    }
}

impl RangeBoundsExt<i32> for core::ops::RangeFrom<i32> {
    /// A range without an upper bound is never empty.
    fn is_empty(&self) -> (r: bool)
        ensures
            r == false,
    {
        false
    }

    fn into_range(self, len: i32) -> (r: core::ops::Range<i32>)
        ensures
            len <= 0 ==> r.start == 0 && r.end == 0,
            len > 0 ==> r.start == (if self.start > 0 {
                self.start
            } else {
                0
            }) && r.end == len,
    {
        if len <= 0 {
            return 0..0;
        }
        let start: i32 = if self.start > 0 {
            self.start
        } else {
            0
        };
        start..len
    }
}

impl RangeBoundsExt<i32> for core::ops::RangeTo<i32> {
    /// Empty when nothing non-negative lies below the exclusive end.
    fn is_empty(&self) -> (r: bool)
        ensures
            r == (self.end <= 0),
    {
        self.end <= 0
    }

    fn into_range(self, len: i32) -> (r: core::ops::Range<i32>)
        ensures
            len <= 0 ==> r.start == 0 && r.end == 0,
            len > 0 ==> r.start == 0 && r.end == (if self.end < len {
                self.end
            } else {
                len
            }),
    {
        if len <= 0 {
            return 0..0;
        }
        let end: i32 = if self.end < len {
            self.end
        } else {
            len
        };
        0..end
    }
}

impl RangeBoundsExt<i32> for core::ops::RangeToInclusive<i32> {
    /// Empty when nothing non-negative lies at or below the inclusive end.
    fn is_empty(&self) -> (r: bool)
        ensures
            r == (self.end < 0),
    {
        self.end < 0
    }

    fn into_range(self, len: i32) -> (r: core::ops::Range<i32>)
        ensures
            len <= 0 ==> r.start == 0 && r.end == 0,
            len > 0 ==> r.start == 0 && r.end == (if self.end >= len {
                len as int
            } else {
                self.end + 1
            }),
    {
        if len <= 0 {
            return 0..0;
        }
        let end: i32 = if self.end >= len {
            len
        } else {
            self.end + 1
        };
        0..end
    }
}

impl RangeBoundsExt<i32> for core::ops::RangeInclusive<i32> {
    /// Empty when the inclusive start lies above the inclusive end.
    fn is_empty(&self) -> (r: bool)
        ensures
            r == (self@.start > self@.end),
    {
        *self.start() > *self.end()
    }

    fn into_range(self, len: i32) -> (r: core::ops::Range<i32>)
        ensures
            len <= 0 ==> r.start == 0 && r.end == 0,
            len > 0 ==> r.start == (if self@.start > 0 {
                self@.start
            } else {
                0
            }) && r.end == (if self@.end >= len {
                len as int
            } else {
                self@.end + 1
            }),
    {
        if len <= 0 {
            return 0..0;
        }
        let s: i32 = *self.start();
        let e: i32 = *self.end();
        let start: i32 = if s > 0 {
            s
        } else {
            0
        };
        let end: i32 = if e >= len {
            len
        } else {
            e + 1
        };
        start..end
    }
}

} // verus!
