use vstd::prelude::*;

verus! {

/// A logical time of two coordinates, ordered coordinate-wise: two times may
/// be concurrent, neither before the other.
#[derive(Clone, Copy, Debug, PartialEq, Eq, Structural)]
pub struct Time {
    pub outer: u64,
    pub inner: u64,
}

/// The partial order on times.
pub open spec fn time_le(a: Time, b: Time) -> bool {
    a.outer <= b.outer && a.inner <= b.inner
}

/// The least upper bound of two times.
pub open spec fn time_join(a: Time, b: Time) -> Time {
    Time {
        outer: if a.outer <= b.outer { b.outer } else { a.outer },
        inner: if a.inner <= b.inner { b.inner } else { a.inner },
    }
}

impl Time {
    pub fn new(outer: u64, inner: u64) -> (r: Time)
        ensures
            r == (Time { outer, inner }),
    {
        Time { outer, inner }
    }

    pub fn less_equal(&self, other: &Time) -> (r: bool)
        ensures
            r == time_le(*self, *other),
    {
        self.outer <= other.outer && self.inner <= other.inner
    }

    pub fn join(&self, other: &Time) -> (r: Time)
        ensures
            r == time_join(*self, *other),
    {
        Time {
            outer: if self.outer <= other.outer { other.outer } else { self.outer },
            inner: if self.inner <= other.inner { other.inner } else { self.inner },
        }
    }
}

} // verus!
