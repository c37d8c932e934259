use vstd::prelude::*;

verus! {

/// A note duration. Implemented as a multiple of thirty-second notes.
#[derive(Clone, Copy, Debug, PartialEq, Eq, Hash, Structural)]
pub struct Duration(pub usize);

/// The dotted length of `d` thirty-second notes: half as long again, rounded
/// down.
pub open spec fn dotted_len(d: int) -> int {
    d + d / 2
}

impl Duration {
    /// The smallest non-zero duration represented by this.
    pub fn delta() -> (r: Duration)
        ensures
            r.0 == 1,
    {
        Duration(1)
    }

    pub fn zero() -> (r: Duration)
        ensures
            r.0 == 0,
    {
        Duration(0)
    }

    pub fn sixteenth() -> (r: Duration)
        ensures
            r.0 == 2,
    {
        Duration(2)
    }

    pub fn eighth() -> (r: Duration)
        ensures
            r.0 == 4,
    {
        Duration(4)
    }

    pub fn dotted(&self) -> (r: Self)
        requires
            dotted_len(self.0 as int) <= usize::MAX,
        ensures
            r.0 == dotted_len(self.0 as int),
    {
        Duration(self.0 + self.0 / 2)
    }

    /// Decrement this duration by the smallest step. Returns `None` in place of
    /// zero.
    pub fn decrement(&self) -> (r: Option<Self>)
        ensures
            r == (if self.0 < 2 { None } else { Some(Duration((self.0 - 1) as usize)) }),
    {
        if self.0 < 2 {
            None
        } else {
            Some(Duration(self.0 - 1))
        }
    }

    /// The two durations one after the other.
    pub fn plus(self, rhs: Duration) -> (r: Duration)
        requires
            self.0 + rhs.0 <= usize::MAX,
        ensures
            r.0 == self.0 + rhs.0,
    {
        Duration(self.0 + rhs.0)
    }

    /// This duration repeated `n` times.
    pub fn times(self, n: usize) -> (r: Duration)
        requires
            self.0 * n <= usize::MAX,
        ensures
            r.0 == self.0 * n,
    {
        Duration(self.0 * n)
    }
}

} // verus!
