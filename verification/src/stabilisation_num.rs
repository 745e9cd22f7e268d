use vstd::prelude::*;

verus! {

/// A stabilisation counter. `-1` means "never".
#[derive(Copy, Clone, PartialEq, Eq, PartialOrd, Ord, Debug)]
pub struct StabilisationNum(pub i32);

impl StabilisationNum {
    /// The number standing for "never happened".
    pub open spec fn never() -> int {
        -1
    }

    /// The counter value that marks "never".
    pub fn init() -> (r: Self)
        ensures
            r.0 == -1,
    {
        Self(-1)
    }

    /// The next stabilisation.
    pub fn add1(self) -> (r: Self)
        requires
            self.0 < i32::MAX,
        ensures
            r.0 == self.0 + 1,
    {
        Self(self.0 + 1)
    }

    /// Whether this is the "never" marker.
    pub fn is_never(&self) -> (r: bool)
        ensures
            r == (self.0 == -1),
    {
        self.0 == -1
    }
}

} // verus!
