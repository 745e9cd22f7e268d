use vstd::prelude::*;

verus! {

/// Marks values that hold no observer. Without the nightly sanitiser every type
/// qualifies.
pub trait NotObserver {

}

impl<T: ?Sized> NotObserver for T {

}

/// A wrapper asserting that its contents hold no observer.
#[derive(Clone, Copy, Debug, PartialEq, Eq, PartialOrd, Ord, Hash)]
pub struct AssertNotObserver<T>(pub T);

/// Hands `value` back, once the compiler has checked that it holds no observer.
pub fn check_not_observer<T: NotObserver>(value: T) -> (r: T)
    ensures
        r == value,
{
    value
}

} // verus!
