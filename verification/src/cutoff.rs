use std::marker::PhantomData;
use vstd::prelude::*;
use vstd::std_specs::cmp::PartialEqSpec;

verus! {

/// When a node's freshly computed value counts as unchanged, so that the nodes that
/// read it need not be recomputed.
#[non_exhaustive]
pub enum Cutoff<T, F> {
    /// Every new value counts as unchanged.
    Always,
    /// Every new value counts as a change.
    Never,
    /// A new value equal (`==`) to the old one counts as unchanged.
    PartialEq,
    /// `F(old, new)` says whether the new value counts as unchanged.
    Custom(F),
    /// Never built: only there to use the parameter `T`.
    __Phantom(PhantomData<T>),
}

impl<T: PartialEq, F: Fn(&T, &T) -> bool> Cutoff<T, F> {
    /// Whether the change from `a` to `b` should be cut off.
    pub fn should_cutoff(&self, a: &T, b: &T) -> (r: bool)
        requires
            !(self is __Phantom),
            self matches Cutoff::Custom(f) ==> f.requires((a, b)),
        ensures
            self is Always ==> r,
            self is Never ==> !r,
            self is PartialEq ==> (T::obeys_eq_spec() ==> r == a.eq_spec(b)),
            self matches Cutoff::Custom(f) ==> f.ensures((a, b), r),
            T::obeys_eq_spec() ==> self.answers(*a, *b, r),
    {
        match self {
            Cutoff::Always => true,
            Cutoff::Never => false,
            Cutoff::PartialEq => a.eq(b),
            Cutoff::Custom(comparator) => comparator(a, b),
            Cutoff::__Phantom(_) => false,
        }
    }

    /// `changed` is a decision this cutoff allows for a node whose value goes from
    /// `old` to `new`: a node without a value always changes; otherwise the change is
    /// cut off always, never, when the values are equal, or as the comparator says.
    pub open spec fn decides_change(&self, old: Option<T>, new: T, changed: bool) -> bool {
        match old {
            None => changed,
            Some(o) => {
                &&& (self is Always ==> !changed)
                &&& (self is Never ==> changed)
                &&& (self is PartialEq ==> (T::obeys_eq_spec() ==> changed == !o.eq_spec(&new)))
                &&& (self matches Cutoff::Custom(f) ==> f.ensures((&o, &new), !changed))
            },
        }
    }

    /// Whether a node whose value was `old` counts as changed once it computes `new`:
    /// always when it had no value yet, and otherwise exactly when this cutoff does not
    /// cut the change off (the comparator is asked only when there is an old value).
    pub fn value_changed(&self, old: Option<&T>, new: &T) -> (r: bool)
        requires
            !(self is __Phantom),
            old matches Some(o) ==> (self matches Cutoff::Custom(f) ==> f.requires((o, new))),
        ensures
            old is None ==> r,
            old matches Some(o) ==> {
                &&& (self is Always ==> !r)
                &&& (self is Never ==> r)
                &&& (self is PartialEq ==> (T::obeys_eq_spec() ==> r == !o.eq_spec(new)))
                &&& (self matches Cutoff::Custom(f) ==> f.ensures((o, new), !r))
            },
    {
        match old {
            None => true,
            Some(o) => !self.should_cutoff(o, new),
        }
    }

    /// The answers `should_cutoff` may give: `r` for the change from `a` to `b`.
    pub open spec fn answers(&self, a: T, b: T, r: bool) -> bool {
        match self {
            Cutoff::Always => r,
            Cutoff::Never => !r,
            Cutoff::PartialEq => r == a.eq_spec(&b),
            Cutoff::Custom(f) => f.ensures((&a, &b), r),
            Cutoff::__Phantom(_) => false,
        }
    }

    /// The same cutoff with its comparator moved to the heap; it answers every change
    /// as this one does.
    pub fn boxed(self) -> (r: Cutoff<T, Box<F>>)
        ensures
            forall|a: T, b: T, x: bool| #[trigger] r.answers(a, b, x) == self.answers(a, b, x),
            self is Always <==> r is Always,
            self is Never <==> r is Never,
            self is PartialEq <==> r is PartialEq,
            self is __Phantom <==> r is __Phantom,
            self matches Cutoff::Custom(f) ==> r == Cutoff::<T, Box<F>>::Custom(Box::new(f)),
    {
        match self {
            Cutoff::Always => Cutoff::Always,
            Cutoff::Never => Cutoff::Never,
            Cutoff::PartialEq => Cutoff::PartialEq,
            Cutoff::Custom(comparator) => Cutoff::Custom(Box::new(comparator)),
            Cutoff::__Phantom(_) => Cutoff::__Phantom(PhantomData),
        }
    }
}

} // verus!
