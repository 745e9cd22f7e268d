use vstd::prelude::*;
use vstd::std_specs::cmp::PartialEqSpec;

verus! {

/// What an observer reports about the node it watches after a stabilisation.
#[derive(Debug, Clone, Copy, PartialEq, Eq, PartialOrd, Ord, Hash)]
pub enum Update<T> {
    /// The first value seen.
    Initialised(T),
    /// A later, different value.
    Changed(T),
    /// The node became invalid; no value will follow.
    Invalidated,
}

impl<T> Update<T> {
    /// The value carried, if any.
    pub fn value(self) -> (r: Option<T>)
        ensures
            self matches Update::Initialised(t) ==> r == Some(t),
            self matches Update::Changed(t) ==> r == Some(t),
            self is Invalidated ==> r is None,
    {
        match self {
            Update::Initialised(t) => Some(t),
            Update::Changed(t) => Some(t),
            Update::Invalidated => None,
        }
    }
}

impl<'a, T: Clone> Update<&'a T> {
    /// The same update, holding a clone of the referenced value.
    pub fn cloned(&self) -> (r: Update<T>)
        ensures
            self matches Update::Initialised(t) ==> (r matches Update::Initialised(u) && cloned(**t, u)),
            self matches Update::Changed(t) ==> (r matches Update::Changed(u) && cloned(**t, u)),
            self is Invalidated ==> r is Invalidated,
    {
        match *self {
            Update::Initialised(t) => Update::Initialised(t.clone()),
            Update::Changed(t) => Update::Changed(t.clone()),
            Update::Invalidated => Update::Invalidated,
        }
    }
}

/// A counter after one more event; it stays at `usize::MAX` once it gets there.
pub open spec fn bumped(n: usize) -> usize {
    if n < usize::MAX {
        (n + 1) as usize
    } else {
        n
    }
}

/// One more than `n`, saturating at `usize::MAX`.
pub fn bump(n: usize) -> (r: usize)
    ensures
        r == bumped(n),
{
    if n < usize::MAX {
        n + 1
    } else {
        n
    }
}

/// Counters kept by the engine.
#[derive(Copy, Clone, PartialEq, Eq, Debug)]
pub struct Stats {
    pub created: usize,
    pub changed: usize,
    pub recomputed: usize,
    pub invalidated: usize,
    pub became_necessary: usize,
    pub became_unnecessary: usize,
    pub necessary: usize,
}

/// The difference between two sets of counters, field by field.
#[derive(Copy, Clone, PartialEq, Eq, Default, Debug)]
pub struct StatsDiff {
    pub created: isize,
    pub changed: isize,
    pub recomputed: isize,
    pub invalidated: isize,
    pub became_necessary: isize,
    pub became_unnecessary: isize,
    pub necessary: isize,
}

impl Stats {
    /// Every counter is small enough to be read as an `isize`.
    pub open spec fn fits_isize(&self) -> bool {
        &&& self.created <= isize::MAX
        &&& self.changed <= isize::MAX
        &&& self.recomputed <= isize::MAX
        &&& self.invalidated <= isize::MAX
        &&& self.became_necessary <= isize::MAX
        &&& self.became_unnecessary <= isize::MAX
        &&& self.necessary <= isize::MAX
    }

    /// Counters start at zero.
    pub fn new() -> (r: Self)
        ensures
            r == (Stats {
                created: 0,
                changed: 0,
                recomputed: 0,
                invalidated: 0,
                became_necessary: 0,
                became_unnecessary: 0,
                necessary: 0,
            }),
    {
        Stats {
            created: 0,
            changed: 0,
            recomputed: 0,
            invalidated: 0,
            became_necessary: 0,
            became_unnecessary: 0,
            necessary: 0,
        }
    }

    /// Count one more recomputed node.
    pub fn count_recomputed(&mut self)
        ensures
            *final(self) == (Stats { recomputed: bumped(old(self).recomputed), ..*old(self) }),
    {
        self.recomputed = bump(self.recomputed);
    }

    /// Count one more changed node.
    pub fn count_changed(&mut self)
        ensures
            *final(self) == (Stats { changed: bumped(old(self).changed), ..*old(self) }),
    {
        self.changed = bump(self.changed);
    }

    /// Count one more created node.
    pub fn count_created(&mut self)
        ensures
            *final(self) == (Stats { created: bumped(old(self).created), ..*old(self) }),
    {
        self.created = bump(self.created);
    }

    /// Only the counts of nodes that became necessary, became unnecessary or were
    /// invalidated differ from `old`, and none of them went down.
    pub open spec fn link_counts_grown(self, old: Stats) -> bool {
        &&& self == (Stats {
            became_necessary: self.became_necessary,
            became_unnecessary: self.became_unnecessary,
            invalidated: self.invalidated,
            ..old
        })
        &&& old.became_necessary <= self.became_necessary
        &&& old.became_unnecessary <= self.became_unnecessary
        &&& old.invalidated <= self.invalidated
    }

    /// Count one more node that became unnecessary.
    pub fn count_became_unnecessary(&mut self)
        ensures
            *final(self) == (Stats { became_unnecessary: bumped(old(self).became_unnecessary), ..*old(self) }),
    {
        self.became_unnecessary = bump(self.became_unnecessary);
    }

    /// Count one more invalidated node.
    pub fn count_invalidated(&mut self)
        ensures
            *final(self) == (Stats { invalidated: bumped(old(self).invalidated), ..*old(self) }),
    {
        self.invalidated = bump(self.invalidated);
    }

    /// Count one more node that became necessary.
    pub fn count_became_necessary(&mut self)
        ensures
            *final(self) == (Stats { became_necessary: bumped(old(self).became_necessary), ..*old(self) }),
    {
        self.became_necessary = bump(self.became_necessary);
    }

    /// `self - other`, counter by counter.
    pub fn diff(&self, other: Self) -> (r: StatsDiff)
        requires
            self.fits_isize(),
            other.fits_isize(),
        ensures
            r.created == self.created - other.created,
            r.changed == self.changed - other.changed,
            r.recomputed == self.recomputed - other.recomputed,
            r.invalidated == self.invalidated - other.invalidated,
            r.became_necessary == self.became_necessary - other.became_necessary,
            r.became_unnecessary == self.became_unnecessary - other.became_unnecessary,
            r.necessary == self.necessary - other.necessary,
    {
        StatsDiff {
            created: self.created as isize - other.created as isize,
            changed: self.changed as isize - other.changed as isize,
            recomputed: self.recomputed as isize - other.recomputed as isize,
            invalidated: self.invalidated as isize - other.invalidated as isize,
            became_necessary: self.became_necessary as isize - other.became_necessary as isize,
            became_unnecessary: self.became_unnecessary as isize - other.became_unnecessary as isize,
            necessary: self.necessary as isize - other.necessary as isize,
        }
    }
}

/// `self - other`, counter by counter.
impl core::ops::Sub for Stats {
    type Output = StatsDiff;

    fn sub(self, rhs: Self) -> (r: StatsDiff) {
        self.diff(rhs)
    }
}

impl vstd::std_specs::ops::SubSpecImpl for Stats {
    open spec fn obeys_sub_spec() -> bool {
        true
    }

    open spec fn sub_req(self, rhs: Self) -> bool {
        self.fits_isize() && rhs.fits_isize()
    }

    open spec fn sub_spec(self, rhs: Self) -> StatsDiff {
        StatsDiff {
            created: (self.created - rhs.created) as isize,
            changed: (self.changed - rhs.changed) as isize,
            recomputed: (self.recomputed - rhs.recomputed) as isize,
            invalidated: (self.invalidated - rhs.invalidated) as isize,
            became_necessary: (self.became_necessary - rhs.became_necessary) as isize,
            became_unnecessary: (self.became_unnecessary - rhs.became_unnecessary) as isize,
            necessary: (self.necessary - rhs.necessary) as isize,
        }
    }
}

/// What the engine is doing at the moment.
#[derive(Debug, Clone, Copy, PartialEq, Eq)]
pub enum IncrStatus {
    RunningOnUpdateHandlers,
    NotStabilising,
    Stabilising,
}

/// The answer to a request to make an expert node stale.
#[derive(Debug, Clone, Copy, PartialEq, Eq)]
pub enum MakeStale {
    /// The node was stale already.
    AlreadyStale,
    /// The node has just been made stale.
    MadeStale,
}

/// The values a graph can hold.
pub trait Value: Clone + PartialEq + 'static {

}

impl<T: Clone + PartialEq + 'static> Value for T {

}

/// A self-check that panics when a structure's invariant is broken.
pub trait Invariant {
    fn check_invariant(&self);
}

/// A map from keys to weak references to nodes, which can drop the entries whose
/// nodes are gone.
pub trait WeakMap {
    fn len(&self) -> usize;

    fn capacity(&self) -> usize;

    fn garbage_collect(&mut self);
}

/// Whether a new value should be passed on after the previous one.
pub trait ShouldEmit {
    fn should_emit(&self, next_value: &Self) -> bool;
}

impl<T: PartialEq> ShouldEmit for T {
    /// Pass on a value that differs from the previous one.
    fn should_emit(&self, next_value: &Self) -> (r: bool)
        ensures
            T::obeys_eq_spec() ==> r == !self.eq_spec(next_value),
    {
        !self.eq(next_value)
    }
}

} // verus!
