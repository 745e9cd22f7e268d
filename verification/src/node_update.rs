use vstd::prelude::*;

use crate::stabilisation_num::StabilisationNum;

verus! {

/// The last kind of update a handler passed on.
#[derive(Copy, Clone, PartialEq, Eq, Hash, Debug)]
pub enum Previously {
    NeverBeenUpdated,
    Necessary,
    Changed,
    Invalidated,
    Unnecessary,
}

/// A kind of update of a watched node, before its value is attached.
#[derive(Copy, Clone, PartialEq, Eq, Debug)]
pub enum NodeUpdateDelayed {
    Necessary,
    Changed,
    Invalidated,
    Unnecessary,
}

/// An update of a watched node, as an update handler receives it.
#[derive(Debug)]
pub enum NodeUpdate<T> {
    Necessary(T),
    Changed(T),
    Invalidated,
    Unnecessary,
}

/// The record a handler keeps once it has passed on update `u`.
pub open spec fn previously_after(u: NodeUpdateDelayed) -> Previously {
    match u {
        NodeUpdateDelayed::Changed => Previously::Changed,
        NodeUpdateDelayed::Necessary => Previously::Necessary,
        NodeUpdateDelayed::Invalidated => Previously::Invalidated,
        NodeUpdateDelayed::Unnecessary => Previously::Unnecessary,
    }
}

/// What a handler that last passed on `prev` passes on for update `u`: nothing once
/// the node was invalidated, nothing when there is no news, and an initialisation
/// (`Necessary`) in place of a change it has not seen the start of.
pub open spec fn spec_decide(prev: Previously, u: NodeUpdateDelayed) -> Option<NodeUpdateDelayed> {
    match (prev, u) {
        (Previously::Invalidated, _) => None,
        (Previously::Changed, NodeUpdateDelayed::Necessary) => None,
        (Previously::Necessary, NodeUpdateDelayed::Necessary) => None,
        (Previously::Unnecessary, NodeUpdateDelayed::Unnecessary) => None,
        (Previously::NeverBeenUpdated, NodeUpdateDelayed::Changed) => Some(NodeUpdateDelayed::Necessary),
        (Previously::Unnecessary, NodeUpdateDelayed::Changed) => Some(NodeUpdateDelayed::Necessary),
        (_, u) => Some(u),
    }
}

/// One run of a handler created at `created_at` that last passed on `prev`, for update
/// `u` during stabilisation `now`: the new record and what is passed on. A handler
/// created during the current stabilisation waits for the next one.
pub open spec fn spec_run(
    prev: Previously,
    created_at: StabilisationNum,
    u: NodeUpdateDelayed,
    now: StabilisationNum,
) -> (Previously, Option<NodeUpdateDelayed>) {
    if created_at.0 < now.0 {
        match spec_decide(prev, u) {
            Some(d) => (previously_after(d), Some(d)),
            None => (prev, None),
        }
    } else {
        (prev, None)
    }
}

impl<T> NodeUpdate<T> {
    /// Attach the node's value to an update; updates that carry a value need one.
    pub fn from_delayed(u: NodeUpdateDelayed, value: Option<T>) -> (r: NodeUpdate<T>)
        requires
            (u == NodeUpdateDelayed::Changed || u == NodeUpdateDelayed::Necessary) ==> value is Some,
        ensures
            u == NodeUpdateDelayed::Changed ==> r == NodeUpdate::Changed(value.unwrap()),
            u == NodeUpdateDelayed::Necessary ==> r == NodeUpdate::Necessary(value.unwrap()),
            u == NodeUpdateDelayed::Invalidated ==> r is Invalidated,
            u == NodeUpdateDelayed::Unnecessary ==> r is Unnecessary,
    {
        match u {
            NodeUpdateDelayed::Changed => NodeUpdate::Changed(value.unwrap()),
            NodeUpdateDelayed::Necessary => NodeUpdate::Necessary(value.unwrap()),
            NodeUpdateDelayed::Invalidated => NodeUpdate::Invalidated,
            NodeUpdateDelayed::Unnecessary => NodeUpdate::Unnecessary,
        }
    }
}

/// The decisions of one update handler: which updates of the watched node reach the
/// handler's function, which the caller then runs with the node's value.
pub struct OnUpdateHandler {
    pub previous_update_kind: Previously,
    pub created_at: StabilisationNum,
}

impl OnUpdateHandler {
    /// A handler created during stabilisation `created_at` that has passed on nothing.
    pub fn new(created_at: StabilisationNum) -> (r: Self)
        ensures
            r.previous_update_kind == Previously::NeverBeenUpdated,
            r.created_at == created_at,
    {
        OnUpdateHandler { previous_update_kind: Previously::NeverBeenUpdated, created_at }
    }

    /// Pass `node_update` on, remembering its kind.
    fn really_run(&mut self, node_update: NodeUpdateDelayed) -> (r: NodeUpdateDelayed)
        ensures
            r == node_update,
            final(self).previous_update_kind == previously_after(node_update),
            final(self).created_at == old(self).created_at,
    {
        self.previous_update_kind = match node_update {
            NodeUpdateDelayed::Changed => Previously::Changed,
            NodeUpdateDelayed::Necessary => Previously::Necessary,
            NodeUpdateDelayed::Invalidated => Previously::Invalidated,
            NodeUpdateDelayed::Unnecessary => Previously::Unnecessary,
        };
        node_update
    }

    /// Decide what update `node_update`, seen during stabilisation `now`, passes on to
    /// the handler's function, if anything.
    pub fn run(&mut self, node_update: NodeUpdateDelayed, now: StabilisationNum) -> (r: Option<NodeUpdateDelayed>)
        ensures
            (final(self).previous_update_kind, r) == spec_run(
                old(self).previous_update_kind,
                old(self).created_at,
                node_update,
                now,
            ),
            final(self).created_at == old(self).created_at,
    {
        if self.created_at.0 < now.0 {
            match (self.previous_update_kind, node_update) {
                (Previously::Invalidated, _) => None,
                (Previously::Changed, NodeUpdateDelayed::Necessary)
                | (Previously::Necessary, NodeUpdateDelayed::Necessary)
                | (Previously::Unnecessary, NodeUpdateDelayed::Unnecessary) => None,
                (Previously::NeverBeenUpdated, NodeUpdateDelayed::Changed)
                | (Previously::Unnecessary, NodeUpdateDelayed::Changed) => {
                    Some(self.really_run(NodeUpdateDelayed::Necessary))
                },
                (_, u) => Some(self.really_run(u)),
            }
        } else {
            None
        }
    }
}

/// Once a handler has passed on an invalidation, it passes on nothing more, whatever
/// comes later.
pub proof fn lemma_nothing_after_invalidation(
    prev: Previously,
    created_at: StabilisationNum,
    u1: NodeUpdateDelayed,
    now1: StabilisationNum,
    u2: NodeUpdateDelayed,
    now2: StabilisationNum,
)
    requires
        spec_run(prev, created_at, u1, now1).1 == Some(NodeUpdateDelayed::Invalidated),
    ensures
        spec_run(spec_run(prev, created_at, u1, now1).0, created_at, u2, now2).1 is None,
        spec_run(spec_run(prev, created_at, u1, now1).0, created_at, u2, now2).0 == Previously::Invalidated,
{
}

/// A handler's first delivery is never a change: it sees the node's value first as an
/// initialisation.
pub proof fn lemma_first_delivery_not_a_change(created_at: StabilisationNum, u: NodeUpdateDelayed, now: StabilisationNum)
    ensures
        spec_run(Previously::NeverBeenUpdated, created_at, u, now).1 != Some(NodeUpdateDelayed::Changed),
{
}

/// A handler created during a stabilisation passes nothing on during that stabilisation.
pub proof fn lemma_not_run_when_created(prev: Previously, created_at: StabilisationNum, u: NodeUpdateDelayed)
    ensures
        spec_run(prev, created_at, u, created_at) == (prev, None::<NodeUpdateDelayed>),
{
}

/// A handler that has started passing on the watched node's value (its last delivery
/// was an initialisation or a change) passes on every later change as a change, in any
/// stabilisation after the one it was created in.
pub proof fn lemma_changes_keep_flowing(prev: Previously, created_at: StabilisationNum, now: StabilisationNum)
    requires
        prev == Previously::Necessary || prev == Previously::Changed,
        created_at.0 < now.0,
    ensures
        spec_run(prev, created_at, NodeUpdateDelayed::Changed, now) == (
            Previously::Changed,
            Some(NodeUpdateDelayed::Changed),
        ),
{
}

/// However many changes arrive one after another, from the second one on each reaches
/// the handler as a change; the first one reaches a handler that has not seen the node's
/// value yet as an initialisation.
pub proof fn lemma_change_after_change(
    prev: Previously,
    created_at: StabilisationNum,
    now1: StabilisationNum,
    now2: StabilisationNum,
)
    requires
        prev != Previously::Invalidated,
        created_at.0 < now1.0,
        created_at.0 < now2.0,
    ensures
        spec_run(prev, created_at, NodeUpdateDelayed::Changed, now1).1 is Some,
        spec_run(spec_run(prev, created_at, NodeUpdateDelayed::Changed, now1).0, created_at, NodeUpdateDelayed::Changed, now2).1
            == Some(NodeUpdateDelayed::Changed),
        (prev == Previously::NeverBeenUpdated || prev == Previously::Unnecessary) ==> spec_run(
            prev,
            created_at,
            NodeUpdateDelayed::Changed,
            now1,
        ).1 == Some(NodeUpdateDelayed::Necessary),
{
}

/// A handler that has not seen an invalidation passes one on, and an update that brings
/// news (a change, or a change of neededness) is never dropped; only an update that
/// repeats what the handler last passed on is.
pub proof fn lemma_news_is_passed_on(prev: Previously, created_at: StabilisationNum, u: NodeUpdateDelayed, now: StabilisationNum)
    requires
        prev != Previously::Invalidated,
        created_at.0 < now.0,
    ensures
        u == NodeUpdateDelayed::Invalidated ==> spec_run(prev, created_at, u, now).1 == Some(
            NodeUpdateDelayed::Invalidated,
        ),
        u == NodeUpdateDelayed::Changed ==> spec_run(prev, created_at, u, now).1 is Some,
        u == NodeUpdateDelayed::Unnecessary ==> (spec_run(prev, created_at, u, now).1 is None <==> prev
            == Previously::Unnecessary),
        u == NodeUpdateDelayed::Necessary ==> (spec_run(prev, created_at, u, now).1 is None <==> (prev
            == Previously::Necessary || prev == Previously::Changed)),
        spec_run(prev, created_at, u, now).1 is None ==> spec_run(prev, created_at, u, now).0 == prev,
        spec_run(prev, created_at, u, now).1 matches Some(d) ==> d == u || (u == NodeUpdateDelayed::Changed && d
            == NodeUpdateDelayed::Necessary),
{
}

/// Nothing reaches a handler whose node was invalidated, nor a handler during the
/// stabilisation it was created in (or before), and then its record stays as it was.
pub proof fn lemma_silent_handlers(prev: Previously, created_at: StabilisationNum, u: NodeUpdateDelayed, now: StabilisationNum)
    requires
        prev == Previously::Invalidated || now.0 <= created_at.0,
    ensures
        spec_run(prev, created_at, u, now) == (prev, None::<NodeUpdateDelayed>),
{
}

/// What a handler remembers is the kind of the update it passed on last: after passing
/// on a change it treats a repeated initialisation as old news, and after passing on
/// an initialisation or a change it passes a change on as a change.
pub proof fn lemma_record_follows_delivery(
    prev: Previously,
    created_at: StabilisationNum,
    u: NodeUpdateDelayed,
    now: StabilisationNum,
    now2: StabilisationNum,
)
    requires
        created_at.0 < now2.0,
    ensures
        spec_run(prev, created_at, u, now).1 == Some(NodeUpdateDelayed::Changed) ==> spec_run(prev, created_at, u, now).0
            == Previously::Changed,
        spec_run(prev, created_at, u, now).1 == Some(NodeUpdateDelayed::Necessary) ==> spec_run(prev, created_at, u, now).0
            == Previously::Necessary,
        spec_run(prev, created_at, u, now).1 == Some(NodeUpdateDelayed::Invalidated) ==> spec_run(prev, created_at, u, now).0
            == Previously::Invalidated,
        spec_run(prev, created_at, u, now).1 == Some(NodeUpdateDelayed::Unnecessary) ==> spec_run(prev, created_at, u, now).0
            == Previously::Unnecessary,
        spec_run(prev, created_at, u, now).1 == Some(NodeUpdateDelayed::Changed) ==> spec_run(
            spec_run(prev, created_at, u, now).0,
            created_at,
            NodeUpdateDelayed::Necessary,
            now2,
        ).1 is None,
{
}

} // verus!
