use vstd::prelude::*;

use crate::public::IncrStatus;

verus! {

/// Identifies an observer; handed out in increasing order.
#[derive(Debug, Copy, Clone, Hash, PartialEq, Eq)]
pub struct ObserverId(usize);

impl ObserverId {
    pub closed spec fn spec_value(&self) -> usize {
        self.0
    }

    /// The identifier after `last`, the last one handed out, which it then becomes.
    pub fn next(last: &mut usize) -> (r: ObserverId)
        requires
            *old(last) < usize::MAX,
        ensures
            *final(last) == *old(last) + 1,
            r.spec_value() == *final(last),
    {
        *last = *last + 1;
        ObserverId(*last)
    }

    /// The number behind the identifier.
    pub fn value(&self) -> (r: usize)
        ensures
            r == self.spec_value(),
    {
        self.0
    }
}

/// Identifies one subscription of one observer.
#[derive(Debug, Copy, Clone, PartialEq, Eq, Hash)]
pub struct SubscriptionToken(ObserverId, i32);

impl SubscriptionToken {
    pub closed spec fn spec_observer(&self) -> ObserverId {
        self.0
    }

    pub closed spec fn spec_number(&self) -> i32 {
        self.1
    }

    /// The token that follows this one for the same observer.
    pub fn succ(&self) -> (r: Self)
        requires
            self.spec_number() < i32::MAX,
        ensures
            r.spec_observer() == self.spec_observer(),
            r.spec_number() == self.spec_number() + 1,
    {
        SubscriptionToken(self.0, self.1 + 1)
    }

    /// The observer this token belongs to.
    pub fn observer_id(&self) -> (r: ObserverId)
        ensures
            r == self.spec_observer(),
    {
        self.0
    }
}

/// The life of an observer:
/// `Created` to `InUse` to `Disallowed` to `Unlinked`, or `Created` straight to `Unlinked`.
#[derive(Copy, Clone, Debug, PartialEq, Eq)]
pub enum ObserverState {
    Created,
    InUse,
    Disallowed,
    Unlinked,
}

/// Why an observer could not answer.
#[derive(Debug, PartialEq, Eq, Clone)]
#[non_exhaustive]
pub enum ObserverError {
    CurrentlyStabilising,
    NeverStabilised,
    Disallowed,
    ObservingInvalid,
    Mismatch,
}

/// Whether the state machine of an observer may go from `a` to `b` in one step.
pub open spec fn observer_step(a: ObserverState, b: ObserverState) -> bool {
    ||| a == b
    ||| (a == ObserverState::Created && b == ObserverState::InUse)
    ||| (a == ObserverState::InUse && b == ObserverState::Disallowed)
    ||| (a == ObserverState::Disallowed && b == ObserverState::Unlinked)
    ||| (a == ObserverState::Created && b == ObserverState::Unlinked)
}

/// The bookkeeping of one observer: its state, the node it watches, and its
/// subscriptions, each a handler of type `H` under its own token.
pub struct InternalObserver<H> {
    id: ObserverId,
    state: ObserverState,
    observing: usize,
    handlers: Vec<(SubscriptionToken, H)>,
    next_subscriber: SubscriptionToken,
}

impl<H> InternalObserver<H> {
    pub closed spec fn spec_id(&self) -> ObserverId {
        self.id
    }

    pub closed spec fn spec_state(&self) -> ObserverState {
        self.state
    }

    pub closed spec fn spec_observing(&self) -> usize {
        self.observing
    }

    /// The tokens of the current subscriptions, in the order they were made.
    pub closed spec fn tokens(&self) -> Seq<SubscriptionToken> {
        self.handlers@.map_values(|p: (SubscriptionToken, H)| p.0)
    }

    /// The number the next subscription's token gets.
    pub closed spec fn next_number(&self) -> int {
        self.next_subscriber.1 as int
    }

    /// Tokens belong to this observer, are numbered from 1 below the next number, and
    /// are numbered in increasing order (so no two are alike).
    pub closed spec fn wf(&self) -> bool {
        &&& self.next_subscriber.0 == self.id
        &&& self.next_subscriber.1 >= 1
        &&& forall|i: int|
            0 <= i < self.handlers@.len() ==> {
                &&& (#[trigger] self.handlers@[i]).0.0 == self.id
                &&& 1 <= self.handlers@[i].0.1 < self.next_subscriber.1
            }
        &&& forall|i: int, j: int|
            0 <= i < j < self.handlers@.len() ==> (#[trigger] self.handlers@[i]).0.1
                < (#[trigger] self.handlers@[j]).0.1
    }

    /// A fresh observer of node `observing`, with no subscriptions.
    pub fn new(id: ObserverId, observing: usize) -> (r: Self)
        ensures
            r.wf(),
            r.spec_id() == id,
            r.spec_state() == ObserverState::Created,
            r.spec_observing() == observing,
            r.tokens().len() == 0,
            r.next_number() == 1,
    {
        InternalObserver { id, state: ObserverState::Created, observing, handlers: Vec::new(), next_subscriber: SubscriptionToken(id, 1) }
    }

    pub fn id(&self) -> (r: ObserverId)
        ensures
            r == self.spec_id(),
    {
        self.id
    }

    pub fn state(&self) -> (r: ObserverState)
        ensures
            r == self.spec_state(),
    {
        self.state
    }

    pub fn observing(&self) -> (r: usize)
        ensures
            r == self.spec_observing(),
    {
        self.observing
    }

    /// Whether the observer may still be read and subscribed to.
    pub fn use_is_allowed(&self) -> (r: bool)
        ensures
            r == (self.spec_state() == ObserverState::Created || self.spec_state() == ObserverState::InUse),
    {
        match self.state {
            ObserverState::Created | ObserverState::InUse => true,
            ObserverState::Disallowed | ObserverState::Unlinked => false,
        }
    }

    /// Number of subscriptions.
    pub fn num_handlers(&self) -> (r: i32)
        requires
            self.tokens().len() <= i32::MAX,
        ensures
            r == self.tokens().len(),
    {
        self.handlers.len() as i32
    }

    /// Stop the observer. One that was never in use is unlinked at once and forgets its
    /// subscriptions; one in use becomes disallowed, and `true` says it must be unlinked
    /// at the start of the next stabilisation. Either way the count of active observers
    /// drops by one. A stopped observer is left alone.
    pub fn disallow_future_use(&mut self, num_active_observers: &mut usize) -> (must_unlink: bool)
        requires
            old(self).wf(),
            (old(self).spec_state() == ObserverState::Created || old(self).spec_state() == ObserverState::InUse)
                ==> *old(num_active_observers) > 0,
        ensures
            final(self).wf(),
            final(self).spec_id() == old(self).spec_id(),
            final(self).spec_observing() == old(self).spec_observing(),
            final(self).next_number() == old(self).next_number(),
            observer_step(old(self).spec_state(), final(self).spec_state()),
            must_unlink == (old(self).spec_state() == ObserverState::InUse),
            old(self).spec_state() == ObserverState::Created ==> {
                &&& final(self).spec_state() == ObserverState::Unlinked
                &&& final(self).tokens().len() == 0
                &&& *final(num_active_observers) == *old(num_active_observers) - 1
            },
            old(self).spec_state() == ObserverState::InUse ==> {
                &&& final(self).spec_state() == ObserverState::Disallowed
                &&& final(self).tokens() == old(self).tokens()
                &&& *final(num_active_observers) == *old(num_active_observers) - 1
            },
            (old(self).spec_state() == ObserverState::Disallowed || old(self).spec_state() == ObserverState::Unlinked)
                ==> {
                &&& final(self).spec_state() == old(self).spec_state()
                &&& final(self).tokens() == old(self).tokens()
                &&& *final(num_active_observers) == *old(num_active_observers)
            },
    {
        match self.state {
            ObserverState::Disallowed | ObserverState::Unlinked => false,
            ObserverState::Created => {
                *num_active_observers = *num_active_observers - 1;
                self.state = ObserverState::Unlinked;
                self.handlers = Vec::new();
                proof {
                    assert(self.tokens().len() == 0);
                }
                false
            },
            ObserverState::InUse => {
                *num_active_observers = *num_active_observers - 1;
                self.state = ObserverState::Disallowed;
                true
            },
        }
    }

    /// At the start of a stabilisation, a newly created observer comes into use; the
    /// number of its subscriptions comes back, to be added to the watched node's count
    /// of update handlers. An observer already unlinked stays as it is and gives 0.
    pub fn make_in_use(&mut self) -> (added_handlers: i32)
        requires
            old(self).wf(),
            old(self).spec_state() == ObserverState::Created || old(self).spec_state() == ObserverState::Unlinked,
            old(self).tokens().len() <= i32::MAX,
        ensures
            final(self).wf(),
            final(self).spec_id() == old(self).spec_id(),
            final(self).spec_observing() == old(self).spec_observing(),
            final(self).tokens() == old(self).tokens(),
            final(self).next_number() == old(self).next_number(),
            observer_step(old(self).spec_state(), final(self).spec_state()),
            old(self).spec_state() == ObserverState::Created ==> final(self).spec_state() == ObserverState::InUse
                && added_handlers == old(self).tokens().len(),
            old(self).spec_state() == ObserverState::Unlinked ==> final(self).spec_state() == ObserverState::Unlinked
                && added_handlers == 0,
    {
        match self.state {
            ObserverState::Created => {
                self.state = ObserverState::InUse;
                self.handlers.len() as i32
            },
            _ => 0,
        }
    }

    /// At the start of a stabilisation, a disallowed observer is unlinked from the node
    /// it watches; the number of its subscriptions comes back, to be taken off that
    /// node's count of update handlers.
    pub fn unlink(&mut self) -> (removed_handlers: i32)
        requires
            old(self).wf(),
            old(self).spec_state() == ObserverState::Disallowed,
            old(self).tokens().len() <= i32::MAX,
        ensures
            final(self).wf(),
            final(self).spec_id() == old(self).spec_id(),
            final(self).spec_observing() == old(self).spec_observing(),
            final(self).tokens() == old(self).tokens(),
            final(self).next_number() == old(self).next_number(),
            final(self).spec_state() == ObserverState::Unlinked,
            observer_step(old(self).spec_state(), final(self).spec_state()),
            removed_handlers == old(self).tokens().len(),
    {
        self.state = ObserverState::Unlinked;
        self.handlers.len() as i32
    }

    /// The watched node's value as the observer reports it: none before the observer
    /// came into use, none once it is stopped, and an error when the node has no value.
    pub fn value_inner<T>(&self, node_value: Option<T>) -> (r: Result<T, ObserverError>)
        ensures
            self.spec_state() == ObserverState::Created ==> r == Err::<T, ObserverError>(
                ObserverError::NeverStabilised,
            ),
            self.spec_state() == ObserverState::InUse ==> r == (match node_value {
                Some(v) => Ok::<T, ObserverError>(v),
                None => Err(ObserverError::ObservingInvalid),
            }),
            (self.spec_state() == ObserverState::Disallowed || self.spec_state() == ObserverState::Unlinked)
                ==> r == Err::<T, ObserverError>(ObserverError::Disallowed),
    {
        match self.state {
            ObserverState::Created => Err(ObserverError::NeverStabilised),
            ObserverState::InUse => match node_value {
                Some(v) => Ok(v),
                None => Err(ObserverError::ObservingInvalid),
            },
            ObserverState::Disallowed | ObserverState::Unlinked => Err(ObserverError::Disallowed),
        }
    }

    /// Read the observer while the engine is in `status` (`None` once the engine is
    /// gone): refused during a stabilisation, otherwise as [`Self::value_inner`].
    pub fn value<T>(&self, status: Option<IncrStatus>, node_value: Option<T>) -> (r: Result<T, ObserverError>)
        ensures
            status is None ==> r == Err::<T, ObserverError>(ObserverError::ObservingInvalid),
            status == Some(IncrStatus::Stabilising) ==> r == Err::<T, ObserverError>(
                ObserverError::CurrentlyStabilising,
            ),
            (status == Some(IncrStatus::NotStabilising) || status == Some(IncrStatus::RunningOnUpdateHandlers))
                ==> {
                &&& self.spec_state() == ObserverState::Created ==> r == Err::<T, ObserverError>(
                    ObserverError::NeverStabilised,
                )
                &&& self.spec_state() == ObserverState::InUse ==> r == (match node_value {
                    Some(v) => Ok::<T, ObserverError>(v),
                    None => Err(ObserverError::ObservingInvalid),
                })
                &&& (self.spec_state() == ObserverState::Disallowed || self.spec_state()
                    == ObserverState::Unlinked) ==> r == Err::<T, ObserverError>(ObserverError::Disallowed)
            },
    {
        match status {
            None => Err(ObserverError::ObservingInvalid),
            Some(IncrStatus::Stabilising) => Err(ObserverError::CurrentlyStabilising),
            Some(IncrStatus::NotStabilising) | Some(IncrStatus::RunningOnUpdateHandlers) => self.value_inner(node_value),
        }
    }

    /// Add a subscription with `handler`. Refused once the observer is stopped.
    /// Otherwise the new token comes back, numbered after every earlier one; for an
    /// observer in use, the watched node's count of update handlers goes up by one.
    pub fn subscribe(&mut self, handler: H, node_handlers: &mut i32) -> (r: Result<SubscriptionToken, ObserverError>)
        requires
            old(self).wf(),
            old(self).next_number() < i32::MAX,
            old(self).spec_state() == ObserverState::InUse ==> *old(node_handlers) < i32::MAX,
        ensures
            final(self).wf(),
            final(self).spec_id() == old(self).spec_id(),
            final(self).spec_observing() == old(self).spec_observing(),
            final(self).spec_state() == old(self).spec_state(),
            (old(self).spec_state() == ObserverState::Disallowed || old(self).spec_state() == ObserverState::Unlinked)
                ==> {
                &&& r == Err::<SubscriptionToken, ObserverError>(ObserverError::Disallowed)
                &&& final(self).tokens() == old(self).tokens()
                &&& final(self).next_number() == old(self).next_number()
                &&& *final(node_handlers) == *old(node_handlers)
            },
            (old(self).spec_state() == ObserverState::Created || old(self).spec_state() == ObserverState::InUse)
                ==> {
                &&& r matches Ok(t) && t.spec_observer() == old(self).spec_id() && t.spec_number()
                    == old(self).next_number()
                    && final(self).tokens() == old(self).tokens().push(t)
                &&& final(self).next_number() == old(self).next_number() + 1
                &&& *final(node_handlers) == *old(node_handlers) + (if old(self).spec_state()
                    == ObserverState::InUse {
                    1int
                } else {
                    0int
                })
            },
    {
        match self.state {
            ObserverState::Disallowed | ObserverState::Unlinked => Err(ObserverError::Disallowed),
            ObserverState::Created | ObserverState::InUse => {
                let token = self.next_subscriber;
                self.next_subscriber = token.succ();
                self.handlers.push((token, handler));
                if let ObserverState::InUse = self.state {
                    *node_handlers = *node_handlers + 1;
                }
                proof {
                    assert(self.tokens() =~= old(self).tokens().push(token));
                    assert forall|i: int, j: int|
                        0 <= i < j < self.handlers@.len() implies (#[trigger] self.handlers@[i]).0.1
                            < (#[trigger] self.handlers@[j]).0.1 by {
                        if j == self.handlers@.len() - 1 {
                            assert(old(self).handlers@[i] == self.handlers@[i]);
                        } else {
                            assert(old(self).handlers@[i] == self.handlers@[i]);
                            assert(old(self).handlers@[j] == self.handlers@[j]);
                        }
                    }
                }
                Ok(token)
            },
        }
    }

    /// Cancel the subscription `token`. A token of another observer is refused; a
    /// stopped observer has nothing left to cancel. For an observer in use the watched
    /// node's count of update handlers goes up by one, as it does when a subscription
    /// is made: the count is bumped on every change of the observer's subscriptions.
    pub fn unsubscribe(&mut self, token: SubscriptionToken, node_handlers: &mut i32) -> (r: Result<(), ObserverError>)
        requires
            old(self).wf(),
            old(self).spec_state() == ObserverState::InUse ==> *old(node_handlers) < i32::MAX,
        ensures
            final(self).wf(),
            final(self).spec_id() == old(self).spec_id(),
            final(self).spec_observing() == old(self).spec_observing(),
            final(self).spec_state() == old(self).spec_state(),
            final(self).next_number() == old(self).next_number(),
            token.spec_observer() != old(self).spec_id() ==> r == Err::<(), ObserverError>(ObserverError::Mismatch)
                && final(self).tokens() == old(self).tokens() && *final(node_handlers) == *old(node_handlers),
            token.spec_observer() == old(self).spec_id() ==> r is Ok,
            token.spec_observer() == old(self).spec_id() && (old(self).spec_state() == ObserverState::Created
                || old(self).spec_state() == ObserverState::InUse) ==> final(self).tokens() == old(
                self,
            ).tokens().filter(|t: SubscriptionToken| t != token),
            token.spec_observer() == old(self).spec_id() && (old(self).spec_state() == ObserverState::Disallowed
                || old(self).spec_state() == ObserverState::Unlinked) ==> final(self).tokens() == old(
                self,
            ).tokens(),
            *final(node_handlers) == *old(node_handlers) + (if token.spec_observer() == old(self).spec_id()
                && old(self).spec_state() == ObserverState::InUse {
                1int
            } else {
                0int
            }),
    {
        if token.0.0 != self.id.0 {
            return Err(ObserverError::Mismatch);
        }
        match self.state {
            ObserverState::Disallowed | ObserverState::Unlinked => Ok(()),
            ObserverState::Created | ObserverState::InUse => {
                self.remove_token(token);
                if let ObserverState::InUse = self.state {
                    *node_handlers = *node_handlers + 1;
                }
                Ok(())
            },
        }
    }

    /// Drop the subscription `token`, if there is one.
    fn remove_token(&mut self, token: SubscriptionToken)
        requires
            old(self).wf(),
        ensures
            final(self).wf(),
            final(self).spec_id() == old(self).spec_id(),
            final(self).spec_observing() == old(self).spec_observing(),
            final(self).spec_state() == old(self).spec_state(),
            final(self).next_number() == old(self).next_number(),
            final(self).tokens() == old(self).tokens().filter(|t: SubscriptionToken| t != token),
    {
        let n = self.handlers.len();
        let mut i: usize = 0;
        while i < n
            invariant
                old(self).wf(),
                self.handlers == old(self).handlers,
                self.id == old(self).id,
                self.state == old(self).state,
                self.observing == old(self).observing,
                self.next_subscriber == old(self).next_subscriber,
                n == self.handlers@.len(),
                i <= n,
                forall|j: int| 0 <= j < i ==> (#[trigger] self.handlers@[j]).0 != token,
            decreases n - i,
        {
            if self.handlers[i].0.1 == token.1 && self.handlers[i].0.0.0 == token.0.0 {
                let ghost before = self.tokens();
                self.handlers.remove(i);
                proof {
                    let ti = i as int;
                    assert(before[ti] == token);
                    assert forall|j: int| 0 <= j < before.len() && j != ti implies #[trigger] before[j] != token by {
                        if j < ti {
                            assert(old(self).handlers@[j].0.1 < old(self).handlers@[ti].0.1);
                        } else {
                            assert(old(self).handlers@[ti].0.1 < old(self).handlers@[j].0.1);
                        }
                    }
                    lemma_filter_remove_one(before, token, ti);
                    assert(self.tokens() =~= before.remove(ti));
                    assert forall|a: int, b: int|
                        0 <= a < b < self.handlers@.len() implies (#[trigger] self.handlers@[a]).0.1
                            < (#[trigger] self.handlers@[b]).0.1 by {
                        let a0 = if a < ti { a } else { a + 1 };
                        let b0 = if b < ti { b } else { b + 1 };
                        assert(self.handlers@[a] == old(self).handlers@[a0]);
                        assert(self.handlers@[b] == old(self).handlers@[b0]);
                    }
                    assert forall|a: int| 0 <= a < self.handlers@.len() implies {
                        &&& (#[trigger] self.handlers@[a]).0.0 == self.id
                        &&& 1 <= self.handlers@[a].0.1 < self.next_subscriber.1
                    } by {
                        let a0 = if a < ti { a } else { a + 1 };
                        assert(self.handlers@[a] == old(self).handlers@[a0]);
                    }
                }
                return;
            }
            i = i + 1;
        }
        proof {
            let before = self.tokens();
            assert forall|j: int| 0 <= j < before.len() implies #[trigger] before[j] != token by {
                assert(self.handlers@[j].0 != token);
            }
            lemma_filter_none(before, token);
        }
    }
}

/// Filtering out a value that occurs only at index `i` removes index `i`.
proof fn lemma_filter_remove_one(s: Seq<SubscriptionToken>, x: SubscriptionToken, i: int)
    requires
        0 <= i < s.len(),
        s[i] == x,
        forall|j: int| 0 <= j < s.len() && j != i ==> #[trigger] s[j] != x,
    ensures
        s.filter(|t: SubscriptionToken| t != x) == s.remove(i),
    decreases s.len(),
{
    reveal(Seq::filter);
    let f = |t: SubscriptionToken| t != x;
    if i == s.len() - 1 {
        lemma_filter_none(s.drop_last(), x);
        assert(s.drop_last() =~= s.remove(i));
    } else {
        assert(s.last() != x);
        lemma_filter_remove_one(s.drop_last(), x, i);
        assert(s.remove(i) =~= s.drop_last().remove(i).push(s.last()));
    }
}

/// Filtering out a value that does not occur changes nothing.
proof fn lemma_filter_none(s: Seq<SubscriptionToken>, x: SubscriptionToken)
    requires
        forall|j: int| 0 <= j < s.len() ==> #[trigger] s[j] != x,
    ensures
        s.filter(|t: SubscriptionToken| t != x) == s,
    decreases s.len(),
{
    reveal(Seq::filter);
    if s.len() > 0 {
        lemma_filter_none(s.drop_last(), x);
        assert(s.drop_last().push(s.last()) =~= s);
    } else {
        assert(s.filter(|t: SubscriptionToken| t != x) =~= s);
    }
}

} // verus!
