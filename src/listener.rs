use crate::subscription::{
    is_mutation_outcome, same_subscription, scope_event_type, single_active, single_event_type, ArrayBuilder, CompoundedSubscription,
    EventArray, EventType, Mutation, MutationOutcome, MutationPolicies, SingleSubscription,
    SubscriptionError,
};
use vstd::prelude::*;

verus! {

pub type ListenerId = u64;

/// A subscription to one event type.
pub trait Subscription {
    spec fn spec_event_type(&self) -> EventType;

    spec fn spec_active(&self) -> bool;

    fn event_type(&self) -> (r: EventType)
        ensures
            r == self.spec_event_type(),
    ;

    fn active(&self) -> (r: bool)
        ensures
            r == self.spec_active(),
    ;
}

impl Subscription for SingleSubscription {
    open spec fn spec_event_type(&self) -> EventType {
        single_event_type(self)
    }

    open spec fn spec_active(&self) -> bool {
        single_active(self)
    }

    fn event_type(&self) -> (r: EventType) {
        SingleSubscription::event_type(self)
    }

    fn active(&self) -> (r: bool) {
        SingleSubscription::active(self)
    }
}

impl Subscription for CompoundedSubscription {
    open spec fn spec_event_type(&self) -> EventType {
        self.event_type
    }

    open spec fn spec_active(&self) -> bool {
        self.active > 0
    }

    fn event_type(&self) -> (r: EventType) {
        self.event_type
    }

    fn active(&self) -> (r: bool) {
        self.active > 0
    }
}

/// The channel through which a listener's notifications leave; it belongs to
/// whoever listens, which closes it as it sees fit.
pub trait Connection {
    fn close(&self) -> bool;

    fn is_closed(&self) -> bool;
}

/// A listener of notifications: its connection and its subscriptions.
pub struct Listener<C: Connection> {
    pub connection: C,
    pub subscriptions: EventArray<SingleSubscription>,
}

impl<C: Connection + Clone> Listener<C> {
    pub fn new(id: ListenerId, connection: C) -> (r: Listener<C>)
        ensures
            r.connection == connection,
            r.subscriptions.wf(),
            forall|e: EventType| #[trigger]
                single_event_type(&r.subscriptions.at(e)) == e && !single_active(
                    &r.subscriptions.at(e),
                ),
    {
        Listener { connection, subscriptions: ArrayBuilder::single(id) }
    }

    pub fn connection(&self) -> C {
        self.connection.clone()
    }

    /// Applies a mutation to the subscription of its event type.
    pub fn mutate(&mut self, mutation: Mutation, policies: MutationPolicies) -> (r: Result<
        MutationOutcome,
        SubscriptionError,
    >)
        requires
            old(self).subscriptions.wf(),
            forall|e: EventType| #[trigger]
                single_event_type(&old(self).subscriptions.at(e)) == e,
        ensures
            final(self).subscriptions.wf(),
            forall|e: EventType| #[trigger]
                single_event_type(&final(self).subscriptions.at(e)) == e,
            r matches Ok(o) && is_mutation_outcome(
                &old(self).subscriptions.at(scope_event_type(&mutation.scope)),
                &mutation,
                policies,
                &o,
            ),
            r matches Ok(o) ==> (o.mutated matches Some(m) ==> same_subscription(
                &final(self).subscriptions.at(scope_event_type(&mutation.scope)),
                &m,
            )),
            r matches Ok(o) ==> (o.mutated is None ==> final(self).subscriptions.at(
                scope_event_type(&mutation.scope),
            ) == old(self).subscriptions.at(scope_event_type(&mutation.scope))),
            forall|e: EventType|
                e != scope_event_type(&mutation.scope) ==> #[trigger] final(self).subscriptions.at(e)
                    == old(self).subscriptions.at(e),
    {
        let event_type = mutation.event_type();
        let i = event_type.index();
        let mut current = self.subscriptions.items.remove(i);
        assert(single_event_type(&old(self).subscriptions.at(event_type)) == event_type);
        let r = current.mutate(mutation, policies);
        self.subscriptions.items.insert(i, current);
        proof {
            assert(self.subscriptions.items@[i as int] == current);
            assert forall|e: EventType| #[trigger]
                single_event_type(&self.subscriptions.at(e)) == e by {
                lemma_event_index_injective(e, event_type);
                if crate::subscription::event_index(e) != i {
                    assert(self.subscriptions.at(e) == old(self).subscriptions.at(e));
                }
            }
            assert forall|e: EventType|
                e != scope_event_type(&mutation.scope) implies #[trigger] self.subscriptions.at(e)
                == old(self).subscriptions.at(e) by {
                lemma_event_index_injective(e, event_type);
            }
        }
        r
    }

    pub fn close(&self) {
        if !self.is_closed() {
            self.connection.close();
        }
    }

    pub fn is_closed(&self) -> bool {
        self.connection.is_closed()
    }
}

proof fn lemma_event_index_injective(a: EventType, b: EventType)
    ensures
        crate::subscription::event_index(a) == crate::subscription::event_index(b) ==> a == b,
{
}

} // verus!
