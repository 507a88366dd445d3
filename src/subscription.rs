use vstd::prelude::*;

verus! {

/// The kinds of notification a listener can subscribe to.
#[derive(Clone, Copy, Debug, PartialEq, Eq, Structural)]
pub enum EventType {
    BlockAdded,
    VirtualChainChanged,
    FinalityConflict,
    FinalityConflictResolved,
    UtxosChanged,
    SinkBlueScoreChanged,
    VirtualDaaScoreChanged,
    PruningPointUtxoSetOverride,
    NewBlockTemplate,
}

/// How many event types there are.
pub const EVENT_COUNT: usize = 9;

/// The position of an event type in an `EventArray`.
pub open spec fn event_index(e: EventType) -> int {
    match e {
        EventType::BlockAdded => 0,
        EventType::VirtualChainChanged => 1,
        EventType::FinalityConflict => 2,
        EventType::FinalityConflictResolved => 3,
        EventType::UtxosChanged => 4,
        EventType::SinkBlueScoreChanged => 5,
        EventType::VirtualDaaScoreChanged => 6,
        EventType::PruningPointUtxoSetOverride => 7,
        EventType::NewBlockTemplate => 8,
    }
}

impl EventType {
    pub fn index(&self) -> (r: usize)
        ensures
            r == event_index(*self),
            r < EVENT_COUNT,
    {
        match self {
            EventType::BlockAdded => 0,
            EventType::VirtualChainChanged => 1,
            EventType::FinalityConflict => 2,
            EventType::FinalityConflictResolved => 3,
            EventType::UtxosChanged => 4,
            EventType::SinkBlueScoreChanged => 5,
            EventType::VirtualDaaScoreChanged => 6,
            EventType::PruningPointUtxoSetOverride => 7,
            EventType::NewBlockTemplate => 8,
        }
    }

    /// The event type at position `i`, if there is one.
    pub fn try_from_index(i: usize) -> (r: Option<EventType>)
        ensures
            i < EVENT_COUNT <==> r is Some,
            r matches Some(e) ==> event_index(e) == i,
    {
        if i == 0 {
            Some(EventType::BlockAdded)
        } else if i == 1 {
            Some(EventType::VirtualChainChanged)
        } else if i == 2 {
            Some(EventType::FinalityConflict)
        } else if i == 3 {
            Some(EventType::FinalityConflictResolved)
        } else if i == 4 {
            Some(EventType::UtxosChanged)
        } else if i == 5 {
            Some(EventType::SinkBlueScoreChanged)
        } else if i == 6 {
            Some(EventType::VirtualDaaScoreChanged)
        } else if i == 7 {
            Some(EventType::PruningPointUtxoSetOverride)
        } else if i == 8 {
            Some(EventType::NewBlockTemplate)
        } else {
            None
        }
    }

    /// Every event type, in index order.
    pub fn all() -> (r: Vec<EventType>)
        ensures
            r@.len() == EVENT_COUNT,
            forall|i: int| 0 <= i < EVENT_COUNT ==> event_index(#[trigger] r@[i]) == i,
    {
        let mut v: Vec<EventType> = Vec::new();
        let mut i: usize = 0;
        while i < EVENT_COUNT
            invariant
                i <= EVENT_COUNT,
                v@.len() == i,
                forall|k: int| 0 <= k < i ==> event_index(#[trigger] v@[k]) == k,
            decreases EVENT_COUNT - i,
        {
            v.push(EventType::try_from_index(i).unwrap());
            i = i + 1;
        }
        v
    }
}

/// One item per event type, at the event type's index.
pub struct EventArray<T> {
    pub items: Vec<T>,
}

impl<T> EventArray<T> {
    pub open spec fn wf(&self) -> bool {
        self.items@.len() == EVENT_COUNT
    }

    pub open spec fn at(&self, e: EventType) -> T {
        self.items@[event_index(e)]
    }

    pub fn get(&self, e: EventType) -> (r: &T)
        requires
            self.wf(),
        ensures
            *r == self.at(e),
    {
        &self.items[e.index()]
    }
}

/// Starts or stops a subscription.
#[derive(Clone, Copy, Debug, PartialEq, Eq, Structural)]
pub enum Command {
    Start,
    Stop,
}

impl Command {
    /// The wire code: zero to start, one to stop.
    pub fn to_i32(&self) -> (r: i32)
        ensures
            r == (if *self == Command::Start {
                0i32
            } else {
                1i32
            }),
    {
        match self {
            Command::Start => 0,
            Command::Stop => 1,
        }
    }

    /// Reads a wire code; anything but one means start.
    pub fn from_i32(item: i32) -> (r: Command)
        ensures
            r == (if item == 1 {
                Command::Stop
            } else {
                Command::Start
            }),
    {
        if item == 1 {
            Command::Stop
        } else {
            Command::Start
        }
    }

    pub fn label(&self) -> (r: &'static str)
        ensures
            *self == Command::Start ==> r@ == "start"@,
            *self == Command::Stop ==> r@ == "stop"@,
    {
        match self {
            Command::Start => "start",
            Command::Stop => "stop",
        }
    }
}

/// How finely UTXO-change subscriptions are tracked.
#[derive(Clone, Copy, Debug, PartialEq, Eq, Structural)]
pub enum UtxosChangedMutationPolicy {
    /// By address.
    AddressSet,
    /// All or nothing.
    Wildcard,
}

impl UtxosChangedMutationPolicy {
    pub fn default_policy() -> (r: UtxosChangedMutationPolicy)
        ensures
            r == UtxosChangedMutationPolicy::AddressSet,
    {
        UtxosChangedMutationPolicy::AddressSet
    }
}

#[derive(Clone, Copy, Debug, PartialEq, Eq, Structural)]
pub struct MutationPolicies {
    pub utxo_changed: UtxosChangedMutationPolicy,
}

impl MutationPolicies {
    pub fn new(utxo_changed: UtxosChangedMutationPolicy) -> (r: MutationPolicies)
        ensures
            r.utxo_changed == utxo_changed,
    {
        MutationPolicies { utxo_changed }
    }
}

/// What a subscription covers within its event type.
pub enum Scope {
    BlockAdded,
    VirtualChainChanged { include_accepted_transaction_ids: bool },
    FinalityConflict,
    FinalityConflictResolved,
    /// An empty address list means every address.
    UtxosChanged { addresses: Vec<String> },
    SinkBlueScoreChanged,
    VirtualDaaScoreChanged,
    PruningPointUtxoSetOverride,
    NewBlockTemplate,
}

pub open spec fn scope_event_type(scope: &Scope) -> EventType {
    match scope {
        Scope::BlockAdded => EventType::BlockAdded,
        Scope::VirtualChainChanged { .. } => EventType::VirtualChainChanged,
        Scope::FinalityConflict => EventType::FinalityConflict,
        Scope::FinalityConflictResolved => EventType::FinalityConflictResolved,
        Scope::UtxosChanged { .. } => EventType::UtxosChanged,
        Scope::SinkBlueScoreChanged => EventType::SinkBlueScoreChanged,
        Scope::VirtualDaaScoreChanged => EventType::VirtualDaaScoreChanged,
        Scope::PruningPointUtxoSetOverride => EventType::PruningPointUtxoSetOverride,
        Scope::NewBlockTemplate => EventType::NewBlockTemplate,
    }
}

impl Scope {
    pub fn event_type(&self) -> (r: EventType)
        ensures
            r == scope_event_type(self),
    {
        match self {
            Scope::BlockAdded => EventType::BlockAdded,
            Scope::VirtualChainChanged { .. } => EventType::VirtualChainChanged,
            Scope::FinalityConflict => EventType::FinalityConflict,
            Scope::FinalityConflictResolved => EventType::FinalityConflictResolved,
            Scope::UtxosChanged { .. } => EventType::UtxosChanged,
            Scope::SinkBlueScoreChanged => EventType::SinkBlueScoreChanged,
            Scope::VirtualDaaScoreChanged => EventType::VirtualDaaScoreChanged,
            Scope::PruningPointUtxoSetOverride => EventType::PruningPointUtxoSetOverride,
            Scope::NewBlockTemplate => EventType::NewBlockTemplate,
        }
    }
}

/// A subscription mutation: a start or stop command over a scope.
pub struct Mutation {
    pub command: Command,
    pub scope: Scope,
}

impl Mutation {
    pub fn new(command: Command, scope: Scope) -> (r: Mutation)
        ensures
            r.command == command,
            r.scope == scope,
    {
        Mutation { command, scope }
    }

    pub fn active(&self) -> (r: bool)
        ensures
            r == (self.command == Command::Start),
    {
        self.command == Command::Start
    }

    pub fn event_type(&self) -> (r: EventType)
        ensures
            r == scope_event_type(&self.scope),
    {
        self.scope.event_type()
    }
}

/// The state of one listener's subscription to one event type.
pub enum SingleSubscription {
    Overall { event_type: EventType, active: bool },
    VirtualChainChanged { active: bool, include_accepted_transaction_ids: bool },
    /// No addresses while active means every address.
    UtxosChanged { active: bool, listener_id: u64, addresses: Vec<String> },
}

pub open spec fn single_event_type(s: &SingleSubscription) -> EventType {
    match s {
        SingleSubscription::Overall { event_type, .. } => *event_type,
        SingleSubscription::VirtualChainChanged { .. } => EventType::VirtualChainChanged,
        SingleSubscription::UtxosChanged { .. } => EventType::UtxosChanged,
    }
}

pub open spec fn single_active(s: &SingleSubscription) -> bool {
    match s {
        SingleSubscription::Overall { active, .. } => *active,
        SingleSubscription::VirtualChainChanged { active, .. } => *active,
        SingleSubscription::UtxosChanged { active, .. } => *active,
    }
}

/// The state of all listeners' subscriptions to one event type, as a count of
/// the active ones.
pub struct CompoundedSubscription {
    pub event_type: EventType,
    pub active: usize,
}

/// Why a mutation was refused.
#[derive(Clone, Copy, Debug, PartialEq, Eq, Structural)]
pub enum SubscriptionError {
    /// The mutation is of another event type than the subscription.
    EventTypeMismatch,
}

/// What a mutation did: the new subscription state, if it changed, and the
/// mutations to pass on.
pub struct MutationOutcome {
    pub mutated: Option<SingleSubscription>,
    pub mutations: Vec<Mutation>,
}

impl MutationOutcome {
    pub fn new() -> (r: MutationOutcome)
        ensures
            r.mutated is None,
            r.mutations@.len() == 0,
    {
        MutationOutcome { mutated: None, mutations: Vec::new() }
    }

    pub fn with_mutations(mutations: Vec<Mutation>) -> (r: MutationOutcome)
        ensures
            r.mutated is None,
            r.mutations == mutations,
    {
        MutationOutcome { mutated: None, mutations }
    }

    pub fn with_mutated(mutated: SingleSubscription, mutations: Vec<Mutation>) -> (r:
        MutationOutcome)
        ensures
            r.mutated == Some(mutated),
            r.mutations == mutations,
    {
        MutationOutcome { mutated: Some(mutated), mutations }
    }

    /// Copies the new state, if any, into `target`, and hands the outcome back.
    pub fn apply_to(self, target: &mut SingleSubscription) -> (r: MutationOutcome)
        ensures
            self.mutated matches Some(m) ==> same_subscription(final(target), &m),
            self.mutated is None ==> *final(target) == *old(target),
            r == self,
    {
        if let Some(ref m) = self.mutated {
            *target = m.duplicate();
        }
        self
    }

    pub fn has_new_state(&self) -> (r: bool)
        ensures
            r == self.mutated is Some,
    {
        self.mutated.is_some()
    }

    pub fn has_changes(&self) -> (r: bool)
        ensures
            r == (self.mutated is Some || self.mutations@.len() > 0),
    {
        self.has_new_state() || self.mutations.len() > 0
    }
}

/// Two subscription states that agree field by field, addresses by content.
pub open spec fn same_subscription(a: &SingleSubscription, b: &SingleSubscription) -> bool {
    match (a, b) {
        (
            SingleSubscription::Overall { event_type: e1, active: a1 },
            SingleSubscription::Overall { event_type: e2, active: a2 },
        ) => e1 == e2 && a1 == a2,
        (
            SingleSubscription::VirtualChainChanged {
                active: a1,
                include_accepted_transaction_ids: i1,
            },
            SingleSubscription::VirtualChainChanged {
                active: a2,
                include_accepted_transaction_ids: i2,
            },
        ) => a1 == a2 && i1 == i2,
        (
            SingleSubscription::UtxosChanged { active: a1, listener_id: l1, addresses: s1 },
            SingleSubscription::UtxosChanged { active: a2, listener_id: l2, addresses: s2 },
        ) => a1 == a2 && l1 == l2 && s1@ == s2@,
        _ => false,
    }
}

/// Whether a mutation of the subscription's own event type changes it: a
/// start changes an inactive subscription, and an active one whose scope it
/// narrows or widens; a stop changes an active one.
pub open spec fn mutation_changes(
    s: &SingleSubscription,
    mutation: &Mutation,
    policies: MutationPolicies,
) -> bool {
    if mutation.command == Command::Start {
        !single_active(s) || match (s, &mutation.scope) {
            (
                SingleSubscription::VirtualChainChanged { include_accepted_transaction_ids: a, .. },
                Scope::VirtualChainChanged { include_accepted_transaction_ids: b },
            ) => a != b,
            (SingleSubscription::UtxosChanged { .. }, Scope::UtxosChanged { addresses }) =>
                addresses@.len() > 0 && policies.utxo_changed
                == UtxosChangedMutationPolicy::AddressSet,
            _ => false,
        }
    } else {
        single_active(s)
    }
}

/// `next` is the state that a changing mutation leaves: the command decides
/// activity; a start takes the scope's transaction-id flag, or its addresses
/// when tracked by address; a stop clears them.
pub open spec fn is_mutated_state(
    s: &SingleSubscription,
    mutation: &Mutation,
    policies: MutationPolicies,
    next: &SingleSubscription,
) -> bool {
    let start = mutation.command == Command::Start;
    match (s, &mutation.scope) {
        (SingleSubscription::VirtualChainChanged { .. }, Scope::VirtualChainChanged { include_accepted_transaction_ids: b }) =>
            *next == SingleSubscription::VirtualChainChanged {
            active: start,
            include_accepted_transaction_ids: start && *b,
        },
        (SingleSubscription::UtxosChanged { listener_id, .. }, Scope::UtxosChanged { addresses }) =>
            next matches SingleSubscription::UtxosChanged { active, listener_id: l, addresses: kept }
            && *active == start && *l == *listener_id && kept@ == (if start
            && policies.utxo_changed == UtxosChangedMutationPolicy::AddressSet {
            addresses@
        } else {
            Seq::<String>::empty()
        }),
        (SingleSubscription::Overall { event_type, .. }, _) => *next == SingleSubscription::Overall {
            event_type: *event_type,
            active: start,
        },
        _ => false,
    }
}

/// What applying `mutation` to `s` yields: the new state exactly when it
/// changes, and then the mutation itself to pass on.
pub open spec fn is_mutation_outcome(
    s: &SingleSubscription,
    mutation: &Mutation,
    policies: MutationPolicies,
    o: &MutationOutcome,
) -> bool {
    let changes = mutation_changes(s, mutation, policies);
    &&& o.mutated is Some == changes
    &&& o.mutated matches Some(m) ==> is_mutated_state(s, mutation, policies, &m)
    &&& o.mutations@ == (if changes {
        seq![*mutation]
    } else {
        Seq::<Mutation>::empty()
    })
}

fn clone_addresses(v: &Vec<String>) -> (r: Vec<String>)
    ensures
        r@ == v@,
{
    let mut r: Vec<String> = Vec::new();
    let mut i: usize = 0;
    while i < v.len()
        invariant
            i <= v@.len(),
            r@ == v@.take(i as int),
        decreases v@.len() - i,
    {
        r.push(v[i].clone());
        i = i + 1;
        assert(r@ =~= v@.take(i as int));
    }
    assert(v@.take(v@.len() as int) =~= v@);
    r
}

impl SingleSubscription {
    /// A copy with the same event type and activity.
    pub fn duplicate(&self) -> (r: SingleSubscription)
        ensures
            same_subscription(&r, self),
            single_event_type(&r) == single_event_type(self),
            single_active(&r) == single_active(self),
    {
        match self {
            SingleSubscription::Overall { event_type, active } => SingleSubscription::Overall {
                event_type: *event_type,
                active: *active,
            },
            SingleSubscription::VirtualChainChanged { active, include_accepted_transaction_ids } =>
            SingleSubscription::VirtualChainChanged {
                active: *active,
                include_accepted_transaction_ids: *include_accepted_transaction_ids,
            },
            SingleSubscription::UtxosChanged { active, listener_id, addresses } =>
            SingleSubscription::UtxosChanged {
                active: *active,
                listener_id: *listener_id,
                addresses: clone_addresses(addresses),
            },
        }
    }

    pub fn event_type(&self) -> (r: EventType)
        ensures
            r == single_event_type(self),
    {
        match self {
            SingleSubscription::Overall { event_type, .. } => *event_type,
            SingleSubscription::VirtualChainChanged { .. } => EventType::VirtualChainChanged,
            SingleSubscription::UtxosChanged { .. } => EventType::UtxosChanged,
        }
    }

    pub fn active(&self) -> (r: bool)
        ensures
            r == single_active(self),
    {
        match self {
            SingleSubscription::Overall { active, .. } => *active,
            SingleSubscription::VirtualChainChanged { active, .. } => *active,
            SingleSubscription::UtxosChanged { active, .. } => *active,
        }
    }

    /// The outcome of a mutation on this subscription, which stays as it is.
    /// A start changes an inactive subscription, and an active one whose scope
    /// it narrows or widens (the transaction ids of chain changes, the
    /// addresses of UTXO changes); a stop changes an active one. A change
    /// yields the new state and passes the mutation on.
    pub fn apply_mutation(&self, mutation: Mutation, policies: MutationPolicies) -> (r: Result<
        MutationOutcome,
        SubscriptionError,
    >)
        ensures
            single_event_type(self) != scope_event_type(&mutation.scope) ==> r == Err::<
                MutationOutcome,
                SubscriptionError,
            >(SubscriptionError::EventTypeMismatch),
            single_event_type(self) == scope_event_type(&mutation.scope) ==> (r matches Ok(o)
                && is_mutation_outcome(self, &mutation, policies, &o)),
    {
        if self.event_type() != mutation.event_type() {
            return Err(SubscriptionError::EventTypeMismatch);
        }
        let start = mutation.active();
        let was_active = self.active();
        let mutated: Option<SingleSubscription> = match (self, &mutation.scope) {
            (SingleSubscription::Overall { event_type, .. }, _) => {
                if start != was_active {
                    Some(SingleSubscription::Overall { event_type: *event_type, active: start })
                } else {
                    None
                }
            },
            (
                SingleSubscription::VirtualChainChanged { include_accepted_transaction_ids: a, .. },
                Scope::VirtualChainChanged { include_accepted_transaction_ids: b },
            ) => {
                if start && (!was_active || *a != *b) {
                    Some(
                        SingleSubscription::VirtualChainChanged {
                            active: true,
                            include_accepted_transaction_ids: *b,
                        },
                    )
                } else if !start && was_active {
                    Some(
                        SingleSubscription::VirtualChainChanged {
                            active: false,
                            include_accepted_transaction_ids: false,
                        },
                    )
                } else {
                    None
                }
            },
            (SingleSubscription::UtxosChanged { listener_id, .. }, Scope::UtxosChanged { addresses }) => {
                let by_address = policies.utxo_changed == UtxosChangedMutationPolicy::AddressSet;
                if start && (!was_active || (addresses.len() > 0 && by_address)) {
                    let kept = if by_address {
                        clone_addresses(addresses)
                    } else {
                        Vec::new()
                    };
                    Some(
                        SingleSubscription::UtxosChanged {
                            active: true,
                            listener_id: *listener_id,
                            addresses: kept,
                        },
                    )
                } else if !start && was_active {
                    Some(
                        SingleSubscription::UtxosChanged {
                            active: false,
                            listener_id: *listener_id,
                            addresses: Vec::new(),
                        },
                    )
                } else {
                    None
                }
            },
            _ => None,
        };
        match mutated {
            Some(m) => {
                let mut mutations: Vec<Mutation> = Vec::new();
                let ghost passed = mutation;
                mutations.push(mutation);
                assert(mutations@ =~= seq![passed]);
                Ok(MutationOutcome::with_mutated(m, mutations))
            },
            None => {
                let o = MutationOutcome::new();
                assert(o.mutations@ =~= Seq::<Mutation>::empty());
                Ok(o)
            },
        }
    }

    /// Applies a mutation to this subscription.
    pub fn mutate(&mut self, mutation: Mutation, policies: MutationPolicies) -> (r: Result<
        MutationOutcome,
        SubscriptionError,
    >)
        ensures
            single_event_type(old(self)) != scope_event_type(&mutation.scope) ==> r == Err::<
                MutationOutcome,
                SubscriptionError,
            >(SubscriptionError::EventTypeMismatch) && *final(self) == *old(self),
            single_event_type(old(self)) == scope_event_type(&mutation.scope) ==> (r matches Ok(o)
                && is_mutation_outcome(old(self), &mutation, policies, &o)),
            r matches Ok(o) ==> (o.mutated matches Some(m) ==> same_subscription(final(self), &m)),
            r matches Ok(o) ==> (o.mutated is None ==> *final(self) == *old(self)),
    {
        let outcome = self.apply_mutation(mutation, policies)?;
        Ok(outcome.apply_to(self))
    }
}

impl CompoundedSubscription {
    pub fn new(event_type: EventType) -> (r: CompoundedSubscription)
        ensures
            r.event_type == event_type,
            r.active == 0,
    {
        CompoundedSubscription { event_type, active: 0 }
    }

    pub fn event_type(&self) -> (r: EventType)
        ensures
            r == self.event_type,
    {
        self.event_type
    }

    pub fn active(&self) -> (r: bool)
        ensures
            r == (self.active > 0),
    {
        self.active > 0
    }

    /// Counts a listener's mutation in. The mutation is passed on when it
    /// turns the compounded state on (first start) or off (last stop).
    pub fn compound(&mut self, mutation: Mutation) -> (r: Option<Mutation>)
        requires
            old(self).active < usize::MAX,
        ensures
            final(self).event_type == old(self).event_type,
            r matches Some(m) ==> m == mutation,
            mutation.command == Command::Start ==> final(self).active == old(self).active + 1 && (
            r is Some <==> old(self).active == 0),
            mutation.command == Command::Stop ==> final(self).active == (if old(self).active > 0 {
                old(self).active - 1
            } else {
                0
            }) && (r is Some <==> old(self).active == 1),
    {
        if mutation.active() {
            self.active = self.active + 1;
            if self.active == 1 {
                Some(mutation)
            } else {
                None
            }
        } else if self.active > 0 {
            self.active = self.active - 1;
            if self.active == 0 {
                Some(mutation)
            } else {
                None
            }
        } else {
            None
        }
    }
}

/// Builds the per-event-type subscription arrays.
pub struct ArrayBuilder {}

impl ArrayBuilder {
    /// Inactive subscriptions of one listener, one per event type.
    pub fn single(listener_id: u64) -> (r: EventArray<SingleSubscription>)
        ensures
            r.wf(),
            forall|e: EventType| #[trigger]
                single_event_type(&r.at(e)) == e && !single_active(&r.at(e)),
    {
        let mut items: Vec<SingleSubscription> = Vec::new();
        let mut i: usize = 0;
        while i < EVENT_COUNT
            invariant
                i <= EVENT_COUNT,
                items@.len() == i,
                forall|k: int|
                    0 <= k < i ==> single_event_type(&#[trigger] items@[k]) == (choose|e: EventType|
                        event_index(e) == k) && !single_active(&items@[k]),
            decreases EVENT_COUNT - i,
        {
            let event_type = EventType::try_from_index(i).unwrap();
            let subscription = match event_type {
                EventType::VirtualChainChanged => SingleSubscription::VirtualChainChanged {
                    active: false,
                    include_accepted_transaction_ids: false,
                },
                EventType::UtxosChanged => SingleSubscription::UtxosChanged {
                    active: false,
                    listener_id,
                    addresses: Vec::new(),
                },
                _ => SingleSubscription::Overall { event_type, active: false },
            };
            proof {
                lemma_event_index_unique(event_type);
            }
            items.push(subscription);
            i = i + 1;
        }
        let r = EventArray { items };
        proof {
            assert forall|e: EventType| #[trigger]
                single_event_type(&r.at(e)) == e && !single_active(&r.at(e)) by {
                lemma_event_index_unique(e);
                lemma_event_index_range(e);
            }
        }
        r
    }

    /// Compounded subscriptions with no listener, one per event type.
    pub fn compounded() -> (r: EventArray<CompoundedSubscription>)
        ensures
            r.wf(),
            forall|e: EventType| #[trigger] r.at(e).event_type == e && r.at(e).active == 0,
    {
        let mut items: Vec<CompoundedSubscription> = Vec::new();
        let mut i: usize = 0;
        while i < EVENT_COUNT
            invariant
                i <= EVENT_COUNT,
                items@.len() == i,
                forall|k: int|
                    0 <= k < i ==> (#[trigger] items@[k]).event_type == (choose|e: EventType|
                        event_index(e) == k) && items@[k].active == 0,
            decreases EVENT_COUNT - i,
        {
            let event_type = EventType::try_from_index(i).unwrap();
            proof {
                lemma_event_index_unique(event_type);
            }
            items.push(CompoundedSubscription::new(event_type));
            i = i + 1;
        }
        let r = EventArray { items };
        proof {
            assert forall|e: EventType| #[trigger] r.at(e).event_type == e && r.at(e).active == 0 by {
                lemma_event_index_unique(e);
                lemma_event_index_range(e);
            }
        }
        r
    }
}

proof fn lemma_event_index_unique(e: EventType)
    ensures
        (choose|x: EventType| event_index(x) == event_index(e)) == e,
{
    let x = choose|x: EventType| event_index(x) == event_index(e);
    assert(event_index(x) == event_index(e));
}

proof fn lemma_event_index_range(e: EventType)
    ensures
        0 <= event_index(e) < EVENT_COUNT,
{
}

} // verus!
