use kaspa_consensus_order::listener::{Connection, Listener, Subscription};
use kaspa_consensus_order::subscription::{
    ArrayBuilder, Command, CompoundedSubscription, EventType, Mutation, MutationOutcome,
    MutationPolicies, Scope, SingleSubscription, SubscriptionError, UtxosChangedMutationPolicy,
};
use std::cell::Cell;
use std::rc::Rc;

#[test]
fn test_array_builder() {
    let single = ArrayBuilder::single(0);
    let compounded = ArrayBuilder::compounded();
    for event in EventType::all() {
        assert_eq!(
            event,
            single.get(event).event_type(),
            "single subscription array item {:?} reports wrong event type {:?}",
            event,
            single.get(event).event_type()
        );
        assert_eq!(
            event,
            compounded.get(event).event_type(),
            "compounded subscription array item {:?} reports wrong event type {:?}",
            event,
            compounded.get(event).event_type()
        );
    }
}

#[test]
fn command_codes() {
    assert_eq!(Command::Start.to_i32(), 0);
    assert_eq!(Command::Stop.to_i32(), 1);
    assert_eq!(Command::from_i32(1), Command::Stop);
    assert_eq!(Command::from_i32(0), Command::Start);
    assert_eq!(Command::from_i32(7), Command::Start);
    assert_eq!(Command::Start.label(), "start");
    assert_eq!(Command::Stop.label(), "stop");
}

#[test]
fn event_indices_round_trip() {
    let all = EventType::all();
    assert_eq!(all.len(), 9);
    for (i, e) in all.iter().enumerate() {
        assert_eq!(e.index(), i);
        assert_eq!(EventType::try_from_index(i), Some(*e));
    }
    assert_eq!(EventType::try_from_index(9), None);
}

#[test]
fn overall_subscription_start_stop() {
    let mut sub = SingleSubscription::Overall { event_type: EventType::BlockAdded, active: false };
    let policies = MutationPolicies::new(UtxosChangedMutationPolicy::AddressSet);
    let outcome = sub.mutate(Mutation::new(Command::Start, Scope::BlockAdded), policies).unwrap();
    assert!(outcome.has_new_state());
    assert!(outcome.has_changes());
    assert_eq!(outcome.mutations.len(), 1);
    assert!(sub.active());
    // Starting again changes nothing.
    let outcome = sub.mutate(Mutation::new(Command::Start, Scope::BlockAdded), policies).unwrap();
    assert!(!outcome.has_changes());
    let outcome = sub.mutate(Mutation::new(Command::Stop, Scope::BlockAdded), policies).unwrap();
    assert!(outcome.has_new_state());
    assert!(!sub.active());
}

#[test]
fn mismatched_mutation_is_refused() {
    let mut sub = SingleSubscription::Overall { event_type: EventType::BlockAdded, active: false };
    let policies = MutationPolicies::new(UtxosChangedMutationPolicy::AddressSet);
    let r = sub.mutate(Mutation::new(Command::Start, Scope::FinalityConflict), policies);
    assert!(matches!(r, Err(SubscriptionError::EventTypeMismatch)));
    assert!(!sub.active());
}

#[test]
fn virtual_chain_scope_change() {
    let mut sub =
        SingleSubscription::VirtualChainChanged { active: true, include_accepted_transaction_ids: false };
    let policies = MutationPolicies::new(UtxosChangedMutationPolicy::AddressSet);
    let scope = Scope::VirtualChainChanged { include_accepted_transaction_ids: true };
    let outcome = sub.mutate(Mutation::new(Command::Start, scope), policies).unwrap();
    assert!(outcome.has_new_state());
    assert!(matches!(sub, SingleSubscription::VirtualChainChanged { active: true, include_accepted_transaction_ids: true }));
}

#[test]
fn utxos_wildcard_policy_drops_addresses() {
    let mut sub = SingleSubscription::UtxosChanged { active: false, listener_id: 3, addresses: vec![] };
    let policies = MutationPolicies::new(UtxosChangedMutationPolicy::Wildcard);
    let scope = Scope::UtxosChanged { addresses: vec!["kaspa:qz0example".to_string()] };
    let outcome = sub.mutate(Mutation::new(Command::Start, scope), policies).unwrap();
    assert!(outcome.has_new_state());
    match &sub {
        SingleSubscription::UtxosChanged { active, listener_id, addresses } => {
            assert!(*active);
            assert_eq!(*listener_id, 3);
            assert!(addresses.is_empty());
        }
        _ => panic!("wrong variant"),
    }
}

#[test]
fn outcome_builders() {
    let o = MutationOutcome::new();
    assert!(!o.has_new_state());
    assert!(!o.has_changes());
    let o = MutationOutcome::with_mutations(vec![Mutation::new(Command::Stop, Scope::NewBlockTemplate)]);
    assert!(!o.has_new_state());
    assert!(o.has_changes());
    let o = MutationOutcome::with_mutated(
        SingleSubscription::Overall { event_type: EventType::NewBlockTemplate, active: true },
        vec![],
    );
    assert!(o.has_new_state());
    let mut target = SingleSubscription::Overall { event_type: EventType::NewBlockTemplate, active: false };
    let o = o.apply_to(&mut target);
    assert!(o.has_new_state());
    assert!(target.active());
}

#[test]
fn compounded_counts_listeners() {
    let mut c = CompoundedSubscription::new(EventType::SinkBlueScoreChanged);
    assert!(c.compound(Mutation::new(Command::Start, Scope::SinkBlueScoreChanged)).is_some());
    assert!(c.compound(Mutation::new(Command::Start, Scope::SinkBlueScoreChanged)).is_none());
    assert!(c.active());
    assert!(c.compound(Mutation::new(Command::Stop, Scope::SinkBlueScoreChanged)).is_none());
    assert!(c.compound(Mutation::new(Command::Stop, Scope::SinkBlueScoreChanged)).is_some());
    assert!(!c.active());
    assert!(c.compound(Mutation::new(Command::Stop, Scope::SinkBlueScoreChanged)).is_none());
}

#[derive(Clone)]
struct TestConnection {
    closed: Rc<Cell<bool>>,
}

impl Connection for TestConnection {
    fn close(&self) -> bool {
        self.closed.set(true);
        true
    }

    fn is_closed(&self) -> bool {
        self.closed.get()
    }
}

#[test]
fn listener_mutates_and_closes() {
    let connection = TestConnection { closed: Rc::new(Cell::new(false)) };
    let mut listener = Listener::new(5, connection);
    let policies = MutationPolicies::new(UtxosChangedMutationPolicy::AddressSet);
    let outcome = listener.mutate(Mutation::new(Command::Start, Scope::BlockAdded), policies).unwrap();
    assert!(outcome.has_changes());
    assert!(listener.subscriptions.get(EventType::BlockAdded).active());
    assert!(!listener.subscriptions.get(EventType::FinalityConflict).active());
    assert!(!listener.is_closed());
    listener.close();
    assert!(listener.is_closed());
    assert!(listener.connection().is_closed());
}

#[test]
fn default_utxo_policy_is_by_address() {
    assert_eq!(UtxosChangedMutationPolicy::default_policy(), UtxosChangedMutationPolicy::AddressSet);
    assert_eq!(MutationPolicies::new(UtxosChangedMutationPolicy::Wildcard).utxo_changed, UtxosChangedMutationPolicy::Wildcard);
}
