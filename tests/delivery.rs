use replicon::entity::EntityId;
use replicon::event_queue::EventQueue;
use replicon::registry::{RegistryError, RemoteEventRegistry, ServerTrigger};
use replicon::server_trigger::{plan_delivery, Destination, SendMode};

#[test]
fn dispatch_follows_tick_order() {
    let mut queue: EventQueue<&str> = EventQueue::new(16);
    queue.advance(1);
    for (tick, name) in [(4, "d"), (2, "b"), (3, "c"), (2, "b2"), (5, "e")] {
        assert!(queue.receive(tick, name, false).is_none());
    }
    let first = queue.advance(3);
    assert_eq!(first, vec![(2, "b"), (2, "b2"), (3, "c")]);
    let rest = queue.advance(10);
    assert_eq!(rest, vec![(4, "d"), (5, "e")]);
    assert_eq!(queue.len(), 0);
}

#[test]
fn independent_bypasses_queue() {
    let mut queue: EventQueue<u8> = EventQueue::new(16);
    queue.advance(1);
    assert_eq!(queue.receive(9, 7, true), Some(7));
    assert_eq!(queue.len(), 0);
}

#[test]
fn held_until_applied_tick_reaches_it() {
    let mut queue: EventQueue<&str> = EventQueue::new(16);
    assert_eq!(queue.applied_tick(), None);
    assert!(queue.receive(5, "E", false).is_none());
    assert!(queue.advance(0).is_empty());
    assert!(queue.advance(4).is_empty());
    assert_eq!(queue.advance(5), vec![(5, "E")]);
    assert!(queue.advance(6).is_empty());
}

#[test]
fn already_applied_tick_dispatches_at_once() {
    let mut queue: EventQueue<u8> = EventQueue::new(16);
    queue.advance(8);
    assert_eq!(queue.receive(8, 1, false), Some(1));
    assert_eq!(queue.receive(3, 2, false), Some(2));
    assert!(queue.receive(9, 3, false).is_none());
}

#[test]
fn applied_tick_never_goes_back() {
    let mut queue: EventQueue<u8> = EventQueue::new(16);
    queue.advance(8);
    queue.advance(2);
    assert_eq!(queue.applied_tick(), Some(8));
}

#[test]
fn overflow_is_reported_not_dropped() {
    let mut queue: EventQueue<u8> = EventQueue::new(2);
    for i in 0..3 {
        queue.receive(10 + i as u64, i, false);
    }
    assert!(queue.is_overflowing());
    assert_eq!(queue.len(), 3);
    assert_eq!(queue.advance(20).len(), 3);
    assert!(!queue.is_overflowing());
}

#[test]
fn local_echo_once_with_many_clients() {
    let clients: Vec<EntityId> = (0..5).map(EntityId::from_raw).collect();
    let plan = plan_delivery(&SendMode::Broadcast, &clients);
    assert_eq!(plan.iter().filter(|d| **d == Destination::Local).count(), 1);
    assert_eq!(plan.len(), 6);
    assert_eq!(plan[0], Destination::Local);
    assert_eq!(plan[1], Destination::Client(EntityId::from_raw(0)));

    let plan = plan_delivery(&SendMode::BroadcastExcept(EntityId::from_raw(2)), &clients);
    assert_eq!(plan.iter().filter(|d| **d == Destination::Local).count(), 1);
    assert!(!plan.contains(&Destination::Client(EntityId::from_raw(2))));
    assert_eq!(plan.len(), 5);
}

#[test]
fn registry_errors() {
    let mut registry = RemoteEventRegistry::new();
    registry.register_server_trigger(ServerTrigger::new(1, 0)).unwrap();
    assert_eq!(
        registry.register_server_trigger(ServerTrigger::new(1, 4)),
        Err(RegistryError::AlreadyRegistered)
    );
    assert_eq!(registry.server_event(1).map(|e| e.channel), Some(0));
    assert_eq!(registry.make_trigger_independent(2), Err(RegistryError::NotRegistered));
    assert_eq!(registry.server_event(1).map(|e| e.independent), Some(false));
    registry.make_trigger_independent(1).unwrap();
    assert_eq!(registry.server_event(1).map(|e| e.independent), Some(true));
}
