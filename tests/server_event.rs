use replicon::entity::{deserialize_entity, serialize_entity, EntityId};
use replicon::entity_map::ServerEntityMap;
use replicon::event_queue::EventQueue;
use replicon::registry::{RemoteEventRegistry, ServerTrigger};
use replicon::server_trigger::{plan_delivery, Destination, SendMode};

fn server() -> EntityId {
    EntityId::placeholder()
}

fn remote_count(plan: &[Destination]) -> usize {
    plan.iter().filter(|d| matches!(d, Destination::Client(_))).count()
}

fn local_count(plan: &[Destination]) -> usize {
    plan.iter().filter(|d| matches!(d, Destination::Local)).count()
}

const NON_REMOTE_EVENT: u64 = 10;
const TEST_EVENT: u64 = 11;

#[test]
fn server_event_channels() {
    let mut registry = RemoteEventRegistry::new();
    registry
        .register_server_trigger(ServerTrigger::new(TEST_EVENT, 3))
        .unwrap();

    assert_eq!(registry.server_event(NON_REMOTE_EVENT).map(|e| e.channel), None);
    assert_eq!(registry.server_event(TEST_EVENT).map(|e| e.channel), Some(3));
}

#[test]
fn server_event_regular() {
    let test_client_entity = EntityId::from_raw(0);
    for (mode, events_count) in [
        (SendMode::Broadcast, 1),
        (SendMode::Direct(server()), 0),
        (SendMode::Direct(test_client_entity), 1),
        (SendMode::BroadcastExcept(server()), 1),
        (SendMode::BroadcastExcept(test_client_entity), 0),
    ] {
        let plan = plan_delivery(&mode, &[test_client_entity]);
        assert_eq!(
            remote_count(&plan),
            events_count,
            "event should be emitted {events_count} times for {mode:?}"
        );
    }
}

#[test]
fn server_event_without_plugins() {
    let test_client_entity = EntityId::from_raw(0);
    for (mode, events_count) in [
        (SendMode::Broadcast, 1),
        (SendMode::Direct(server()), 0),
        (SendMode::Direct(test_client_entity), 1),
        (SendMode::BroadcastExcept(server()), 1),
        (SendMode::BroadcastExcept(test_client_entity), 0),
    ] {
        let plan = plan_delivery(&mode, &[test_client_entity]);
        assert_eq!(
            remote_count(&plan),
            events_count,
            "event should be emitted {events_count} times for {mode:?}"
        );
    }
}

#[test]
fn server_event_mapped() {
    let client_entity = EntityId::from_raw(0);
    let server_entity = EntityId::from_raw(client_entity.index + 1);
    let mut map = ServerEntityMap::new();
    map.insert(server_entity, client_entity).unwrap();

    let mut message = Vec::new();
    serialize_entity(&mut message, server_entity);
    let mut bytes = bytes::Bytes::from(message);
    let received = deserialize_entity(&mut bytes).unwrap();
    let mapped = map.map_targets(&[received], &[]).unwrap();
    assert_eq!(mapped, [client_entity]);
}

#[test]
fn server_event_local_resending() {
    let placeholder_client_id = EntityId::from_raw(1);
    for (mode, events_count) in [
        (SendMode::Broadcast, 1),
        (SendMode::Direct(server()), 1),
        (SendMode::Direct(placeholder_client_id), 0),
        (SendMode::BroadcastExcept(server()), 0),
        (SendMode::BroadcastExcept(placeholder_client_id), 1),
    ] {
        let plan = plan_delivery(&mode, &[]);
        assert_eq!(
            local_count(&plan),
            events_count,
            "event should be emitted {events_count} times for {mode:?}"
        );
    }
}

#[test]
fn client_queue() {
    let mut queue: EventQueue<&str> = EventQueue::new(64);
    // The replica has not applied the tick the event was produced at.
    let dispatched = queue.receive(1, "test", false);
    assert!(dispatched.is_none());
    assert_eq!(queue.len(), 1);

    let events = queue.advance(1);
    assert_eq!(events.len(), 1);
}

#[test]
fn client_queue_and_mapping() {
    let server_entity = EntityId::from_raw(0);
    let client_entity = EntityId::from_raw(5);
    assert_ne!(server_entity, client_entity);
    let mut map = ServerEntityMap::new();
    map.insert(server_entity, client_entity).unwrap();

    let mut queue: EventQueue<EntityId> = EventQueue::new(64);
    assert!(queue.receive(1, server_entity, false).is_none());
    assert_eq!(queue.len(), 1);

    let events = queue.advance(1);
    let received: Vec<EntityId> = events.into_iter().map(|(_, e)| e).collect();
    let mapped_entities = map.map_targets(&received, &[]).unwrap();
    assert_eq!(mapped_entities, [client_entity]);
}

#[test]
fn multiple_client_queues() {
    let mut test_events: EventQueue<()> = EventQueue::new(64);
    let mut entity_events: EventQueue<EntityId> = EventQueue::new(64);
    assert!(test_events.receive(1, (), false).is_none());
    assert!(entity_events
        .receive(1, EntityId::placeholder(), false)
        .is_none());
    assert_eq!(test_events.len(), 1);
    assert_eq!(entity_events.len(), 1);

    assert_eq!(test_events.advance(1).len(), 1);
    assert_eq!(entity_events.advance(1).len(), 1);
}

#[test]
fn independent() {
    let test_client_entity = EntityId::from_raw(0);
    for (mode, events_count) in [
        (SendMode::Broadcast, 1),
        (SendMode::Direct(server()), 0),
        (SendMode::Direct(test_client_entity), 1),
        (SendMode::BroadcastExcept(server()), 1),
        (SendMode::BroadcastExcept(test_client_entity), 0),
    ] {
        let mut events: EventQueue<()> = EventQueue::new(64);
        let mut independent_events: EventQueue<()> = EventQueue::new(64);
        let plan = plan_delivery(&mode, &[test_client_entity]);
        let mut dispatched = Vec::new();
        let mut independent_dispatched = Vec::new();
        for _ in 0..remote_count(&plan) {
            dispatched.extend(events.receive(2, (), false));
            independent_dispatched.extend(independent_events.receive(2, (), true));
        }
        assert!(dispatched.is_empty());
        assert_eq!(
            independent_dispatched.len(),
            events_count,
            "event should be emitted {events_count} times for {mode:?}"
        );
    }
}

#[test]
fn server_event_before_started_replication() {
    let test_client_entity = EntityId::from_raw(0);
    let mut queue: EventQueue<()> = EventQueue::new(64);
    let mut dispatched = Vec::new();
    for mode in [
        SendMode::Broadcast,
        SendMode::BroadcastExcept(server()),
        SendMode::Direct(test_client_entity),
    ] {
        for _ in 0..remote_count(&plan_delivery(&mode, &[test_client_entity])) {
            dispatched.extend(queue.receive(0, (), false));
        }
    }
    assert!(dispatched.is_empty());
}

#[test]
fn independent_before_started_replication() {
    let mut events: EventQueue<()> = EventQueue::new(64);
    let mut independent_events: EventQueue<()> = EventQueue::new(64);
    let regular = events.receive(1, (), false);
    let independent = independent_events.receive(1, (), true);
    assert!(regular.is_none());
    assert_eq!(independent.into_iter().count(), 1);
}

#[test]
fn different_ticks() {
    // Client 1 has applied tick 1; client 2 connected later and has not
    // applied anything yet.
    let mut client1: EventQueue<()> = EventQueue::new(64);
    let mut client2: EventQueue<()> = EventQueue::new(64);
    client1.advance(1);

    let mut received1: Vec<()> = client1.receive(2, (), false).into_iter().collect();
    let mut received2: Vec<()> = client2.receive(2, (), false).into_iter().collect();
    received1.extend(client1.advance(2).into_iter().map(|(_, e)| e));
    received2.extend(client2.advance(2).into_iter().map(|(_, e)| e));

    assert_eq!(received1.len(), 1);
    assert_eq!(received2.len(), 1);
}
