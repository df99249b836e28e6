use replicon::entity::{deserialize_entity, serialize_entity, EntityId};
use replicon::entity_map::{MappingError, ServerEntityMap};
use replicon::server_trigger::{
    plan_delivery, read_trigger_message, server_trigger, server_trigger_targets,
    trigger_deserialize, trigger_serialize, write_trigger_message, Destination, SendMode,
    ToClients,
};
use replicon::trigger_buffer::TriggerBuffer;
use replicon::varint::DecodeError;

#[test]
fn sending_receiving_with_target() {
    let client_entity = EntityId::from_raw(0);
    let server_entity = EntityId::from_raw(client_entity.index + 1);
    let mut map = ServerEntityMap::new();
    map.insert(server_entity, client_entity).unwrap();

    let mut message = Vec::new();
    trigger_serialize(&[server_entity], &[], &mut message);
    let mut bytes = bytes::Bytes::from(message);
    let targets = trigger_deserialize(&mut bytes).unwrap();
    let entities = map.map_targets(&targets, &[]).unwrap();
    assert_eq!(entities, [client_entity]);
}

#[test]
fn sending_receiving_and_mapping() {
    let client_entity = EntityId::from_raw(0);
    let server_entity = EntityId::from_raw(client_entity.index + 1);
    let mut map = ServerEntityMap::new();
    map.insert(server_entity, client_entity).unwrap();

    // The event itself holds an entity.
    let mut event = Vec::new();
    serialize_entity(&mut event, server_entity);
    let mut message = Vec::new();
    trigger_serialize(&[], &event, &mut message);

    let mut bytes = bytes::Bytes::from(message);
    let targets = trigger_deserialize(&mut bytes).unwrap();
    assert!(targets.is_empty());
    let event_entity = deserialize_entity(&mut bytes).unwrap();
    let mapped_entities = map.map_targets(&[event_entity], &[]).unwrap();
    assert_eq!(mapped_entities, [client_entity]);
}

#[test]
fn server_trigger_local_resending() {
    let trigger = server_trigger(ToClients {
        mode: SendMode::Broadcast,
        event: "dummy",
    });
    let plan = plan_delivery(&trigger.mode, &[]);
    let local = plan.iter().filter(|d| **d == Destination::Local).count();
    assert_eq!(local, 1);
}

#[test]
fn trigger_bytes_exact() {
    let mut message = Vec::new();
    let a = EntityId::from_raw(3);
    let b = EntityId::new(1, 2);
    trigger_serialize(&[a, b], &[0xAA, 0xBB], &mut message);
    // count 2; index 3 → 6; index 1 flagged → 3, then generation less one → 1
    assert_eq!(message, vec![2, 6, 3, 1, 0xAA, 0xBB]);
}

#[test]
fn trigger_round_trip_leaves_event_bytes() {
    let targets = [EntityId::from_raw(300), EntityId::new(7, 9), EntityId::placeholder()];
    let mut message = Vec::new();
    trigger_serialize(&targets, b"payload", &mut message);
    let mut bytes = bytes::Bytes::from(message);
    let decoded = trigger_deserialize(&mut bytes).unwrap();
    assert_eq!(decoded, targets);
    assert_eq!(&bytes[..], b"payload");
}

#[test]
fn trigger_truncated_is_rejected() {
    // Three targets announced, one present.
    let mut bytes = bytes::Bytes::from(vec![3, 6]);
    assert_eq!(trigger_deserialize(&mut bytes), Err(DecodeError));
}

#[test]
fn trigger_targets_builder() {
    let targets = vec![EntityId::from_raw(4), EntityId::from_raw(5)];
    let trigger = server_trigger_targets(
        ToClients {
            mode: SendMode::Direct(EntityId::from_raw(9)),
            event: 17u32,
        },
        targets.clone(),
    );
    assert_eq!(trigger.mode, SendMode::Direct(EntityId::from_raw(9)));
    assert_eq!(trigger.event.event, 17);
    assert_eq!(trigger.event.targets, targets);
}

/// A trigger on {A, B, C} where only A is mapped: one trigger fires with three
/// replica ids, and the map gains entries for B and C.
#[test]
fn multi_target_trigger_with_unmapped_targets() {
    let a = EntityId::from_raw(10);
    let b = EntityId::from_raw(11);
    let c = EntityId::from_raw(12);
    let a_client = EntityId::from_raw(100);
    let mut map = ServerEntityMap::new();
    map.insert(a, a_client).unwrap();

    let mut message = Vec::new();
    trigger_serialize(&[a, b, c], b"E", &mut message);
    let mut bytes = bytes::Bytes::from(message);
    let targets = trigger_deserialize(&mut bytes).unwrap();

    let unmapped = map.unmapped(&targets);
    assert_eq!(unmapped, [b, c]);
    let placeholders = [EntityId::from_raw(200), EntityId::from_raw(201)];
    let resolved = map.map_targets(&targets, &placeholders).unwrap();
    assert_eq!(resolved, [a_client, placeholders[0], placeholders[1]]);

    let mut buffer = TriggerBuffer::new();
    buffer.push(replicon::server_trigger::ServerTriggerEvent {
        event: bytes.to_vec(),
        targets: resolved,
    });
    let fired = buffer.drain();
    assert_eq!(fired.len(), 1);
    assert_eq!(fired[0].targets.len(), 3);
    assert_eq!(fired[0].event, b"E".to_vec());
    assert_eq!(buffer.len(), 0);

    assert_eq!(map.to_client(b), Some(placeholders[0]));
    assert_eq!(map.to_client(c), Some(placeholders[1]));
    assert_eq!(map.to_server(placeholders[1]), Some(c));
}

#[test]
fn map_targets_wrong_placeholder_count() {
    let mut map = ServerEntityMap::new();
    let targets = [EntityId::from_raw(1), EntityId::from_raw(2)];
    let r = map.map_targets(&targets, &[EntityId::from_raw(50)]);
    assert_eq!(r, Err(MappingError::PlaceholderCount));
    assert_eq!(map.to_client(targets[0]), None);
}

#[test]
fn map_targets_placeholder_in_use() {
    let mut map = ServerEntityMap::new();
    map.insert(EntityId::from_raw(1), EntityId::from_raw(50)).unwrap();
    let r = map.map_targets(&[EntityId::from_raw(2)], &[EntityId::from_raw(50)]);
    assert_eq!(r, Err(MappingError::AlreadyMapped));
    assert_eq!(map.to_client(EntityId::from_raw(2)), None);
}

#[test]
fn map_targets_duplicate_placeholders() {
    let mut map = ServerEntityMap::new();
    let targets = [EntityId::from_raw(1), EntityId::from_raw(2)];
    let p = EntityId::from_raw(60);
    assert_eq!(map.map_targets(&targets, &[p, p]), Err(MappingError::AlreadyMapped));
}

#[test]
fn repeated_target_needs_one_placeholder() {
    let mut map = ServerEntityMap::new();
    let t = EntityId::from_raw(8);
    let p = EntityId::from_raw(80);
    assert_eq!(map.unmapped(&[t, t]), [t]);
    assert_eq!(map.map_targets(&[t, t], &[p]), Ok(vec![p, p]));
}

#[test]
fn trigger_message_framing() {
    let target = EntityId::from_raw(2);
    let message = write_trigger_message(130, &[target], &[7]);
    assert_eq!(message, vec![0x82, 0x01, 1, 4, 7]);
    let mut bytes = bytes::Bytes::from(message);
    assert_eq!(read_trigger_message(&mut bytes), Ok((130, vec![target])));
    assert_eq!(&bytes[..], &[7]);
    assert_eq!(
        read_trigger_message(&mut bytes::Bytes::from(vec![0x82])),
        Err(DecodeError)
    );
}
