use replicon::confirm_history::ConfirmHistory;
use replicon::entity::EntityId;
use replicon::entity_map::{MappingError, ServerEntityMap};

#[test]
fn mapped_existing_entity() {
    let server_map_entity = EntityId::from_raw(1);
    let client_map_entity = EntityId::from_raw(0);
    assert_ne!(server_map_entity, client_map_entity);
    let mut map = ServerEntityMap::new();
    map.insert(server_map_entity, client_map_entity).unwrap();

    let mapped = map.map_targets(&[server_map_entity], &[]).unwrap();
    assert_eq!(mapped[0], client_map_entity);
}

#[test]
fn mapped_new_entity() {
    let server_map_entity = EntityId::from_raw(1);
    let mut map = ServerEntityMap::new();
    let needed = map.unmapped(&[server_map_entity]);
    assert_eq!(needed.len(), 1);
    let spawned = EntityId::from_raw(7);
    let mapped = map.map_targets(&[server_map_entity], &[spawned]).unwrap();
    assert_eq!(mapped[0], spawned);
    assert_eq!(map.to_server(spawned), Some(server_map_entity));
}

#[test]
fn confirm_history() {
    let tick = 3;
    let mut history = ConfirmHistory::new();
    history.confirm(tick);
    assert!(history.contains(tick));
}

#[test]
fn confirm_out_of_order() {
    let mut history = ConfirmHistory::new();
    history.confirm(7);
    history.confirm(5);
    assert!(history.contains(5));
    assert!(history.contains(7));
    assert!(!history.contains(6));
    assert_eq!(history.last_tick(), Some(7));
}

#[test]
fn confirm_window_edges() {
    let mut history = ConfirmHistory::new();
    assert!(!history.contains(0));
    history.confirm(100);
    history.confirm(37);
    assert!(history.contains(37));
    history.confirm(36);
    assert!(!history.contains(36));
    history.confirm(101);
    assert!(!history.contains(37));
    assert!(history.contains(100));
    assert!(history.contains(101));
    history.confirm(1000);
    assert!(!history.contains(101));
    assert!(history.contains(1000));
    assert!(!history.contains(1001));
}

#[test]
fn identity_round_trip() {
    let mut map = ServerEntityMap::new();
    let server = EntityId::new(4, 2);
    let client = EntityId::new(9, 1);
    map.insert(server, client).unwrap();
    assert_eq!(map.to_server(map.to_client(server).unwrap()), Some(server));
    assert_eq!(map.to_client(map.to_server(client).unwrap()), Some(client));
}

#[test]
fn insert_refuses_taken_ids() {
    let mut map = ServerEntityMap::new();
    let s = EntityId::from_raw(1);
    let c = EntityId::from_raw(2);
    map.insert(s, c).unwrap();
    assert_eq!(map.insert(s, EntityId::from_raw(3)), Err(MappingError::AlreadyMapped));
    assert_eq!(map.insert(EntityId::from_raw(4), c), Err(MappingError::AlreadyMapped));
    assert_eq!(map.to_client(s), Some(c));
}

#[test]
fn removal_is_idempotent() {
    let mut map = ServerEntityMap::new();
    let s = EntityId::from_raw(1);
    let c = EntityId::from_raw(2);
    map.insert(s, c).unwrap();
    assert_eq!(map.remove_by_client(c), Some(s));
    assert_eq!(map.remove_by_client(c), None);
    assert_eq!(map.to_client(s), None);
    map.insert(s, c).unwrap();
    assert_eq!(map.remove_by_server(s), Some(c));
    assert_eq!(map.remove_by_server(s), None);
    assert_eq!(map.to_server(c), None);
}
