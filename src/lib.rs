//! Wire encoding, tick-causal delivery and entity-identity bookkeeping for
//! replicating an authoritative world to replicas.

mod message;
pub mod confirm_history;
pub mod entity;
pub mod entity_map;
pub mod event_queue;
pub mod registry;
pub mod serialized_data;
pub mod server_trigger;
pub mod trigger_buffer;
pub mod varint;

pub use message::bytes_view;
