//! Server-side replication bookkeeping: rooms, users, entity registries,
//! per-connection entity channels, request routing and the small wire
//! helpers they rest on, each with a verified contract.

pub mod keys;
pub mod sequence_list;
pub mod checked;
pub mod maps;
pub mod request;
pub mod ping_manager;
pub mod world_manager;
pub mod room;
pub mod stores;
pub mod coord;
pub mod send_state_view;
pub mod event_receiver;
pub mod sync_world;
pub mod kinds;
pub mod world_channel;
pub mod entity_manager;
pub mod entity_action;
pub mod runtime;
pub mod new_entity_manager;
pub mod handshake;
pub mod receive;
pub mod send_order;
pub mod diff_mask;
pub mod user_diff_handler;
pub mod entity_updates;
pub mod mut_handler;
pub mod world_record;
pub mod scope_pass;
pub mod response_events;
pub mod replica_write;
