# naia_server

Server-side replication bookkeeping for a networked game server, written in
Verus: every function in `src/` carries a contract. Verus proves each one,
except those of the few wrappers around outside crates (`byteorder`,
`fastrand`, `ring`), whose contracts it takes as given.

- `src/coord.rs`, `room.rs`, `stores.rs`, `world_manager.rs`,
  `send_state_view.rs`, `event_receiver.rs`: rooms, users, the global entity
  registry, entity replication configuration, and fanning received events out
  by type.
- `src/world_channel.rs`, `entity_manager.rs`, `new_entity_manager.rs`,
  `entity_action.rs`, `sync_world.rs`: per-connection entity replication —
  which entities and components a client holds, which actions are in flight,
  and what each sent packet carried.
- `src/diff_mask.rs`, `user_diff_handler.rs`, `mut_handler.rs`,
  `entity_updates.rs`: component change masks, the registry of tracked
  components, the masks of every connection, the updates due for a
  connection, what each update packet carried, and the re-marking of a lost
  packet's changes.
- `src/scope_pass.rs`, `response_events.rs`: the scope pass before each
  send (draining the scope exits rooms queued, and bringing each room
  member's connection to its scope) and the order in which a client's entity
  events are applied.
- `src/replica_write.rs`: the wire form of a replica action and whether a
  packet has room for it.
- `src/world_record.rs`: the record of replicated entities, their handles,
  component kinds and rooms.
- `src/request.rs`: routing of requests and responses between users.
- `src/sequence_list.rs`, `kinds.rs`, `checked.rs`, `maps.rs`, `keys.rs`:
  wrapping sequence numbers and small collections.
- `src/ping_manager.rs`, `handshake.rs`, `receive.rs`, `runtime.rs`,
  `send_order.rs`: pings, the connection handshake's decisions and payloads,
  the receive loop's decisions, the worker runtime's lifecycle, park barrier,
  panic slot, snapshot slot and send lag, and the order connections are
  served in.
- `app/`: ordinary Rust around the library — socket addresses, clocks,
  a lock-shared broadcast channel, and the worker threads with their timing
  hooks.
- `tests/`: tests run against the compiled library.
