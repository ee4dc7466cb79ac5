use naia_server::coord::DisconnectReason;
use naia_server::event_receiver::{drain_lifecycle, ReceiveOutput, RecvLifecycleEvent};
use naia_server::keys::{Address, UserKey};
use naia_server::runtime::{park_barrier_done, unpark_barrier_done, worker_step, PanicSlot, RuntimeState, SendLag, SnapshotSlot, WorkerStep};

#[test]
fn drain_lifecycle_on_empty_output_returns_empty_vec() {
    let mut output = ReceiveOutput::<u64>::new();
    let events = drain_lifecycle(&mut output);
    assert!(events.is_empty(), "no lifecycle events expected: {events:?}");
}

#[test]
fn drain_lifecycle_translates_connect_disconnect_error() {
    let mut output = ReceiveOutput::<u64>::new();
    let user_a = UserKey::from_u64(1);
    let user_b = UserKey::from_u64(2);
    let addr_b = Address { ip: 0xffff_7f00_0001, port: 9001 };
    output.connects.push(user_a);
    output.disconnects.push((user_b, addr_b, DisconnectReason::ClientDisconnected));
    output.errors.push("boom".to_string());
    output.spawns.push((user_a, 5));

    let events = drain_lifecycle(&mut output);
    assert_eq!(events.len(), 3, "expected 3 lifecycle events: {events:?}");
    match &events[0] {
        RecvLifecycleEvent::Connected { user_key } => assert_eq!(*user_key, user_a),
        other => panic!("expected Connected, got {other:?}"),
    }
    match &events[1] {
        RecvLifecycleEvent::Disconnected { user_key, address, reason } => {
            assert_eq!(*user_key, user_b);
            assert_eq!(*address, addr_b);
            assert!(matches!(reason, DisconnectReason::ClientDisconnected));
        }
        other => panic!("expected Disconnected, got {other:?}"),
    }
    match &events[2] {
        RecvLifecycleEvent::RecvError { error } => assert_eq!(error, "boom"),
        other => panic!("expected RecvError, got {other:?}"),
    }
    // other event lists stay
    assert_eq!(output.spawns.len(), 1);
    let leftover = drain_lifecycle(&mut output);
    assert!(leftover.is_empty(), "second drain should be empty: {leftover:?}");
}

#[test]
fn runtime_state_codes_round_trip() {
    for s in [RuntimeState::Armed, RuntimeState::Running, RuntimeState::Stopped] {
        assert_eq!(RuntimeState::from_code(s.code()), s);
    }
    assert_eq!(RuntimeState::Armed.code(), 0);
    assert_eq!(RuntimeState::Running.code(), 1);
    assert_eq!(RuntimeState::from_code(7), RuntimeState::Stopped);
}

#[test]
fn only_a_running_runtime_parks_its_workers() {
    assert!(!RuntimeState::Armed.controls_workers());
    assert!(RuntimeState::Running.controls_workers());
    assert!(!RuntimeState::Stopped.controls_workers());
}

#[test]
fn park_barrier_counts_finished_workers_as_done() {
    assert!(!park_barrier_done(1, 0, 2));
    assert!(park_barrier_done(1, 1, 2));
    assert!(park_barrier_done(2, 0, 2));
    assert!(park_barrier_done(0, 0, 0));
    assert!(park_barrier_done(u32::MAX, u32::MAX, u32::MAX));
}

#[test]
fn unpark_barrier_waits_for_live_parked_workers() {
    assert!(unpark_barrier_done(0, 0));
    assert!(!unpark_barrier_done(2, 1));
    assert!(unpark_barrier_done(1, 1));
    assert!(unpark_barrier_done(1, 2));
}

#[test]
fn worker_steps_put_shutdown_before_parking() {
    assert_eq!(worker_step(true, true), WorkerStep::Exit);
    assert_eq!(worker_step(true, false), WorkerStep::Exit);
    assert_eq!(worker_step(false, true), WorkerStep::Checkpoint);
    assert_eq!(worker_step(false, false), WorkerStep::Work);
}

#[test]
fn the_first_worker_panic_is_the_one_kept() {
    let mut slot = PanicSlot::new();
    assert_eq!(slot.take(), None);
    slot.set("recv worker");
    slot.set("send worker");
    assert_eq!(slot.take(), Some("recv worker"));
    assert_eq!(slot.take(), None);
    slot.set("later");
    assert_eq!(slot.take(), Some("later"));
}

#[test]
fn send_lag_sends_each_job_one_cycle_late() {
    let mut lag = SendLag::new();
    assert_eq!(lag.advance(Some(1u32)), None);
    assert_eq!(lag.advance(Some(2)), Some(1));
    assert_eq!(lag.advance(None), Some(2));
    assert_eq!(lag.advance(None), None);
    assert_eq!(lag.advance(Some(3)), None);
    assert_eq!(lag.advance(Some(4)), Some(3));
    assert_eq!(lag.advance(None), Some(4));
}

#[test]
fn the_latest_snapshot_wins() {
    let mut slot = SnapshotSlot::new();
    assert!(!slot.has_pending());
    slot.send(1u32);
    slot.send(2);
    assert!(slot.has_pending());
    assert_eq!(slot.take_latest(), Some(2));
    assert!(!slot.has_pending());
    assert_eq!(slot.take_latest(), None);
}
