//! Tests of the event bus and the authorization-filtered subscription
//! stream.

use areuok::bus::SseManager;
use areuok::models::SseEvent;
use areuok::stream::should_send_to_device;
use areuok::stream::stream_poll;
use areuok::stream::stream_step;
use areuok::stream::StreamAction;
use areuok::stream::StreamState;
use areuok::supervision::SupervisionStore;

const SUPERVISOR: u128 = 0xa1;
const TARGET: u128 = 0xb2;
const UNRELATED: u128 = 0xc3;

fn signin_event(device_id: u128, n: u64) -> SseEvent {
    SseEvent::Signin { device_id, device_name: format!("device-{}", device_id), time: n }
}

fn event_time(e: &SseEvent) -> u64 {
    match e {
        SseEvent::Signin { time, .. } => *time,
    }
}

#[test]
fn publish_with_zero_subscribers_is_a_noop() {
    let mut bus = SseManager::new();
    let delivered = bus.broadcast(signin_event(TARGET, 1));
    assert_eq!(delivered, 0);
    assert_eq!(bus.subs.len(), 0);
}

#[test]
fn subscriber_receives_published_event() {
    let mut bus = SseManager::new();
    let h = bus.subscribe();
    let delivered = bus.broadcast(signin_event(TARGET, 7));
    assert_eq!(delivered, 1);
    let got = bus.recv(h).expect("an event should be pending");
    assert_eq!(event_time(&got), 7);
    assert!(bus.recv(h).is_none());
}

#[test]
fn subscriber_sees_only_events_after_creation() {
    let mut bus = SseManager::new();
    bus.broadcast(signin_event(TARGET, 1));
    let h = bus.subscribe();
    bus.broadcast(signin_event(TARGET, 2));
    let got = bus.recv(h).expect("an event should be pending");
    assert_eq!(event_time(&got), 2);
    assert!(bus.recv(h).is_none());
}

#[test]
fn full_queue_drops_only_its_oldest_event() {
    let mut bus = SseManager::with_capacity(2);
    let h = bus.subscribe();
    bus.broadcast(signin_event(TARGET, 1));
    bus.broadcast(signin_event(TARGET, 2));
    bus.broadcast(signin_event(TARGET, 3));
    assert_eq!(event_time(&bus.recv(h).unwrap()), 2);
    assert_eq!(event_time(&bus.recv(h).unwrap()), 3);
    assert!(bus.recv(h).is_none());
}

#[test]
fn slow_subscriber_does_not_affect_others() {
    let mut bus = SseManager::with_capacity(2);
    let fast = bus.subscribe();
    let slow = bus.subscribe();
    bus.broadcast(signin_event(TARGET, 1));
    assert_eq!(event_time(&bus.recv(fast).unwrap()), 1);
    bus.broadcast(signin_event(TARGET, 2));
    assert_eq!(event_time(&bus.recv(fast).unwrap()), 2);
    bus.broadcast(signin_event(TARGET, 3));
    assert_eq!(event_time(&bus.recv(fast).unwrap()), 3);
    // The slow subscriber only kept the newest two.
    assert_eq!(event_time(&bus.recv(slow).unwrap()), 2);
    assert_eq!(event_time(&bus.recv(slow).unwrap()), 3);
    assert!(bus.recv(slow).is_none());
}

#[test]
fn unsubscribe_releases_the_handle() {
    let mut bus = SseManager::new();
    let h = bus.subscribe();
    bus.broadcast(signin_event(TARGET, 1));
    bus.unsubscribe(h);
    assert!(bus.recv(h).is_none());
    assert_eq!(bus.subs.len(), 0);
    // Removing an unknown handle is harmless.
    bus.unsubscribe(12345);
}

fn store_with_relation(sup: u128, tgt: u128) -> SupervisionStore {
    let mut store = SupervisionStore::new();
    store.create_request_with_id(sup, tgt, 0xfeed, 50);
    store.accept_with_id(sup, tgt, 0xbeef, 60).expect("accept should succeed");
    store
}

#[test]
fn event_is_sent_only_to_supervisors() {
    let store = store_with_relation(SUPERVISOR, TARGET);
    let target_event = signin_event(TARGET, 5);
    let unrelated_event = signin_event(UNRELATED, 6);
    assert!(should_send_to_device(&target_event, SUPERVISOR, &store));
    assert!(!should_send_to_device(&unrelated_event, SUPERVISOR, &store));
    // The relation is directional: the target does not observe the
    // supervisor.
    let supervisor_event = signin_event(SUPERVISOR, 7);
    assert!(!should_send_to_device(&supervisor_event, TARGET, &store));
}

#[test]
fn three_devices_stream_scenario() {
    let store = store_with_relation(SUPERVISOR, TARGET);
    let mut bus = SseManager::new();
    let h = bus.subscribe();

    bus.broadcast(signin_event(TARGET, 1));
    let got = stream_poll(&mut bus, &store, h, SUPERVISOR);
    assert_eq!(got.map(|e| event_time(&e)), Some(1));

    bus.broadcast(signin_event(UNRELATED, 2));
    let got = stream_poll(&mut bus, &store, h, SUPERVISOR);
    assert!(got.is_none());

    // Nothing pending any more.
    assert!(stream_poll(&mut bus, &store, h, SUPERVISOR).is_none());
}

#[test]
fn stream_machine_transitions() {
    let e = signin_event(TARGET, 1);
    let (s, a) = stream_step(StreamState::Open, areuok::stream::StreamInput::Event(e), Some(true));
    assert_eq!(s, StreamState::Open);
    assert!(matches!(a, StreamAction::Forward(_)));

    let e = signin_event(TARGET, 2);
    let (s, a) = stream_step(StreamState::Open, areuok::stream::StreamInput::Event(e), Some(false));
    assert_eq!(s, StreamState::Open);
    assert!(matches!(a, StreamAction::DropEvent));

    // A failed directory lookup drops the event but keeps the stream open.
    let e = signin_event(TARGET, 3);
    let (s, a) = stream_step(StreamState::Open, areuok::stream::StreamInput::Event(e), None);
    assert_eq!(s, StreamState::Open);
    assert!(matches!(a, StreamAction::DropEvent));

    let (s, a) = stream_step(StreamState::Open, areuok::stream::StreamInput::Heartbeat, None);
    assert_eq!(s, StreamState::Open);
    assert!(matches!(a, StreamAction::Keepalive));

    let (s, a) = stream_step(StreamState::Open, areuok::stream::StreamInput::ClientClosed, None);
    assert_eq!(s, StreamState::Closed);
    assert!(matches!(a, StreamAction::Release));

    let (s, a) = stream_step(StreamState::Closed, areuok::stream::StreamInput::Heartbeat, None);
    assert_eq!(s, StreamState::Closed);
    assert!(matches!(a, StreamAction::Release));
}
