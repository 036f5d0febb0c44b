//! Tests of the device registry and the composed service operations.

use areuok::errors::AppError;
use areuok::models::DeviceMode;
use areuok::models::DeviceRegisterRequest;
use areuok::models::DeviceUpdateNameRequest;
use areuok::models::SseEvent;
use areuok::service::AppState;
use areuok::stream::stream_poll;

const DAY: u64 = 86400;

fn register(state: &mut AppState, name: &str, id: u128) -> u128 {
    let req = DeviceRegisterRequest {
        device_name: name.to_string(),
        imei: None,
        mode: DeviceMode::Signin,
    };
    let d = state
        .devices
        .register_device_with_id(&req, id, 5 * DAY)
        .expect("registration should succeed");
    d.device_id
}

#[test]
fn register_rejects_duplicate_names() {
    let mut state = AppState::new();
    register(&mut state, "alpha", 0x1);
    let req = DeviceRegisterRequest {
        device_name: "alpha".to_string(),
        imei: None,
        mode: DeviceMode::Supervisor,
    };
    let err = state.devices.register_device_with_id(&req, 0x2, 5 * DAY).unwrap_err();
    assert!(matches!(err, AppError::BadRequest(_)));
    assert_eq!(state.devices.devices.len(), 1);
}

#[test]
fn register_returns_existing_device_for_known_imei() {
    let mut state = AppState::new();
    let req = DeviceRegisterRequest {
        device_name: "alpha".to_string(),
        imei: Some("356938035643809".to_string()),
        mode: DeviceMode::Signin,
    };
    let first = state.devices.register_device_with_id(&req, 0x1, 5 * DAY).unwrap();
    let req2 = DeviceRegisterRequest {
        device_name: "beta".to_string(),
        imei: Some("356938035643809".to_string()),
        mode: DeviceMode::Signin,
    };
    let second = state.devices.register_device_with_id(&req2, 0x2, 6 * DAY).unwrap();
    assert_eq!(second.device_id, first.device_id);
    assert_eq!(second.device_name, "alpha");
    assert_eq!(state.devices.devices.len(), 1);
}

#[test]
fn rename_respects_cooldown() {
    let mut state = AppState::new();
    register(&mut state, "alpha", 0x1);
    let rename = |name: &str| DeviceUpdateNameRequest { device_name: name.to_string() };

    // First rename is free: the device was never renamed.
    let d = state.devices.update_device_name(0x1, &rename("alpha2"), 10 * DAY).unwrap();
    assert_eq!(d.device_name, "alpha2");
    assert_eq!(d.last_name_updated_at, Some(10 * DAY));

    // 14 days later the cooldown still runs.
    let err = state.devices.update_device_name(0x1, &rename("alpha3"), 24 * DAY).unwrap_err();
    assert!(matches!(err, AppError::BadRequest(_)));

    // 15 days later it has passed.
    let d = state.devices.update_device_name(0x1, &rename("alpha3"), 25 * DAY).unwrap();
    assert_eq!(d.device_name, "alpha3");
}

#[test]
fn rename_rejects_taken_names_and_unknown_devices() {
    let mut state = AppState::new();
    register(&mut state, "alpha", 0x1);
    register(&mut state, "beta", 0x2);
    let req = DeviceUpdateNameRequest { device_name: "beta".to_string() };
    let err = state.devices.update_device_name(0x1, &req, 10 * DAY).unwrap_err();
    assert!(matches!(err, AppError::BadRequest(_)));
    // Renaming to one's own current name is allowed by the uniqueness rule.
    let req = DeviceUpdateNameRequest { device_name: "alpha".to_string() };
    assert!(state.devices.update_device_name(0x1, &req, 10 * DAY).is_ok());
    let req = DeviceUpdateNameRequest { device_name: "gamma".to_string() };
    let err = state.devices.update_device_name(0x99, &req, 10 * DAY).unwrap_err();
    assert!(matches!(err, AppError::NotFound(_)));
}

#[test]
fn search_filters_case_insensitively() {
    let mut state = AppState::new();
    register(&mut state, "Kitchen Tablet", 0x1);
    register(&mut state, "bedroom phone", 0x2);
    register(&mut state, "Garage Sensor", 0x3);
    let hits = state.devices.search_devices(&"TABLET".to_string());
    assert_eq!(hits.len(), 1);
    assert_eq!(hits[0].device_id, 0x1);
    let hits = state.devices.search_devices(&"e".to_string());
    assert!(hits.is_empty(), "single-character queries return nothing");
    let hits = state.devices.search_devices(&"en".to_string());
    assert_eq!(hits.len(), 2);
}

#[test]
fn search_sorts_ascending_by_name() {
    let mut state = AppState::new();
    // Registered in anti-alphabetical order; the listing is by name.
    register(&mut state, "zebra pad", 0x1);
    register(&mut state, "alpha pad", 0x2);
    register(&mut state, "middle pad", 0x3);
    let hits = state.devices.search_devices(&"pad".to_string());
    assert_eq!(hits.len(), 3);
    assert_eq!(hits[0].device_name, "alpha pad");
    assert_eq!(hits[1].device_name, "middle pad");
    assert_eq!(hits[2].device_name, "zebra pad");
}

#[test]
fn search_caps_at_twenty_results_in_name_order() {
    let mut state = AppState::new();
    // Registered backwards: the cap keeps the 20 earliest names, not the
    // 20 earliest registrations.
    for i in (0..25u32).rev() {
        register(&mut state, &format!("shared-name-{:02}", i), 0x100 + i as u128);
    }
    let hits = state.devices.search_devices(&"shared".to_string());
    assert_eq!(hits.len(), 20);
    assert_eq!(hits[0].device_name, "shared-name-00");
    assert_eq!(hits[19].device_name, "shared-name-19");
}

#[test]
fn signin_of_unknown_device_records_nothing() {
    let mut state = AppState::new();
    let err = state.signin(0x77, 10 * DAY).unwrap_err();
    assert!(matches!(err, AppError::Internal(_)));
    assert_eq!(state.checkins.records.len(), 0);
}

#[test]
fn signin_records_touches_and_publishes() {
    let mut state = AppState::new();
    register(&mut state, "alpha", 0x1);
    let h = state.sse_manager.subscribe();

    let rec = state.signin(0x1, 10 * DAY + 60).expect("signin should succeed");
    assert_eq!(rec.streak, 1);
    assert_eq!(state.devices.devices[0].last_seen_at, 10 * DAY + 60);

    let event = state.sse_manager.recv(h).expect("the check-in event should be pending");
    match event {
        SseEvent::Signin { device_id, device_name, time } => {
            assert_eq!(device_id, 0x1);
            assert_eq!(device_name, "alpha");
            assert_eq!(time, 10 * DAY + 60);
        },
    }
}

#[test]
fn repeated_signin_publishes_no_second_event() {
    let mut state = AppState::new();
    register(&mut state, "alpha", 0x1);
    let h = state.sse_manager.subscribe();
    let first = state.signin(0x1, 10 * DAY + 60).unwrap();
    assert!(state.sse_manager.recv(h).is_some());
    let second = state.signin(0x1, 10 * DAY + 120).unwrap();
    assert_eq!(second.date, first.date);
    assert_eq!(second.streak, first.streak);
    assert!(state.sse_manager.recv(h).is_none(), "the idempotent return publishes nothing");
}

#[test]
fn signin_succeeds_with_zero_subscribers() {
    let mut state = AppState::new();
    register(&mut state, "alpha", 0x1);
    let rec = state.signin(0x1, 10 * DAY).expect("publishing to nobody must not fail");
    assert_eq!(rec.streak, 1);
}

#[test]
fn status_reports_latest_signin_and_streak() {
    let mut state = AppState::new();
    register(&mut state, "alpha", 0x1);
    let st = state.get_device_status(0x1).unwrap();
    assert_eq!(st.streak, 0);
    assert!(st.last_signin.is_none());
    state.signin(0x1, 10 * DAY).unwrap();
    state.signin(0x1, 11 * DAY + 5).unwrap();
    let st = state.get_device_status(0x1).unwrap();
    assert_eq!(st.device_name, "alpha");
    assert_eq!(st.streak, 2);
    assert_eq!(st.last_signin, Some(11 * DAY + 5));
    let err = state.get_device_status(0x99).unwrap_err();
    assert!(matches!(err, AppError::NotFound(_)));
}

#[test]
fn listing_enriches_relations_with_names() {
    let mut state = AppState::new();
    register(&mut state, "watcher", 0xa);
    register(&mut state, "watched", 0xb);
    state.supervision.create_request_with_id(0xa, 0xb, 0x1, 100);
    state.supervision.accept_with_id(0xa, 0xb, 0x10, 150).unwrap();
    state.supervision.create_request_with_id(0xa, 0xcc, 0x2, 200);
    state.supervision.accept_with_id(0xa, 0xcc, 0x11, 250).unwrap();

    let listed = state.list_supervision_relations(0xb);
    assert_eq!(listed.len(), 1);
    assert_eq!(listed[0].relation_id, 0x10);
    assert_eq!(listed[0].supervisor_name.as_deref(), Some("watcher"));
    assert_eq!(listed[0].target_name.as_deref(), Some("watched"));

    // Both parties see the relation; unknown parties keep no name; newest
    // relations come first.
    let listed = state.list_supervision_relations(0xa);
    assert_eq!(listed.len(), 2);
    assert_eq!(listed[0].relation_id, 0x11);
    assert!(listed[0].target_name.is_none());
    assert_eq!(listed[1].relation_id, 0x10);
}

#[test]
fn end_to_end_supervised_signin_reaches_stream() {
    let mut state = AppState::new();
    register(&mut state, "watcher", 0xa);
    register(&mut state, "watched", 0xb);
    state.supervision.create_request_with_id(0xa, 0xb, 0x1, 100);
    state.supervision.accept_with_id(0xa, 0xb, 0x10, 150).unwrap();
    let h = state.sse_manager.subscribe();

    state.signin(0xb, 20 * DAY).unwrap();
    let got = stream_poll(&mut state.sse_manager, &state.supervision, h, 0xa);
    assert!(got.is_some(), "the supervisor's stream forwards the event");

    state.signin(0xa, 20 * DAY).unwrap();
    let got = stream_poll(&mut state.sse_manager, &state.supervision, h, 0xa);
    assert!(got.is_none(), "events of unsupervised devices are dropped");
}

#[test]
fn signin_now_uses_the_wall_clock() {
    let mut state = AppState::new();
    let req = DeviceRegisterRequest {
        device_name: "alpha".to_string(),
        imei: None,
        mode: DeviceMode::Signin,
    };
    let d = state.devices.register_device(&req).expect("registration should succeed");
    let rec = state.signin_now(d.device_id).expect("signin should succeed");
    assert_eq!(rec.streak, 1);
    let again = state.signin_now(d.device_id).expect("signin should succeed");
    assert_eq!(again.date, rec.date);
    assert_eq!(state.checkins.records.len(), 1);
}
