//! Tests of the supervision request workflow and the directory it
//! populates.

use areuok::errors::AppError;
use areuok::models::SupervisionStatus;
use areuok::supervision::SupervisionStore;

const SUP: u128 = 0xa1;
const TGT: u128 = 0xb2;

#[test]
fn created_request_is_pending_for_target() {
    let mut store = SupervisionStore::new();
    let req = store.create_request_with_id(SUP, TGT, 0x1, 100);
    assert_eq!(req.status, SupervisionStatus::Pending);
    assert_eq!(req.supervisor_id, SUP);
    assert_eq!(req.target_id, TGT);
    assert_eq!(req.created_at, 100);
    let pending = store.pending_requests(TGT);
    assert_eq!(pending.len(), 1);
    assert_eq!(pending[0].request_id, 0x1);
    assert!(store.pending_requests(SUP).is_empty());
}

#[test]
fn pending_requests_come_newest_first() {
    let mut store = SupervisionStore::new();
    store.create_request_with_id(SUP, TGT, 0x1, 100);
    store.create_request_with_id(0xcc, TGT, 0x2, 200);
    store.create_request_with_id(SUP, 0xdd, 0x3, 300);
    let pending = store.pending_requests(TGT);
    assert_eq!(pending.len(), 2);
    assert_eq!(pending[0].request_id, 0x2);
    assert_eq!(pending[1].request_id, 0x1);
}

#[test]
fn accept_creates_relation_and_consumes_request() {
    let mut store = SupervisionStore::new();
    store.create_request_with_id(SUP, TGT, 0x1, 100);
    assert!(!store.is_supervisor_of(SUP, TGT));
    store.accept_with_id(SUP, TGT, 0x10, 150).expect("accept should succeed");
    assert!(store.is_supervisor_of(SUP, TGT));
    // The relation is directional.
    assert!(!store.is_supervisor_of(TGT, SUP));
    assert!(store.pending_requests(TGT).is_empty());
    assert_eq!(store.requests[0].status, SupervisionStatus::Accepted);
}

#[test]
fn accept_without_pending_request_is_not_found() {
    let mut store = SupervisionStore::new();
    let err = store.accept_with_id(SUP, TGT, 0x10, 150).unwrap_err();
    assert!(matches!(err, AppError::NotFound(_)));
}

#[test]
fn accept_with_existing_relation_is_bad_request() {
    let mut store = SupervisionStore::new();
    store.create_request_with_id(SUP, TGT, 0x1, 100);
    store.accept_with_id(SUP, TGT, 0x10, 150).expect("accept should succeed");
    // A second accept while the relation stands hits the duplicate-relation
    // rule, even though no pending request remains.
    store.create_request_with_id(SUP, TGT, 0x2, 200);
    let err = store.accept_with_id(SUP, TGT, 0x11, 250).unwrap_err();
    assert!(matches!(err, AppError::BadRequest(_)));
}

#[test]
fn second_accept_after_removal_is_not_found() {
    let mut store = SupervisionStore::new();
    store.create_request_with_id(SUP, TGT, 0x1, 100);
    store.accept_with_id(SUP, TGT, 0x10, 150).expect("accept should succeed");
    store.remove_supervision(0x10);
    // The only pending request was consumed by the accept, so nothing is
    // left to accept.
    let err = store.accept_with_id(SUP, TGT, 0x11, 250).unwrap_err();
    assert!(matches!(err, AppError::NotFound(_)));
}

#[test]
fn accept_acts_on_most_recent_pending_request() {
    let mut store = SupervisionStore::new();
    store.create_request_with_id(SUP, TGT, 0x1, 100);
    store.create_request_with_id(SUP, TGT, 0x2, 200);
    store.accept_with_id(SUP, TGT, 0x10, 250).expect("accept should succeed");
    // The newer request was consumed; the older one is still pending.
    assert_eq!(store.requests[1].status, SupervisionStatus::Accepted);
    assert_eq!(store.requests[0].status, SupervisionStatus::Pending);
    // After removing the relation, the older pending request can be
    // accepted in turn.
    store.remove_supervision(0x10);
    store.accept_with_id(SUP, TGT, 0x11, 300).expect("accept should succeed");
    assert_eq!(store.requests[0].status, SupervisionStatus::Accepted);
}

#[test]
fn reject_marks_most_recent_pending() {
    let mut store = SupervisionStore::new();
    store.create_request_with_id(SUP, TGT, 0x1, 100);
    store.create_request_with_id(SUP, TGT, 0x2, 200);
    store.reject(SUP, TGT).expect("reject should succeed");
    assert_eq!(store.requests[1].status, SupervisionStatus::Rejected);
    assert_eq!(store.requests[0].status, SupervisionStatus::Pending);
    assert!(!store.is_supervisor_of(SUP, TGT));
}

#[test]
fn reject_without_pending_request_is_not_found() {
    let mut store = SupervisionStore::new();
    let err = store.reject(SUP, TGT).unwrap_err();
    assert!(matches!(err, AppError::NotFound(_)));
}

#[test]
fn remove_is_idempotent() {
    let mut store = SupervisionStore::new();
    store.create_request_with_id(SUP, TGT, 0x1, 100);
    store.accept_with_id(SUP, TGT, 0x10, 150).expect("accept should succeed");
    assert_eq!(store.relations.len(), 1);
    store.remove_supervision(0x10);
    assert_eq!(store.relations.len(), 0);
    // Removing again, and removing an id that never existed, are no-ops.
    store.remove_supervision(0x10);
    store.remove_supervision(0x999);
    assert_eq!(store.relations.len(), 0);
    assert!(!store.is_supervisor_of(SUP, TGT));
}

#[test]
fn random_ids_create_requests_too() {
    let mut store = SupervisionStore::new();
    let req = store.create_request(SUP, TGT).expect("creation should succeed");
    assert_eq!(req.status, SupervisionStatus::Pending);
    assert_eq!(store.pending_requests(TGT).len(), 1);
    store.accept(SUP, TGT).expect("accept should succeed");
    assert!(store.is_supervisor_of(SUP, TGT));
}

#[test]
fn error_status_codes_follow_the_taxonomy() {
    assert_eq!(AppError::NotFound("x".to_string()).status_code(), 404);
    assert_eq!(AppError::BadRequest("x".to_string()).status_code(), 400);
    assert_eq!(AppError::Internal("x".to_string()).status_code(), 500);
    assert_eq!(AppError::NotFound("gone".to_string()).message(), "gone");
}
