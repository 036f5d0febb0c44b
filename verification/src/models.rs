//! The data model: devices, check-in records, supervision requests and
//! relations, and the check-in event carried by the event bus.
//!
//! Identifiers are the 128-bit values of UUIDs; timestamps are seconds since
//! the Unix epoch, UTC.

use vstd::prelude::*;

verus! {

/// Operating mode of a device: it either checks in itself or supervises
/// other devices.
#[derive(Clone, Copy, Debug, PartialEq, Eq, Structural)]
pub enum DeviceMode {
    Signin,
    Supervisor,
}

/// A registered device. `last_seen_at` is touched on every check-in;
/// `last_name_updated_at` drives the rename cooldown.
#[derive(Debug, PartialEq, Eq)]
pub struct Device {
    pub device_id: u128,
    pub device_name: String,
    pub imei: Option<String>,
    pub mode: DeviceMode,
    pub created_at: u64,
    pub last_seen_at: u64,
    pub last_name_updated_at: Option<u64>,
}

impl Clone for Device {
    fn clone(&self) -> (r: Self)
        ensures
            r == *self,
    {
        Device {
            device_id: self.device_id,
            device_name: self.device_name.clone(),
            imei: clone_opt_string(&self.imei),
            mode: self.mode,
            created_at: self.created_at,
            last_seen_at: self.last_seen_at,
            last_name_updated_at: self.last_name_updated_at,
        }
    }
}

/// Body of a device registration call.
#[derive(Debug, PartialEq, Eq)]
pub struct DeviceRegisterRequest {
    pub device_name: String,
    pub imei: Option<String>,
    pub mode: DeviceMode,
}

/// Body of a device rename call.
#[derive(Debug, PartialEq, Eq)]
pub struct DeviceUpdateNameRequest {
    pub device_name: String,
}

/// Lifecycle of a supervision request: created `Pending`, then terminally
/// `Accepted` or `Rejected`.
#[derive(Clone, Copy, Debug, PartialEq, Eq, Structural)]
pub enum SupervisionStatus {
    Pending,
    Accepted,
    Rejected,
}

/// A proposal that `supervisor_id` may supervise `target_id`; retained as an
/// audit trail after it is accepted or rejected.
#[derive(Clone, Copy, Debug, PartialEq, Eq, Structural)]
pub struct SupervisionRequest {
    pub request_id: u128,
    pub supervisor_id: u128,
    pub target_id: u128,
    pub status: SupervisionStatus,
    pub created_at: u64,
}

/// Body of the calls that create, accept or reject a supervision request.
#[derive(Clone, Copy, Debug, PartialEq, Eq, Structural)]
pub struct SupervisionCreateRequest {
    pub supervisor_id: u128,
    pub target_id: u128,
}

/// A standing, directional permission: `supervisor_id` may observe
/// `target_id`'s check-in events. The name fields are an enrichment added
/// when relations are listed; they are `None` on the stored rows.
#[derive(Debug, PartialEq, Eq)]
pub struct SupervisionRelation {
    pub relation_id: u128,
    pub supervisor_id: u128,
    pub target_id: u128,
    pub supervisor_name: Option<String>,
    pub target_name: Option<String>,
    pub created_at: Option<u64>,
}

impl Clone for SupervisionRelation {
    fn clone(&self) -> (r: Self)
        ensures
            r == *self,
    {
        SupervisionRelation {
            relation_id: self.relation_id,
            supervisor_id: self.supervisor_id,
            target_id: self.target_id,
            supervisor_name: clone_opt_string(&self.supervisor_name),
            target_name: clone_opt_string(&self.target_name),
            created_at: self.created_at,
        }
    }
}

/// One device's check-in on one UTC calendar day, with the streak it reached
/// that day. At most one record exists per device and day.
#[derive(Clone, Copy, Debug, PartialEq, Eq, Structural)]
pub struct SigninRecord {
    pub device_id: u128,
    pub date: u64,
    pub streak: i32,
}

/// Answer of the device status query.
#[derive(Debug, PartialEq, Eq)]
pub struct DeviceStatusResponse {
    pub device_id: u128,
    pub device_name: String,
    pub mode: DeviceMode,
    pub last_signin: Option<u64>,
    pub streak: i32,
}

/// The ephemeral value describing one check-in; it exists only on the event
/// bus and in transit to subscribers, and is never persisted.
#[derive(Debug, PartialEq, Eq)]
pub enum SseEvent {
    Signin { device_id: u128, device_name: String, time: u64 },
}

impl SseEvent {
    /// The device the event is about.
    pub open spec fn spec_device_id(&self) -> u128 {
        match self {
            SseEvent::Signin { device_id, .. } => *device_id,
        }
    }

}

impl Clone for SseEvent {
    fn clone(&self) -> (r: Self)
        ensures
            r == *self,
    {
        match self {
            SseEvent::Signin { device_id, device_name, time } => SseEvent::Signin {
                device_id: *device_id,
                device_name: device_name.clone(),
                time: *time,
            },
        }
    }
}

/// Clones an optional string, keeping the value.
pub(crate) fn clone_opt_string(s: &Option<String>) -> (r: Option<String>)
    ensures
        r == *s,
{
    match s {
        Some(v) => Some(v.clone()),
        None => None,
    }
}

} // verus!
