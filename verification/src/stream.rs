//! The subscription stream: one client's long-lived, authorization-filtered
//! connection to the event bus.
//!
//! The stream stays open until the client goes away or a send fails; each
//! received event is forwarded exactly when the connection's device
//! supervises the event's device, and a failed directory lookup only drops
//! that one event.

use vstd::prelude::*;
use crate::bus::SseManager;
use crate::bus::has_handle;
use crate::bus::queue_of;
use crate::models::SseEvent;
use crate::supervision::SupervisionStore;
use crate::supervision::has_relation;

verus! {

/// The connection's lifecycle state.
#[derive(Clone, Copy, Debug, PartialEq, Eq, Structural)]
pub enum StreamState {
    /// Waiting for the next event or the heartbeat timer.
    Open,
    /// The client disconnected or a send failed irrecoverably; the bus
    /// handle is to be released.
    Closed,
}

/// What the stream does in response to one input.
#[derive(Debug, PartialEq, Eq)]
pub enum StreamAction {
    /// Serialize the event and send it to the client.
    Forward(SseEvent),
    /// Discard the event silently.
    DropEvent,
    /// Send a keepalive signal to the client.
    Keepalive,
    /// Release the bus handle: the stream is over.
    Release,
}

/// One input to the stream loop.
pub enum StreamInput {
    /// The bus delivered an event.
    Event(SseEvent),
    /// The 30-second heartbeat timer fired.
    Heartbeat,
    /// The client disconnected.
    ClientClosed,
    /// A send to the client failed irrecoverably.
    SendFailed,
}

/// The stream's transition: next state and action for each state and
/// input. `authorized` carries the supervision directory's answer for an
/// event input; `None` stands for a failed lookup, which drops the event
/// and keeps the stream open.
pub open spec fn spec_stream_step(
    state: StreamState,
    input: StreamInput,
    authorized: Option<bool>,
) -> (StreamState, StreamAction) {
    match state {
        StreamState::Closed => (StreamState::Closed, StreamAction::Release),
        StreamState::Open => match input {
            StreamInput::Event(e) => if authorized == Some(true) {
                (StreamState::Open, StreamAction::Forward(e))
            } else {
                (StreamState::Open, StreamAction::DropEvent)
            },
            StreamInput::Heartbeat => (StreamState::Open, StreamAction::Keepalive),
            StreamInput::ClientClosed => (StreamState::Closed, StreamAction::Release),
            StreamInput::SendFailed => (StreamState::Closed, StreamAction::Release),
        },
    }
}

/// Runs one transition of the subscription stream.
pub fn stream_step(state: StreamState, input: StreamInput, authorized: Option<bool>) -> (r: (
    StreamState,
    StreamAction,
))
    ensures
        r == spec_stream_step(state, input, authorized),
{
    match state {
        StreamState::Closed => (StreamState::Closed, StreamAction::Release),
        StreamState::Open => match input {
            StreamInput::Event(e) => match authorized {
                Some(true) => (StreamState::Open, StreamAction::Forward(e)),
                _ => (StreamState::Open, StreamAction::DropEvent),
            },
            StreamInput::Heartbeat => (StreamState::Open, StreamAction::Keepalive),
            StreamInput::ClientClosed => (StreamState::Closed, StreamAction::Release),
            StreamInput::SendFailed => (StreamState::Closed, StreamAction::Release),
        },
    }
}

/// Whether the event is to be sent to the connection owned by `device_id`:
/// exactly when that device supervises the event's device.
pub fn should_send_to_device(event: &SseEvent, device_id: u128, store: &SupervisionStore) -> (r:
    bool)
    ensures
        r == has_relation(store.relations@, device_id, event.spec_device_id()),
{
    match event {
        SseEvent::Signin { device_id: signin_device_id, .. } => store.is_supervisor_of(
            device_id,
            *signin_device_id,
        ),
    }
}

/// One poll of an open subscription stream: takes the next pending event
/// of the stream's bus handle, consults the supervision directory, and
/// forwards or drops it. The result is the event to send to the client,
/// if any.
pub fn stream_poll(
    bus: &mut SseManager,
    store: &SupervisionStore,
    handle: u64,
    device_id: u128,
) -> (r: Option<SseEvent>)
    requires
        old(bus).well_formed(),
    ensures
        final(bus).well_formed(),
        // Exactly the pending events whose device the connection's device
        // supervises are forwarded; unrelated events are dropped.
        (has_handle(old(bus).subs@, handle) && queue_of(old(bus).subs@, handle).len() > 0 ==> {
            let e = queue_of(old(bus).subs@, handle)[0];
            r == (if has_relation(store.relations@, device_id, e.spec_device_id()) {
                Some(e)
            } else {
                None::<SseEvent>
            })
        }),
        (!has_handle(old(bus).subs@, handle) || queue_of(old(bus).subs@, handle).len() == 0
            ==> r is None && final(bus).subs@ == old(bus).subs@),
    {
    match bus.recv(handle) {
        None => None,
        Some(event) => {
            if should_send_to_device(&event, device_id, store) {
                Some(event)
            } else {
                None
            }
        },
    }
}

} // verus!
