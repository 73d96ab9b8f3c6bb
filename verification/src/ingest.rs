//! What the collection loop does with the outcome of one receive.

use vstd::prelude::*;
use crate::parser::{batch_of, parse_sensor_batch, SensorBatch};

verus! {

/// The outcome of one receive on the datagram socket.
#[derive(Debug)]
pub enum Event {
    /// A datagram arrived with this payload.
    Datagram(Vec<u8>),
    /// The receive was interrupted before anything arrived.
    Interrupted,
    /// The socket failed in any other way.
    Failed,
}

/// What the loop does next.
#[derive(Debug)]
pub enum Action {
    /// Append the batch to the buffer, then receive again.
    Append(SensorBatch),
    /// The payload wrote no batch: drop it and receive again.
    Drop,
    /// Receive again.
    Retry,
    /// Leave the loop.
    Stop,
}

/// A payload that writes a batch is appended and any other is dropped; an
/// interrupted receive is tried again; any other failure ends the loop.
pub open spec fn decided(event: Event, action: Action) -> bool {
    match event {
        Event::Datagram(payload) => match batch_of(payload@) {
            Some(b) => action matches Action::Append(batch) && batch@ == b,
            None => action is Drop,
        },
        Event::Interrupted => action is Retry,
        Event::Failed => action is Stop,
    }
}

/// Decides the loop's next action from the outcome of a receive.
pub fn decide(event: &Event) -> (action: Action)
    ensures
        decided(*event, action),
{
    match event {
        Event::Datagram(payload) => match parse_sensor_batch(payload.as_slice()) {
            Some(batch) => Action::Append(batch),
            None => Action::Drop,
        },
        Event::Interrupted => Action::Retry,
        Event::Failed => Action::Stop,
    }
}

} // verus!
