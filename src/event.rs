//! Delivery of decoded messages to the code that consumes an input.

use vstd::prelude::*;

use crate::endpoints::SourceId;
use crate::messages::Message;

verus! {

/// A decoded message as delivered: when in the processing cycle it arrived
/// and from which source.
#[derive(Debug, Clone, Copy, PartialEq, Eq, Structural)]
pub struct Event {
    pub timestamp: u64,
    pub endpoint: SourceId,
    pub message: Message,
}

pub type MidiEvent = Event;

/// Where an input's messages go. `call` runs on the real-time thread, once
/// per accepted message: it must neither block nor allocate.
pub trait EventSink {
    fn call(&mut self, event: Event);
}

/// Relies on `ringbuf::Producer::push`: the event is queued when there is
/// room; otherwise it is handed back unchanged.
#[verifier::external_body]
fn push_event(producer: &mut ringbuf::Producer<Event>, event: Event) -> (r: Result<(), Event>)
    ensures
        r matches Err(e) ==> e == event,
{
    producer.push(event)
}

#[verifier::external_type_specification]
#[verifier::external_body]
#[verifier::reject_recursive_types(T)]
pub struct ExProducer<T>(ringbuf::Producer<T>);

/// A bounded single-producer, single-consumer queue: an event that finds the
/// queue full is dropped.
impl EventSink for ringbuf::Producer<Event> {
    fn call(&mut self, event: Event) {
        let _ = push_event(self, event);
    }
}

} // verus!
