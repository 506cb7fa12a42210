use std::sync::atomic::{AtomicU8, Ordering};
use std::sync::Arc;

use kiro_midi::event::{EventSink, MidiEvent};
use kiro_midi::messages::{Message, MessageType, Utility};

struct Callback<F: FnMut(MidiEvent)>(F);

impl<F: FnMut(MidiEvent)> EventSink for Callback<F> {
    fn call(&mut self, event: MidiEvent) {
        (self.0)(event)
    }
}

fn noop_event() -> MidiEvent {
    MidiEvent {
        timestamp: 0,
        endpoint: 0,
        message: Message { group: 8, mtype: MessageType::Utility(Utility::Noop) },
    }
}

#[test]
fn from_callback() {
    let state = Arc::new(AtomicU8::new(1));
    let state_clone = state.clone();

    let mut handler =
        Callback(move |event: MidiEvent| state_clone.store(event.message.group, Ordering::Relaxed));

    handler.call(noop_event());

    assert_eq!(state.load(Ordering::Relaxed), 8);
}

#[test]
fn from_ring_buffer() {
    let (mut producer, mut consumer) = ringbuf::RingBuffer::new(1).split();
    let event = noop_event();

    producer.call(event.clone());

    assert_eq!(consumer.pop(), Some(event));
}

#[test]
fn ring_buffer_drops_on_overflow() {
    let (mut producer, mut consumer) = ringbuf::RingBuffer::new(1).split();
    let first = noop_event();
    let second = MidiEvent { timestamp: 5, ..first };
    producer.call(first);
    producer.call(second);
    assert_eq!(consumer.pop(), Some(first));
    assert_eq!(consumer.pop(), None);
}
