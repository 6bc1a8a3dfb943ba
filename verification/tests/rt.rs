//! The queue between threads.

use stardust::midi::message::MidiMessage;
use stardust::rt::{hand_over_message, hand_over_note, Handover, RingBuffer};

#[test]
fn push_pop_roundtrip() {
    let (mut p, mut c) = RingBuffer::<u32>::new(4);
    assert!(c.pop().is_err());
    p.push(1).unwrap();
    p.push(2).unwrap();
    p.push(3).unwrap();
    assert_eq!(c.pop().unwrap(), 1);
    assert_eq!(c.pop().unwrap(), 2);
    assert_eq!(c.pop().unwrap(), 3);
    assert!(c.pop().is_err());
}

#[test]
fn returns_err_when_full() {
    let (mut p, _c) = RingBuffer::<u32>::new(2);
    p.push(1).unwrap();
    p.push(2).unwrap();
    assert!(p.push(3).is_err());
}

#[test]
fn messages_arrive_in_order_until_the_queue_is_full() {
    let on = MidiMessage::NoteOn { channel: 0, note: 60, velocity: 1 };
    let off = MidiMessage::NoteOff { channel: 0, note: 60, velocity: 0 };
    let bend = MidiMessage::PitchBend { channel: 0, value: 5 };
    let (mut p, mut c) = RingBuffer::<MidiMessage>::new(2);
    assert_eq!(hand_over_note(&mut p, bend), Handover::Skipped);
    assert_eq!(hand_over_note(&mut p, on), Handover::Queued);
    assert_eq!(hand_over_message(&mut p, MidiMessage::Other), Handover::Skipped);
    assert_eq!(hand_over_message(&mut p, bend), Handover::Queued);
    assert_eq!(hand_over_note(&mut p, off), Handover::Dropped);
    assert_eq!(hand_over_message(&mut p, off), Handover::Dropped);
    assert_eq!(c.pop().unwrap(), on);
    assert_eq!(c.pop().unwrap(), bend);
    assert!(c.pop().is_err());
    assert_eq!(hand_over_note(&mut p, off), Handover::Queued);
    assert_eq!(c.pop().unwrap(), off);
}
