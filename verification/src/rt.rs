//! The queue between the MIDI thread and the audio thread. It never blocks and
//! never allocates once it is made.

pub use rtrb::{Consumer, PopError, Producer, PushError, RingBuffer};

use vstd::prelude::*;

use crate::midi::message::MidiMessage;

verus! {

/// The end of a queue into which values are put.
#[verifier::external_type_specification]
#[verifier::external_body]
#[verifier::reject_recursive_types(T)]
pub struct ExProducer<T>(rtrb::Producer<T>);

/// What was put into a queue through its one end, in order. The other end
/// takes nothing of it back.
pub uninterp spec fn queued(producer: Producer<MidiMessage>) -> Seq<MidiMessage>;

/// `rtrb::Producer::push`: puts a message into the queue behind those before
/// it, or gives it back where the queue is full. Whether it is full is a
/// matter of how far the other thread has come, so nothing is claimed of that.
#[verifier::external_body]
fn push(producer: &mut Producer<MidiMessage>, message: MidiMessage) -> (r: Result<(), MidiMessage>)
    ensures
        (match r {
            Ok(()) => queued(*final(producer)) == queued(*old(producer)).push(message),
            Err(back) => back == message && queued(*final(producer)) == queued(*old(producer)),
        }),
{
    producer.push(message).map_err(|PushError::Full(back)| back)
}

/// What became of a message that was handed to the audio thread.
#[derive(Debug, Clone, Copy, PartialEq, Eq, Structural)]
pub enum Handover {
    /// It is of no use there, and was not sent.
    Skipped,
    /// It is in the queue.
    Queued,
    /// The queue was full.
    Dropped,
}

/// What handing a message over does to the queue.
pub open spec fn handed_over(
    before: Producer<MidiMessage>,
    after: Producer<MidiMessage>,
    msg: MidiMessage,
    r: Handover,
) -> bool {
    queued(after) == if r == Handover::Queued {
        queued(before).push(msg)
    } else {
        queued(before)
    }
}

/// Whether a message starts or ends a note.
pub open spec fn is_note(msg: MidiMessage) -> bool {
    msg is NoteOn || msg is NoteOff
}

/// Hands a message to a synth that plays notes and nothing else.
pub fn hand_over_note(producer: &mut Producer<MidiMessage>, msg: MidiMessage) -> (r: Handover)
    ensures
        r == Handover::Skipped <==> !is_note(msg),
        handed_over(*old(producer), *final(producer), msg, r),
{
    match msg {
        MidiMessage::NoteOn { .. } | MidiMessage::NoteOff { .. } => match push(producer, msg) {
            Ok(()) => Handover::Queued,
            Err(_) => Handover::Dropped,
        },
        _ => Handover::Skipped,
    }
}

/// Hands a message to a plugin that takes all channel messages.
pub fn hand_over_message(producer: &mut Producer<MidiMessage>, msg: MidiMessage) -> (r: Handover)
    ensures
        r == Handover::Skipped <==> msg == MidiMessage::Other,
        handed_over(*old(producer), *final(producer), msg, r),
{
    if let MidiMessage::Other = msg {
        return Handover::Skipped;
    }
    match push(producer, msg) {
        Ok(()) => Handover::Queued,
        Err(_) => Handover::Dropped,
    }
}

/// Notes are what a synth that plays only notes is handed: every message that
/// starts or ends a note, and no controller, wheel, pressure or program.
pub proof fn law_synth_is_handed_notes(channel: u8, a: u8, b: u8, wheel: i16)
    ensures
        is_note(MidiMessage::NoteOn { channel, note: a, velocity: b }),
        is_note(MidiMessage::NoteOff { channel, note: a, velocity: b }),
        !is_note(MidiMessage::ControlChange { channel, cc: a, value: b }),
        !is_note(MidiMessage::PitchBend { channel, value: wheel }),
        !is_note(MidiMessage::ChannelPressure { channel, value: a }),
        !is_note(MidiMessage::PolyAftertouch { channel, note: a, value: b }),
        !is_note(MidiMessage::ProgramChange { channel, program: a }),
        !is_note(MidiMessage::Other),
{
}

/// A message that is queued comes behind all that were queued before it; one that
/// is not leaves the queue as it was.
pub proof fn law_queue_keeps_the_order(
    before: Producer<MidiMessage>,
    after: Producer<MidiMessage>,
    msg: MidiMessage,
    r: Handover,
    i: int,
)
    requires
        handed_over(before, after, msg, r),
        0 <= i < queued(before).len(),
    ensures
        queued(after)[i] == queued(before)[i],
        r == Handover::Queued ==> queued(after).len() == queued(before).len() + 1 && queued(
            after,
        ).last() == msg,
        r != Handover::Queued ==> queued(after).len() == queued(before).len(),
{
}

} // verus!
