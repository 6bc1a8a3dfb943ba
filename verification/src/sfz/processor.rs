//! The plugin around the sample player: its events, and the order in which a
//! block is rendered.

use vstd::prelude::*;

use crate::midi::message;
use crate::midi::message::{channel_bits, kind_bits, low_bits, wheel_bits};
use crate::sfz::engine;
use crate::sfz::engine::Engine;

verus! {

// ---------------------------------------------------------------------------
// Events
// ---------------------------------------------------------------------------

/// An event from the host. A port, channel or key that is missing stands for
/// all of them.
#[derive(Clone, Copy, Debug, PartialEq, Eq, Structural)]
pub enum PluginEvent {
    NoteOn { port: Option<u16>, channel: Option<u16>, key: Option<u16>, velocity: u8 },
    NoteOff { port: Option<u16>, channel: Option<u16>, key: Option<u16> },
    /// A plain MIDI message.
    Midi { status: u8, data1: u8, data2: u8 },
    /// Anything else.
    Other,
}

/// What the player is to do.
#[derive(Clone, Copy, Debug, PartialEq, Eq, Structural)]
pub enum Command {
    Nothing,
    NoteOn { channel: u8, key: u8, velocity: u8 },
    NoteOff { channel: u8, key: u8 },
    ControlChange { channel: u8, cc: u8, value: u8 },
    /// The wheel is at a position of 14 bits, of which 8192 is the middle.
    PitchBend { channel: u8, value: i16 },
}

/// Whether an event is for the one port that there is.
pub open spec fn for_first_port(port: Option<u16>) -> bool {
    port is None || port == Some(0u16)
}

/// What an event asks for. Notes have to name their channel and key; a note is
/// started with velocity 1 at least.
pub open spec fn command_of(event: PluginEvent) -> Command {
    match event {
        PluginEvent::NoteOn { port, channel: Some(channel), key: Some(key), velocity } => {
            if for_first_port(port) {
                Command::NoteOn {
                    channel: (channel % 256) as u8,
                    key: (key % 256) as u8,
                    velocity: if velocity == 0 {
                        1
                    } else {
                        velocity
                    },
                }
            } else {
                Command::Nothing
            }
        },
        PluginEvent::NoteOff { port, channel: Some(channel), key: Some(key) } => {
            if for_first_port(port) {
                Command::NoteOff { channel: (channel % 256) as u8, key: (key % 256) as u8 }
            } else {
                Command::Nothing
            }
        },
        PluginEvent::Midi { status, data1, data2 } => {
            let channel = (status % 16) as u8;
            if status / 16 == 0xb {
                Command::ControlChange {
                    channel,
                    cc: message::data_bits(data1),
                    value: message::data_bits(data2),
                }
            } else if status / 16 == 0xe {
                Command::PitchBend {
                    channel,
                    value: message::fourteen_bits(data1, data2) as i16,
                }
            } else {
                Command::Nothing
            }
        },
        _ => Command::Nothing,
    }
}

fn first_port(port: Option<u16>) -> (r: bool)
    ensures
        r == for_first_port(port),
{
    match port {
        Some(p) => p == 0,
        None => true,
    }
}

/// What an event asks for.
pub fn decode_event(event: PluginEvent) -> (r: Command)
    ensures
        r == command_of(event),
{
    match event {
        PluginEvent::NoteOn { port, channel, key, velocity } => match (channel, key) {
            (Some(c), Some(k)) => if first_port(port) {
                Command::NoteOn {
                    channel: (c % 256) as u8,
                    key: (k % 256) as u8,
                    velocity: if velocity == 0 {
                        1
                    } else {
                        velocity
                    },
                }
            } else {
                Command::Nothing
            },
            _ => Command::Nothing,
        },
        PluginEvent::NoteOff { port, channel, key } => match (channel, key) {
            (Some(c), Some(k)) => if first_port(port) {
                Command::NoteOff { channel: (c % 256) as u8, key: (k % 256) as u8 }
            } else {
                Command::Nothing
            },
            _ => Command::Nothing,
        },
        PluginEvent::Midi { status, data1, data2 } => {
            let channel = channel_bits(status);
            match kind_bits(status) {
                0xb => Command::ControlChange {
                    channel,
                    cc: low_bits(data1),
                    value: low_bits(data2),
                },
                0xe => Command::PitchBend { channel, value: wheel_bits(data1, data2) },
                _ => Command::Nothing,
            }
        },
        PluginEvent::Other => Command::Nothing,
    }
}

/// Whether `after` is what a command makes of `before`, and `voice` the index
/// of the voice that it started.
pub open spec fn commanded<S>(
    before: Engine<S>,
    after: Engine<S>,
    command: Command,
    voice: Option<usize>,
) -> bool {
    match command {
        Command::Nothing => voice is None && after == before,
        Command::NoteOn { channel, key, velocity } => {
            match engine::matching_region(before.instrument.regions@, key, velocity) {
                Some(region) => voice matches Some(i) && engine::note_struck(
                    before,
                    after,
                    region,
                    channel,
                    key,
                    velocity,
                    i as int,
                ),
                None => voice is None && after == before,
            }
        },
        Command::NoteOff { channel, key } => {
            &&& voice is None
            &&& after.sustain_pedal == before.sustain_pedal
            &&& engine::voices_changed(
                before,
                after,
                |v: engine::Voice|
                    engine::voice_after_note_off(v, channel, key, before.sustain_pedal),
            )
        },
        Command::ControlChange { cc, value, .. } => voice is None && engine::controller_moved(
            before,
            after,
            cc,
            value,
        ),
        Command::PitchBend { value, .. } => voice is None && after == (Engine {
            bend: engine::bend_of(value) as i16,
            ..before
        }),
    }
}

impl<S> Engine<S> {
    /// Acts on an event of the host. Gives the index of the voice that was
    /// started.
    pub fn handle_event(&mut self, event: PluginEvent) -> (r: Option<usize>)
        requires
            engine::engine_ok(*old(self)),
        ensures
            engine::engine_ok(*final(self)),
            commanded(*old(self), *final(self), command_of(event), r),
            r matches Some(i) ==> i < engine::POLYPHONY,
    {
        match decode_event(event) {
            Command::Nothing => None,
            Command::NoteOn { channel, key, velocity } => self.note_on(channel, key, velocity),
            Command::NoteOff { channel, key } => {
                self.note_off(channel, key);
                None
            },
            Command::ControlChange { channel, cc, value } => {
                self.control_change(channel, cc, value);
                None
            },
            Command::PitchBend { channel, value } => {
                self.pitch_bend(channel, value);
                None
            },
        }
    }
}

// ---------------------------------------------------------------------------
// The output of a block
// ---------------------------------------------------------------------------

/// The output that the host gives for a block.
#[derive(Clone, Copy, Debug, PartialEq, Eq, Structural)]
pub enum Output {
    /// None.
    Missing,
    /// One that does not take single-precision samples.
    NotFloat,
    /// One with a number of channels, and the length of the first, where it
    /// can be had.
    Channels { count: u32, frames: Option<usize> },
}

/// Why a block cannot be rendered.
#[derive(Clone, Copy, Debug, PartialEq, Eq, Structural)]
pub enum OutputFault {
    Missing,
    NotFloat,
    NotStereo,
    NoChannel,
}

/// A fault in words.
pub open spec fn fault_words(f: OutputFault) -> Seq<char> {
    match f {
        OutputFault::Missing => "No output port found"@,
        OutputFault::NotFloat => "Expected f32 output"@,
        OutputFault::NotStereo => "Stardust SFZ requires a stereo output"@,
        OutputFault::NoChannel => "Expected at least one output channel"@,
    }
}

impl OutputFault {
    /// The fault in words.
    pub fn message(self) -> (r: &'static str)
        ensures
            r@ == fault_words(self),
    {
        match self {
            OutputFault::Missing => "No output port found",
            OutputFault::NotFloat => "Expected f32 output",
            OutputFault::NotStereo => "Stardust SFZ requires a stereo output",
            OutputFault::NoChannel => "Expected at least one output channel",
        }
    }
}

/// The block that an output asks for, or why there is none: it has to have two
/// channels at least.
pub open spec fn block_of(output: Output) -> Result<Block, OutputFault> {
    match output {
        Output::Missing => Err(OutputFault::Missing),
        Output::NotFloat => Err(OutputFault::NotFloat),
        Output::Channels { count, frames } => if count < 2 {
            Err(OutputFault::NotStereo)
        } else {
            match frames {
                Some(frames) => Ok(Block { cursor: 0, frames }),
                None => Err(OutputFault::NoChannel),
            }
        },
    }
}

/// The block that an output asks for.
pub fn open_block(output: Output) -> (r: Result<Block, OutputFault>)
    ensures
        r == block_of(output),
{
    match output {
        Output::Missing => Err(OutputFault::Missing),
        Output::NotFloat => Err(OutputFault::NotFloat),
        Output::Channels { count, frames } => if count < 2 {
            Err(OutputFault::NotStereo)
        } else {
            match frames {
                Some(frames) => Ok(Block::new(frames)),
                None => Err(OutputFault::NoChannel),
            }
        },
    }
}

/// Which side of the stereo signal a channel of the output gets: the first two
/// get left and right, the others silence.
pub fn channel_side(index: u32) -> (r: Option<usize>)
    ensures
        r == if index < 2 {
            Some(index as usize)
        } else {
            None
        },
{
    if index < 2 {
        Some(index as usize)
    } else {
        None
    }
}

// ---------------------------------------------------------------------------
// Blocks
// ---------------------------------------------------------------------------

/// A stretch of frames, from `start` up to but not including `end`.
#[derive(Clone, Copy, Debug, PartialEq, Eq, Structural)]
pub struct Segment {
    pub start: usize,
    pub end: usize,
}

/// How far a block has been rendered. It is rendered in stretches, with the
/// events of the host between them.
#[derive(Clone, Copy, Debug, PartialEq, Eq, Structural)]
pub struct Block {
    pub cursor: usize,
    pub frames: usize,
}

/// The frame up to which a block is rendered after a batch of events, where
/// `next` is the first frame of the next batch.
pub open spec fn render_end(b: Block, next: Option<usize>) -> usize {
    let end = match next {
        Some(n) => if n <= b.frames {
            n
        } else {
            b.frames
        },
        None => b.frames,
    };
    if end > b.cursor {
        end
    } else {
        b.cursor
    }
}

/// The stretch between two frames; none where it is empty.
pub open spec fn stretch(start: usize, end: usize) -> Option<Segment> {
    if start < end {
        Some(Segment { start, end })
    } else {
        None
    }
}

impl Block {
    /// A block of which nothing has been rendered.
    pub fn new(frames: usize) -> (r: Block)
        ensures
            r.cursor == 0,
            r.frames == frames,
    {
        Block { cursor: 0, frames }
    }

    /// The stretch to render after a batch of events.
    pub fn after_batch(&mut self, next: Option<usize>) -> (r: Option<Segment>)
        requires
            old(self).cursor <= old(self).frames,
        ensures
            final(self).frames == old(self).frames,
            final(self).cursor == render_end(*old(self), next),
            final(self).cursor <= final(self).frames,
            r == stretch(old(self).cursor, final(self).cursor),
    {
        let end: usize = match next {
            Some(n) => if n <= self.frames {
                n
            } else {
                self.frames
            },
            None => self.frames,
        };
        if end > self.cursor {
            let start: usize = self.cursor;
            self.cursor = end;
            Some(Segment { start, end })
        } else {
            None
        }
    }

    /// The stretch that is left once all events have been dealt with.
    pub fn rest(&mut self) -> (r: Option<Segment>)
        requires
            old(self).cursor <= old(self).frames,
        ensures
            final(self).frames == old(self).frames,
            final(self).cursor == old(self).frames,
            r == stretch(old(self).cursor, old(self).frames),
    {
        let start: usize = self.cursor;
        let end: usize = self.frames;
        self.cursor = end;
        if start < end {
            Some(Segment { start, end })
        } else {
            None
        }
    }
}

/// How far a block has been rendered after several batches of events.
pub open spec fn after_batches(frames: usize, nexts: Seq<Option<usize>>) -> Block
    decreases nexts.len(),
{
    if nexts.len() == 0 {
        Block { cursor: 0, frames }
    } else {
        let before = after_batches(frames, nexts.drop_last());
        Block { cursor: render_end(before, nexts.last()), frames }
    }
}

/// The stretches that are rendered after several batches of events, and the
/// rest.
pub open spec fn stretches(frames: usize, nexts: Seq<Option<usize>>) -> Seq<Segment> {
    let (before, cursor) = batch_stretches(frames, nexts);
    if cursor < frames {
        before.push(Segment { start: cursor, end: frames })
    } else {
        before
    }
}

/// The stretches that are rendered after several batches of events, and the
/// frame up to which they reach.
pub open spec fn batch_stretches(frames: usize, nexts: Seq<Option<usize>>) -> (Seq<Segment>, usize)
    decreases nexts.len(),
{
    if nexts.len() == 0 {
        (Seq::empty(), 0)
    } else {
        let (before, cursor) = batch_stretches(frames, nexts.drop_last());
        let end = render_end(Block { cursor, frames }, nexts.last());
        if cursor < end {
            (before.push(Segment { start: cursor, end }), end)
        } else {
            (before, end)
        }
    }
}

/// Whether stretches follow on one another without gap or overlap, from frame 0
/// up to `end`.
pub open spec fn tile(segments: Seq<Segment>, end: usize) -> bool
    decreases segments.len(),
{
    if segments.len() == 0 {
        end == 0
    } else {
        &&& segments.last().start < segments.last().end
        &&& segments.last().end == end
        &&& tile(segments.drop_last(), segments.last().start)
    }
}

proof fn lemma_batch_stretches_tile(frames: usize, nexts: Seq<Option<usize>>)
    ensures
        tile(batch_stretches(frames, nexts).0, batch_stretches(frames, nexts).1),
        batch_stretches(frames, nexts).1 <= frames,
        batch_stretches(frames, nexts).1 == after_batches(frames, nexts).cursor,
    decreases nexts.len(),
{
    if nexts.len() > 0 {
        lemma_batch_stretches_tile(frames, nexts.drop_last());
        let (before, cursor) = batch_stretches(frames, nexts.drop_last());
        let end = render_end(Block { cursor, frames }, nexts.last());
        if cursor < end {
            assert(before.push(Segment { start: cursor, end }).drop_last() =~= before);
        }
    }
}

/// Wherever the batches of events lie, the stretches of a block cover each of
/// its frames once, in order.
pub proof fn law_block_is_rendered_once(frames: usize, nexts: Seq<Option<usize>>)
    ensures
        tile(stretches(frames, nexts), frames),
{
    lemma_batch_stretches_tile(frames, nexts);
    let (before, cursor) = batch_stretches(frames, nexts);
    if cursor < frames {
        assert(before.push(Segment { start: cursor, end: frames }).drop_last() =~= before);
    }
}

// ---------------------------------------------------------------------------
// Channels
// ---------------------------------------------------------------------------

/// One of the two channels of an interleaved block.
pub open spec fn channel_of<T>(interleaved: Seq<T>, channel: int, frames: nat) -> Seq<T> {
    Seq::new(frames, |i: int| interleaved[i * 2 + channel])
}

/// Writes one of the two channels of an interleaved block to `out`.
pub fn deinterleave<T: Copy>(interleaved: &[T], channel: usize, out: &mut [T])
    requires
        channel < 2,
        old(out)@.len() * 2 <= interleaved@.len(),
    ensures
        final(out)@ == channel_of(interleaved@, channel as int, old(out)@.len()),
{
    let frames: usize = out.len();
    let have: usize = interleaved.len();
    for i in 0..frames
        invariant
            channel < 2,
            frames == out@.len(),
            have == interleaved@.len(),
            frames * 2 <= have,
            forall|j: int| 0 <= j < i ==> out@[j] == interleaved@[j * 2 + channel],
    {
        out[i] = interleaved[i * 2 + channel];
    }
    assert(out@ =~= channel_of(interleaved@, channel as int, frames as nat));
}

/// Each fault of an output is told in its own words, which say what was looked for.
pub proof fn law_output_faults_are_told_apart(f: OutputFault, g: OutputFault)
    ensures
        fault_words(f) == fault_words(g) <==> f == g,
        fault_words(f) == "No output port found"@ ==> f == OutputFault::Missing,
        fault_words(f) == "Expected f32 output"@ ==> f == OutputFault::NotFloat,
        fault_words(f) == "Stardust SFZ requires a stereo output"@ ==> f == OutputFault::NotStereo,
        fault_words(f) == "Expected at least one output channel"@ ==> f == OutputFault::NoChannel,
{
    reveal_strlit("No output port found");
    reveal_strlit("Expected f32 output");
    reveal_strlit("Stardust SFZ requires a stereo output");
    reveal_strlit("Expected at least one output channel");
    assert(fault_words(OutputFault::Missing).len() == 20);
    assert(fault_words(OutputFault::NotFloat).len() == 19);
    assert(fault_words(OutputFault::NotStereo).len() == 37);
    assert(fault_words(OutputFault::NoChannel).len() == 36);
}

} // verus!
