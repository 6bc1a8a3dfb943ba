//! MIDI channel messages, read from and written to bytes.

use vstd::prelude::*;
use vstd::string::*;

verus! {

/// A MIDI input port.
#[derive(Debug, Clone, PartialEq, Eq)]
pub struct MidiInputInfo {
    /// The name that the system gives the port, by which it is opened.
    pub name: String,
}

/// What a list of ports says.
pub open spec fn input_views(inputs: Seq<MidiInputInfo>) -> Seq<Seq<char>> {
    inputs.map_values(|i: MidiInputInfo| i.name@)
}

/// The name of a port, or a stand-in for one that cannot be read.
pub open spec fn shown_name(name: Option<String>) -> Seq<char> {
    match name {
        Some(n) => n@,
        None => "<unknown>"@,
    }
}

/// The ports with the given names, in order.
pub fn list_inputs(names: Vec<Option<String>>) -> (r: Vec<MidiInputInfo>)
    ensures
        input_views(r@) == names@.map_values(|n: Option<String>| shown_name(n)),
{
    let ghost all = names@;
    let ghost shown = all.map_values(|n: Option<String>| shown_name(n));
    let mut out: Vec<MidiInputInfo> = Vec::new();
    for n in iter: names
        invariant
            iter.seq() == all,
            shown == all.map_values(|n: Option<String>| shown_name(n)),
            out.len() == iter.index(),
            forall|i: int| 0 <= i < out.len() ==> (#[trigger] out@[i]).name@ == shown[i],
    {
        assert(shown[iter.index() as int] == shown_name(n));
        let name = match n {
            Some(s) => s,
            None => "<unknown>".to_owned(),
        };
        out.push(MidiInputInfo { name });
    }
    assert(input_views(out@) =~= shown);
    out
}

/// A message with the time at which it came.
#[derive(Debug, Clone, Copy, PartialEq, Eq, Structural)]
pub struct MidiEvent {
    /// The time in nanoseconds, as the platform reports it.
    pub timestamp_ns: u64,
    pub message: MidiMessage,
}

/// A MIDI channel message. Everything else (system exclusive, clock and the
/// like) is `Other`.
///
/// A note-on with velocity 0 is a note-off.
#[allow(inconsistent_fields)]
#[derive(Debug, Clone, Copy, PartialEq, Eq, Structural)]
pub enum MidiMessage {
    /// A key is pressed.
    NoteOn { channel: u8, note: u8, velocity: u8 },
    /// A key is released.
    NoteOff { channel: u8, note: u8, velocity: u8 },
    /// A controller is moved: a wheel, a pedal.
    ControlChange { channel: u8, cc: u8, value: u8 },
    /// The pitch wheel is moved; 0 is its centre.
    PitchBend { channel: u8, value: i16 },
    /// Pressure on the whole channel.
    ChannelPressure { channel: u8, value: u8 },
    /// Pressure on one key.
    PolyAftertouch { channel: u8, note: u8, value: u8 },
    /// Another program is chosen.
    ProgramChange { channel: u8, program: u8 },
    /// Anything else.
    Other,
}

// ---------------------------------------------------------------------------
// Reading
// ---------------------------------------------------------------------------

/// The seven bits that a data byte carries.
pub open spec fn data_bits(b: u8) -> u8 {
    (b % 128) as u8
}

/// The value of two data bytes, the low one first.
pub open spec fn fourteen_bits(low: u8, high: u8) -> int {
    data_bits(high) * 128 + data_bits(low)
}

/// The message that bytes stand for, with the status byte first; nothing where
/// there are no bytes. A message that is cut short is `Other`.
pub open spec fn message_of(bytes: Seq<u8>) -> Option<MidiMessage> {
    if bytes.len() == 0 {
        None
    } else {
        let kind = bytes[0] / 16;
        let channel = (bytes[0] % 16) as u8;
        let note = data_bits(bytes[1]);
        let value = data_bits(bytes[2]);
        Some(
            if kind == 0x8 && bytes.len() >= 3 {
                MidiMessage::NoteOff { channel, note, velocity: value }
            } else if kind == 0x9 && bytes.len() >= 3 {
                if value == 0 {
                    MidiMessage::NoteOff { channel, note, velocity: 0 }
                } else {
                    MidiMessage::NoteOn { channel, note, velocity: value }
                }
            } else if kind == 0xa && bytes.len() >= 3 {
                MidiMessage::PolyAftertouch { channel, note, value }
            } else if kind == 0xb && bytes.len() >= 3 {
                MidiMessage::ControlChange { channel, cc: note, value }
            } else if kind == 0xc && bytes.len() >= 2 {
                MidiMessage::ProgramChange { channel, program: note }
            } else if kind == 0xd && bytes.len() >= 2 {
                MidiMessage::ChannelPressure { channel, value: note }
            } else if kind == 0xe && bytes.len() >= 3 {
                MidiMessage::PitchBend {
                    channel,
                    value: (fourteen_bits(bytes[1], bytes[2]) - 8192) as i16,
                }
            } else {
                MidiMessage::Other
            },
        )
    }
}

/// The low four bits of a status byte: the channel.
pub(crate) fn channel_bits(status: u8) -> (r: u8)
    ensures
        r == status % 16,
{
    assert(status & 0x0f == status % 16) by (bit_vector);
    status & 0x0f
}

/// The high four bits of a status byte: the kind of message.
pub(crate) fn kind_bits(status: u8) -> (r: u8)
    ensures
        r == status / 16,
{
    assert(status >> 4 == status / 16) by (bit_vector);
    status >> 4
}

/// The seven bits that a data byte carries.
pub(crate) fn low_bits(b: u8) -> (r: u8)
    ensures
        r == data_bits(b),
{
    assert(b & 0x7f == b % 128) by (bit_vector);
    b & 0x7f
}

/// The value of two data bytes.
pub(crate) fn wheel_bits(low: u8, high: u8) -> (r: i16)
    ensures
        r == fourteen_bits(low, high),
        0 <= r <= 16383,
{
    let lsb: u16 = low_bits(low) as u16;
    let msb: u16 = low_bits(high) as u16;
    assert((msb << 7) | lsb == msb * 128 + lsb) by (bit_vector)
        requires
            lsb < 128,
            msb < 128,
    ;
    let raw: u16 = (msb << 7) | lsb;
    raw as i16
}

impl MidiMessage {
    /// Reads a message from bytes, with the status byte first. There is none
    /// where there are no bytes; what is cut short or unknown is `Other`.
    pub fn parse(bytes: &[u8]) -> (r: Option<MidiMessage>)
        ensures
            r == message_of(bytes@),
    {
        if bytes.len() == 0 {
            return None;
        }
        let channel = channel_bits(bytes[0]);
        let kind = kind_bits(bytes[0]);
        let n: usize = bytes.len();
        Some(
            match kind {
                0x8 if n >= 3 => MidiMessage::NoteOff {
                    channel,
                    note: low_bits(bytes[1]),
                    velocity: low_bits(bytes[2]),
                },
                0x9 if n >= 3 => {
                    let velocity = low_bits(bytes[2]);
                    if velocity == 0 {
                        MidiMessage::NoteOff { channel, note: low_bits(bytes[1]), velocity: 0 }
                    } else {
                        MidiMessage::NoteOn { channel, note: low_bits(bytes[1]), velocity }
                    }
                },
                0xa if n >= 3 => MidiMessage::PolyAftertouch {
                    channel,
                    note: low_bits(bytes[1]),
                    value: low_bits(bytes[2]),
                },
                0xb if n >= 3 => MidiMessage::ControlChange {
                    channel,
                    cc: low_bits(bytes[1]),
                    value: low_bits(bytes[2]),
                },
                0xc if n >= 2 => MidiMessage::ProgramChange {
                    channel,
                    program: low_bits(bytes[1]),
                },
                0xd if n >= 2 => MidiMessage::ChannelPressure {
                    channel,
                    value: low_bits(bytes[1]),
                },
                0xe if n >= 3 => MidiMessage::PitchBend {
                    channel,
                    value: wheel_bits(bytes[1], bytes[2]) - 8192,
                },
                _ => MidiMessage::Other,
            },
        )
    }
}

// ---------------------------------------------------------------------------
// Writing
// ---------------------------------------------------------------------------

/// The pitch-wheel position that a value stands for, counted from the lowest.
pub open spec fn wheel_position(value: i16) -> int {
    if value + 8192 < 0 {
        0
    } else if value + 8192 > 16383 {
        16383
    } else {
        value + 8192
    }
}

/// The three bytes of a message. Notes and `Other` have none: notes are handed
/// on as events of their own.
pub open spec fn bytes_of(msg: MidiMessage) -> Option<(u8, u8, u8)> {
    match msg {
        MidiMessage::ControlChange { channel, cc, value } => Some(
            ((0xb0 + channel % 16) as u8, data_bits(cc), data_bits(value)),
        ),
        MidiMessage::PitchBend { channel, value } => Some(
            (
                (0xe0 + channel % 16) as u8,
                (wheel_position(value) % 128) as u8,
                (wheel_position(value) / 128) as u8,
            ),
        ),
        MidiMessage::ChannelPressure { channel, value } => Some(
            ((0xd0 + channel % 16) as u8, data_bits(value), 0),
        ),
        MidiMessage::PolyAftertouch { channel, note, value } => Some(
            ((0xa0 + channel % 16) as u8, data_bits(note), data_bits(value)),
        ),
        MidiMessage::ProgramChange { channel, program } => Some(
            ((0xc0 + channel % 16) as u8, data_bits(program), 0),
        ),
        _ => None,
    }
}

/// The three bytes of a message that is no note.
pub fn midi_message_to_bytes(msg: MidiMessage) -> (r: Option<[u8; 3]>)
    ensures
        (match r {
            Some(b) => bytes_of(msg) == Some((b@[0], b@[1], b@[2])),
            None => bytes_of(msg) is None,
        }),
{
    match msg {
        MidiMessage::ControlChange { channel, cc, value } => Some(
            [0xb0 + channel_bits(channel), low_bits(cc), low_bits(value)],
        ),
        MidiMessage::PitchBend { channel, value } => {
            let shifted: i32 = value as i32 + 8192;
            let raw: i32 = if shifted < 0 {
                0
            } else if shifted > 16383 {
                16383
            } else {
                shifted
            };
            Some([0xe0 + channel_bits(channel), (raw % 128) as u8, (raw / 128) as u8])
        },
        MidiMessage::ChannelPressure { channel, value } => Some(
            [0xd0 + channel_bits(channel), low_bits(value), 0],
        ),
        MidiMessage::PolyAftertouch { channel, note, value } => Some(
            [0xa0 + channel_bits(channel), low_bits(note), low_bits(value)],
        ),
        MidiMessage::ProgramChange { channel, program } => Some(
            [0xc0 + channel_bits(channel), low_bits(program), 0],
        ),
        _ => None,
    }
}

/// An event for a CLAP plugin.
#[derive(Debug, Clone, Copy, PartialEq, Eq, Structural)]
pub enum ClapEvent {
    /// A note starts. The velocity is in 127ths.
    NoteOn { port: u16, channel: u16, key: u16, note_id: u32, velocity: u8 },
    /// A note ends. The velocity is in 127ths.
    NoteOff { port: u16, channel: u16, key: u16, note_id: u32, velocity: u8 },
    /// A plain MIDI message.
    Midi { port: u16, status: u8, data1: u8, data2: u8 },
}

/// The event that a message becomes: notes in the plugin's own form, the rest
/// as plain MIDI. `Other` becomes none.
pub open spec fn clap_event_of(msg: MidiMessage) -> Option<ClapEvent> {
    match msg {
        MidiMessage::NoteOn { channel, note, velocity } => Some(
            ClapEvent::NoteOn {
                port: 0,
                channel: channel as u16,
                key: note as u16,
                note_id: u32::MAX,
                velocity,
            },
        ),
        MidiMessage::NoteOff { channel, note, velocity } => Some(
            ClapEvent::NoteOff {
                port: 0,
                channel: channel as u16,
                key: note as u16,
                note_id: u32::MAX,
                velocity,
            },
        ),
        _ => match bytes_of(msg) {
            Some((status, data1, data2)) => Some(
                ClapEvent::Midi { port: 0, status, data1, data2 },
            ),
            None => None,
        },
    }
}

/// Adds the event that a message becomes, where it becomes one.
pub fn push_midi_as_clap_events(buf: &mut Vec<ClapEvent>, msg: MidiMessage)
    ensures
        final(buf)@ == (match clap_event_of(msg) {
            Some(event) => old(buf)@.push(event),
            None => old(buf)@,
        }),
{
    match msg {
        MidiMessage::NoteOn { channel, note, velocity } => buf.push(
            ClapEvent::NoteOn {
                port: 0,
                channel: channel as u16,
                key: note as u16,
                note_id: u32::MAX,
                velocity,
            },
        ),
        MidiMessage::NoteOff { channel, note, velocity } => buf.push(
            ClapEvent::NoteOff {
                port: 0,
                channel: channel as u16,
                key: note as u16,
                note_id: u32::MAX,
                velocity,
            },
        ),
        other => {
            if let Some(b) = midi_message_to_bytes(other) {
                buf.push(ClapEvent::Midi { port: 0, status: b[0], data1: b[1], data2: b[2] });
            }
        },
    }
}

// ---------------------------------------------------------------------------
// Laws
// ---------------------------------------------------------------------------

/// Whether the fields of a message are in their ranges.
pub open spec fn message_in_range(msg: MidiMessage) -> bool {
    match msg {
        MidiMessage::NoteOn { channel, note, velocity } => channel < 16 && note < 128 && 1
            <= velocity < 128,
        MidiMessage::NoteOff { channel, note, velocity } => channel < 16 && note < 128 && velocity
            < 128,
        MidiMessage::ControlChange { channel, cc, value } => channel < 16 && cc < 128 && value
            < 128,
        MidiMessage::PitchBend { channel, value } => channel < 16 && -8192 <= value <= 8191,
        MidiMessage::ChannelPressure { channel, value } => channel < 16 && value < 128,
        MidiMessage::PolyAftertouch { channel, note, value } => channel < 16 && note < 128 && value
            < 128,
        MidiMessage::ProgramChange { channel, program } => channel < 16 && program < 128,
        MidiMessage::Other => true,
    }
}

/// Whatever the bytes, the fields of the message that is read are in their
/// ranges. In particular no note-on has velocity 0.
pub proof fn law_parsed_message_is_in_range(bytes: Seq<u8>)
    requires
        bytes.len() > 0,
    ensures
        message_of(bytes) matches Some(msg) && message_in_range(msg),
{
}

/// Reading the bytes of a message gives the message back.
pub proof fn law_written_message_is_read_back(msg: MidiMessage)
    requires
        message_in_range(msg),
        bytes_of(msg) is Some,
    ensures
        ({
            let (status, data1, data2) = bytes_of(msg)->0;
            message_of(seq![status, data1, data2]) == Some(msg)
        }),
{
}

/// What each kind of message is made of: the status byte gives the kind and the
/// channel, the data bytes follow in the order in which the message names them. A
/// note that starts with velocity 0 ends. The wheel is centred at 8192, its lower
/// seven bits come first.
pub proof fn law_bytes_make_up_their_message(status: u8, data1: u8, data2: u8, more: Seq<u8>)
    requires
        data1 <= 127,
        data2 <= 127,
    ensures
        ({
            let msg = message_of(seq![status, data1, data2] + more);
            &&& 0x80 <= status <= 0x8f ==> msg == Some(
                MidiMessage::NoteOff {
                    channel: (status - 0x80) as u8,
                    note: data1,
                    velocity: data2,
                },
            )
            &&& 0x90 <= status <= 0x9f && data2 > 0 ==> msg == Some(
                MidiMessage::NoteOn {
                    channel: (status - 0x90) as u8,
                    note: data1,
                    velocity: data2,
                },
            )
            &&& 0x90 <= status <= 0x9f && data2 == 0 ==> msg == Some(
                MidiMessage::NoteOff { channel: (status - 0x90) as u8, note: data1, velocity: 0 },
            )
            &&& 0xa0 <= status <= 0xaf ==> msg == Some(
                MidiMessage::PolyAftertouch {
                    channel: (status - 0xa0) as u8,
                    note: data1,
                    value: data2,
                },
            )
            &&& 0xb0 <= status <= 0xbf ==> msg == Some(
                MidiMessage::ControlChange {
                    channel: (status - 0xb0) as u8,
                    cc: data1,
                    value: data2,
                },
            )
            &&& 0xc0 <= status <= 0xcf ==> msg == Some(
                MidiMessage::ProgramChange { channel: (status - 0xc0) as u8, program: data1 },
            )
            &&& 0xd0 <= status <= 0xdf ==> msg == Some(
                MidiMessage::ChannelPressure { channel: (status - 0xd0) as u8, value: data1 },
            )
            &&& 0xe0 <= status <= 0xef ==> msg == Some(
                MidiMessage::PitchBend {
                    channel: (status - 0xe0) as u8,
                    value: (data1 + 128 * data2 - 8192) as i16,
                },
            )
            &&& status < 0x80 || status > 0xef ==> msg == Some(MidiMessage::Other)
        }),
{
    let bytes = seq![status, data1, data2] + more;
    assert(bytes[0] == status && bytes[1] == data1 && bytes[2] == data2);
}

/// Programs and channel pressure have one data byte, the other messages two. A
/// message that is cut short is none of them, and no bytes are no message.
pub proof fn law_short_messages_are_not_read(status: u8, data: u8)
    requires
        data <= 127,
    ensures
        message_of(seq![]) is None,
        message_of(seq![status]) == Some(MidiMessage::Other),
        0xc0 <= status <= 0xcf ==> message_of(seq![status, data]) == Some(
            MidiMessage::ProgramChange { channel: (status - 0xc0) as u8, program: data },
        ),
        0xd0 <= status <= 0xdf ==> message_of(seq![status, data]) == Some(
            MidiMessage::ChannelPressure { channel: (status - 0xd0) as u8, value: data },
        ),
        status < 0xc0 || status > 0xdf ==> message_of(seq![status, data]) == Some(
            MidiMessage::Other,
        ),
{
}

/// The eighth bit of a data byte counts for nothing.
pub proof fn law_data_bytes_have_seven_bits(status: u8, data1: u8, data2: u8)
    requires
        data1 <= 127,
        data2 <= 127,
    ensures
        message_of(seq![status, (data1 + 128) as u8, (data2 + 128) as u8]) == message_of(
            seq![status, data1, data2],
        ),
{
}

/// Which messages have bytes: all but notes, which are handed on in another form,
/// and what is unknown. The wheel stops at its ends.
pub proof fn law_all_but_notes_have_bytes(msg: MidiMessage, channel: u8, beyond: i16)
    ensures
        bytes_of(msg) is None <==> (msg is NoteOn || msg is NoteOff || msg is Other),
        beyond > 8191 ==> bytes_of(MidiMessage::PitchBend { channel, value: beyond }) == bytes_of(
            MidiMessage::PitchBend { channel, value: 8191 },
        ),
        beyond < -8192 ==> bytes_of(MidiMessage::PitchBend { channel, value: beyond })
            == bytes_of(MidiMessage::PitchBend { channel, value: (-8192) as i16 }),
{
}

/// A plugin gets a note with its own channel, key and velocity on the first port,
/// and every other message as the bytes that are read as that message.
pub proof fn law_plugin_gets_the_message(msg: MidiMessage)
    requires
        message_in_range(msg),
    ensures
        (match clap_event_of(msg) {
            Some(ClapEvent::NoteOn { port, channel, key, note_id, velocity }) => {
                &&& msg matches MidiMessage::NoteOn { channel: c, note: n, velocity: v }
                &&& channel == c && key == n && velocity == v && port == 0
                &&& note_id == u32::MAX
            },
            Some(ClapEvent::NoteOff { port, channel, key, note_id, velocity }) => {
                &&& msg matches MidiMessage::NoteOff { channel: c, note: n, velocity: v }
                &&& channel == c && key == n && velocity == v && port == 0
                &&& note_id == u32::MAX
            },
            Some(ClapEvent::Midi { port, status, data1, data2 }) => {
                &&& port == 0
                &&& message_of(seq![status, data1, data2]) == Some(msg)
            },
            None => msg == MidiMessage::Other,
        }),
{
    if bytes_of(msg) is Some {
        law_written_message_is_read_back(msg);
    }
}

/// Ports are listed in their order, each under its name; one whose name cannot be
/// read is listed too.
pub proof fn law_ports_keep_their_names(
    names: Seq<Option<String>>,
    inputs: Seq<MidiInputInfo>,
    i: int,
)
    requires
        input_views(inputs) == names.map_values(|n: Option<String>| shown_name(n)),
        0 <= i < names.len(),
    ensures
        inputs.len() == names.len(),
        names[i] matches Some(n) ==> inputs[i].name@ == n@,
        names[i] is None ==> inputs[i].name@.len() > 0,
{
    let shown = input_views(inputs);
    assert(shown.len() == inputs.len());
    assert(shown[i] == inputs[i].name@);
    assert(shown[i] == shown_name(names[i]));
    reveal_strlit("<unknown>");
}

} // verus!
