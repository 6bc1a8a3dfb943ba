//! MIDI messages: reading, writing, handing on, showing.

use stardust::midi::listing::{choose_index, event_line, note_name, Choice};
use stardust::midi::message::{
    list_inputs, midi_message_to_bytes, push_midi_as_clap_events, ClapEvent, MidiMessage,
};
use stardust::sfz::values::parse_note;

#[test]
fn parses_note_on() {
    let bytes = [0x90, 60, 100];
    assert_eq!(
        MidiMessage::parse(&bytes),
        Some(MidiMessage::NoteOn {
            channel: 0,
            note: 60,
            velocity: 100
        })
    );
}

#[test]
fn note_on_velocity_zero_is_note_off() {
    let bytes = [0x91, 60, 0];
    assert_eq!(
        MidiMessage::parse(&bytes),
        Some(MidiMessage::NoteOff {
            channel: 1,
            note: 60,
            velocity: 0
        })
    );
}

#[test]
fn parses_cc() {
    let bytes = [0xB3, 64, 127];
    assert_eq!(
        MidiMessage::parse(&bytes),
        Some(MidiMessage::ControlChange {
            channel: 3,
            cc: 64,
            value: 127
        })
    );
}

#[test]
fn parses_pitch_bend_center() {
    let bytes = [0xE0, 0, 64]; // raw 8192 = center
    assert_eq!(
        MidiMessage::parse(&bytes),
        Some(MidiMessage::PitchBend {
            channel: 0,
            value: 0
        })
    );
}

#[test]
fn parses_pitch_bend_extremes() {
    assert_eq!(
        MidiMessage::parse(&[0xE0, 127, 127]),
        Some(MidiMessage::PitchBend {
            channel: 0,
            value: 8191
        })
    );
    assert_eq!(
        MidiMessage::parse(&[0xE0, 0, 0]),
        Some(MidiMessage::PitchBend {
            channel: 0,
            value: -8192
        })
    );
}

#[test]
fn empty_slice_is_none() {
    assert_eq!(MidiMessage::parse(&[]), None);
}

#[test]
fn truncated_channel_voice_is_other() {
    assert_eq!(MidiMessage::parse(&[0x90, 60]), Some(MidiMessage::Other));
}

#[test]
fn parses_the_other_kinds() {
    assert_eq!(
        MidiMessage::parse(&[0x8F, 0xBC, 0x81]),
        Some(MidiMessage::NoteOff { channel: 15, note: 60, velocity: 1 })
    );
    assert_eq!(
        MidiMessage::parse(&[0xA2, 61, 9]),
        Some(MidiMessage::PolyAftertouch { channel: 2, note: 61, value: 9 })
    );
    assert_eq!(
        MidiMessage::parse(&[0xC4, 7]),
        Some(MidiMessage::ProgramChange { channel: 4, program: 7 })
    );
    assert_eq!(
        MidiMessage::parse(&[0xD5, 8]),
        Some(MidiMessage::ChannelPressure { channel: 5, value: 8 })
    );
    assert_eq!(MidiMessage::parse(&[0xF8]), Some(MidiMessage::Other));
    assert_eq!(MidiMessage::parse(&[0x3C, 1, 2]), Some(MidiMessage::Other));
}

#[test]
fn written_messages_are_read_back() {
    let messages = [
        MidiMessage::ControlChange { channel: 3, cc: 64, value: 127 },
        MidiMessage::PitchBend { channel: 0, value: -8192 },
        MidiMessage::PitchBend { channel: 9, value: 1000 },
        MidiMessage::PitchBend { channel: 9, value: 8191 },
        MidiMessage::ChannelPressure { channel: 1, value: 5 },
        MidiMessage::PolyAftertouch { channel: 15, note: 60, value: 3 },
        MidiMessage::ProgramChange { channel: 2, program: 99 },
    ];
    for msg in messages {
        let bytes = midi_message_to_bytes(msg).expect("has bytes");
        assert_eq!(MidiMessage::parse(&bytes), Some(msg));
    }
    assert_eq!(
        midi_message_to_bytes(MidiMessage::ControlChange { channel: 3, cc: 64, value: 127 }),
        Some([0xB3, 64, 127])
    );
    assert_eq!(
        midi_message_to_bytes(MidiMessage::PitchBend { channel: 0, value: 32000 }),
        Some([0xE0, 127, 127])
    );
    assert_eq!(midi_message_to_bytes(MidiMessage::Other), None);
    assert_eq!(
        midi_message_to_bytes(MidiMessage::NoteOn { channel: 0, note: 1, velocity: 2 }),
        None
    );
}

#[test]
fn notes_become_plugin_notes_and_the_rest_plain_midi() {
    let mut events = Vec::new();
    push_midi_as_clap_events(
        &mut events,
        MidiMessage::NoteOn { channel: 2, note: 60, velocity: 100 },
    );
    push_midi_as_clap_events(
        &mut events,
        MidiMessage::NoteOff { channel: 2, note: 60, velocity: 0 },
    );
    push_midi_as_clap_events(
        &mut events,
        MidiMessage::ControlChange { channel: 0, cc: 64, value: 127 },
    );
    push_midi_as_clap_events(&mut events, MidiMessage::Other);
    assert_eq!(
        events,
        vec![
            ClapEvent::NoteOn { port: 0, channel: 2, key: 60, note_id: u32::MAX, velocity: 100 },
            ClapEvent::NoteOff { port: 0, channel: 2, key: 60, note_id: u32::MAX, velocity: 0 },
            ClapEvent::Midi { port: 0, status: 0xB0, data1: 64, data2: 127 },
        ]
    );
}

#[test]
fn unreadable_port_names_are_shown_as_unknown() {
    let inputs = list_inputs(vec![Some("Keys".to_string()), None]);
    assert_eq!(inputs.len(), 2);
    assert_eq!(inputs[0].name, "Keys");
    assert_eq!(inputs[1].name, "<unknown>");
}

#[test]
fn event_lines_are_in_columns() {
    assert_eq!(
        event_line(MidiMessage::NoteOn { channel: 0, note: 60, velocity: 100 }),
        Some("  note on   ch  1  note  60 (C4)  vel 100".to_string())
    );
    assert_eq!(
        event_line(MidiMessage::NoteOff { channel: 15, note: 127, velocity: 0 }),
        Some("  note off  ch 16  note 127 (G9)  vel   0".to_string())
    );
    assert_eq!(
        event_line(MidiMessage::ControlChange { channel: 3, cc: 64, value: 127 }),
        Some("  cc        ch  4  cc    64        val 127".to_string())
    );
    assert_eq!(
        event_line(MidiMessage::PitchBend { channel: 0, value: -8192 }),
        Some("  pitch     ch  1                   val  -8192".to_string())
    );
    assert_eq!(
        event_line(MidiMessage::ChannelPressure { channel: 0, value: 5 }),
        Some("  ch press  ch  1                   val   5".to_string())
    );
    assert_eq!(
        event_line(MidiMessage::PolyAftertouch { channel: 0, note: 61, value: 5 }),
        Some("  poly at   ch  1  note  61 (C#4)  val   5".to_string())
    );
    assert_eq!(
        event_line(MidiMessage::ProgramChange { channel: 0, program: 12 }),
        Some("  prog      ch  1                   prog  12".to_string())
    );
    assert_eq!(event_line(MidiMessage::Other), None);
}

#[test]
fn note_names_are_read_back() {
    assert_eq!(note_name(60), "C4");
    assert_eq!(note_name(0), "C-1");
    assert_eq!(note_name(70), "A#4");
    for midi in 0..=127u8 {
        assert_eq!(parse_note(&note_name(midi)), Some(midi));
    }
    assert_eq!(note_name(255), "D#20");
}

#[test]
fn a_typed_number_chooses_an_item() {
    assert_eq!(choose_index("\n", 3), Choice::Index(0));
    assert_eq!(choose_index(" 2 \n", 3), Choice::Index(2));
    assert_eq!(choose_index("+1", 3), Choice::Index(1));
    assert_eq!(choose_index("x", 3), Choice::Index(0));
    assert_eq!(choose_index("-1", 3), Choice::Index(0));
    assert_eq!(choose_index("3", 3), Choice::OutOfRange);
    assert_eq!(choose_index("99999999999999999999999", 3), Choice::Index(0));
}
