//! Envelopes and the voices of the tone generator.

use stardust::dsp::envelope::{EnvState, Envelope};
use stardust::dsp::synth::Synth;
use stardust::midi::message::MidiMessage;

fn new_synth() -> Synth {
    Synth::new(8)
}

#[test]
fn new_creates_polyphony_voices() {
    let s = new_synth();
    assert_eq!(s.voices.len(), 8);
    assert_eq!(s.active_voice_count(), 0);
}

#[test]
fn note_on_activates_one_voice() {
    let mut s = new_synth();
    s.note_on(60, 100);
    assert_eq!(s.active_voice_count(), 1);
}

#[test]
fn note_off_starts_release() {
    let mut s = new_synth();
    let i = s.note_on(60, 100);
    // The attack comes to its end, and the decay goes on.
    s.tick(i, true);
    s.tick(i, false);
    assert!(s.voices.iter().any(|v| v.env.is_active()));

    s.note_off(60);
    assert!(s.voices.iter().any(|v| v.env.state() == EnvState::Released));
}

#[test]
fn all_notes_off_silences_immediately() {
    let mut s = new_synth();
    s.note_on(60, 100);
    s.note_on(64, 100);
    s.note_on(67, 100);
    assert_eq!(s.active_voice_count(), 3);
    s.all_notes_off();
    assert_eq!(s.active_voice_count(), 0);
}

#[test]
fn polyphony_cap_steals_voice() {
    let mut s = Synth::new(2);
    s.note_on(60, 100);
    s.note_on(62, 100);
    assert_eq!(s.active_voice_count(), 2);
    s.note_on(64, 100); // pool full — must steal
    assert_eq!(s.active_voice_count(), 2);
    // The newest note (64) must be present.
    assert!(s.voices.iter().any(|v| v.note == Some(64)));
}

#[test]
fn process_midi_dispatches_note_on_off() {
    let mut s = new_synth();
    s.process_midi(MidiMessage::NoteOn {
        channel: 0,
        note: 60,
        velocity: 100,
    });
    assert_eq!(s.active_voice_count(), 1);
    s.process_midi(MidiMessage::NoteOff {
        channel: 0,
        note: 60,
        velocity: 0,
    });
    assert!(s.voices.iter().any(|v| v.env.state() == EnvState::Released));
}

#[test]
fn process_midi_ignores_cc_and_pitch_bend() {
    let mut s = new_synth();
    s.process_midi(MidiMessage::ControlChange {
        channel: 0,
        cc: 1,
        value: 64,
    });
    s.process_midi(MidiMessage::PitchBend {
        channel: 0,
        value: 1000,
    });
    assert_eq!(s.active_voice_count(), 0);
}

#[test]
fn a_released_voice_is_taken_before_the_oldest() {
    let mut s = Synth::new(3);
    assert_eq!(s.note_on(60, 1), 0);
    assert_eq!(s.note_on(61, 1), 1);
    assert_eq!(s.note_on(62, 1), 2);
    s.note_off(61);
    assert_eq!(s.note_on(63, 1), 1);
    assert_eq!(s.note_on(64, 1), 0);
    s.note_off(62);
    s.tick(2, true);
    assert_eq!(s.active_voice_count(), 2);
    assert_eq!(s.note_on(65, 1), 2);
    assert_eq!(s.voices[2].velocity, 1);
}

#[test]
fn an_envelope_runs_its_course() {
    let mut e = Envelope::new();
    assert!(!e.is_active());
    assert!(!e.release());
    e.tick(true);
    assert_eq!(e.state(), EnvState::Idle);
    e.trigger();
    e.tick(false);
    assert_eq!(e.state(), EnvState::Attack);
    e.tick(true);
    assert_eq!(e.state(), EnvState::Decay);
    e.tick(true);
    assert_eq!(e.state(), EnvState::Sustain);
    e.tick(true);
    assert_eq!(e.state(), EnvState::Sustain);
    assert!(e.release());
    assert!(!e.release());
    assert_eq!(e.state(), EnvState::Released);
    e.trigger();
    assert_eq!(e.state(), EnvState::Attack);
    assert!(e.release());
    e.tick(true);
    assert_eq!(e.state(), EnvState::Idle);
    e.trigger();
    e.reset();
    assert!(!e.is_active());
}
