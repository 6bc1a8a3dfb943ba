//! Loading instruments and playing them.

use std::cell::RefCell;
use std::sync::Arc;

use stardust::dsp::envelope::EnvState;
use stardust::sfz::engine::{loop_bounds, Engine, FrameStep, LoopBounds, POLYPHONY};
use stardust::sfz::file::{LoopMode, Region, SfzFile};
use stardust::sfz::instrument::{
    build_instrument, build_load_report, build_load_report_with_progress, load_sfz,
    load_sfz_with_limits, load_sfz_with_progress, Decoded, Instrument, InstrumentRegion,
    LoadLimits, LoadProgress,
};
use stardust::sfz::processor::{
    channel_side, decode_event, deinterleave, open_block, Block, Command, Output, OutputFault,
    PluginEvent, Segment,
};

// ---------------------------------------------------------------------------
// Loading
// ---------------------------------------------------------------------------

fn missing(path: String) -> Result<Decoded<String>, String> {
    Err(format!("no file {path}"))
}

fn of_size(numbers: usize) -> impl Fn(String) -> Result<Decoded<String>, String> {
    move |path| Ok(Decoded { sample: path, numbers })
}

#[test]
fn missing_sample_files_collect_as_errors() {
    let sfz = SfzFile::parse(
        "
        <region> sample=does_not_exist.wav pitch_keycenter=60
        <region> sample=also_missing.wav pitch_keycenter=72
        ",
        "/tmp/nope",
    );
    let r = build_load_report(sfz, LoadLimits::default(), missing);
    assert_eq!(r.errors.len(), 2);
    assert_eq!(r.instrument.regions.len(), 0);
    assert_eq!(r.instrument.samples.len(), 0);
    assert_eq!(r.bytes_loaded, 0);
    assert_eq!(
        r.errors[0],
        (
            "/tmp/nope/does_not_exist.wav".to_string(),
            "no file /tmp/nope/does_not_exist.wav".to_string()
        )
    );
}

#[test]
fn ram_caps_are_tight_when_set_low() {
    let limits = LoadLimits { max_sample_bytes: 1, max_total_bytes: 1 };
    let sfz = SfzFile::parse("<region> sample=ghost.wav pitch_keycenter=60", "/tmp");
    let r = build_load_report(sfz, limits, of_size(1));
    assert_eq!(r.errors.len(), 1);
    assert_eq!(r.instrument.regions.len(), 0);
    assert_eq!(r.errors[0].1, "sample is 0 MiB; over max_sample_bytes cap of 0 MiB");
}

#[test]
fn the_total_is_capped() {
    let mib = 1024 * 1024;
    let limits = LoadLimits { max_sample_bytes: 4 * mib, max_total_bytes: 5 * mib };
    let sfz = SfzFile::parse(
        "<region> sample=a.wav <region> sample=b.wav <region> sample=a.wav <region> sample=c.wav",
        "",
    );
    let r = build_load_report(sfz, limits, |path: String| {
        let numbers = if path == "c.wav" { 2 * mib } else { mib / 2 + mib / 4 };
        Ok(Decoded { sample: path, numbers })
    });
    assert_eq!(r.instrument.samples, vec!["a.wav"]);
    assert_eq!(r.instrument.regions.len(), 2);
    assert_eq!(r.bytes_loaded, 3 * mib);
    assert_eq!(
        r.errors,
        vec![
            (
                "b.wav".to_string(),
                "would exceed max_total_bytes cap of 5 MiB (currently 3 MiB loaded, +3 MiB requested)"
                    .to_string()
            ),
            (
                "c.wav".to_string(),
                "sample is 8 MiB; over max_sample_bytes cap of 4 MiB".to_string()
            ),
        ]
    );
}

#[test]
fn each_sample_is_asked_for_once() {
    let sfz = SfzFile::parse(
        "<region> sample=a.wav <region> sample=b.wav <region> sample=./b.wav <region> sample=a.wav <region> sample=c.wav",
        "/i",
    );
    let seen: RefCell<Vec<LoadProgress>> = RefCell::new(vec![]);
    let r = build_load_report_with_progress(sfz, LoadLimits::default(), |p: LoadProgress| {
        seen.borrow_mut().push(p.clone());
        if p.path == "/i/b.wav" {
            Err("broken".to_string())
        } else {
            Ok(Decoded { sample: p.path, numbers: 10 })
        }
    });
    let told: Vec<(String, usize, usize, usize)> = seen
        .borrow()
        .iter()
        .map(|p| (p.path.clone(), p.index, p.total, p.bytes_loaded))
        .collect();
    assert_eq!(
        told,
        vec![
            ("/i/a.wav".to_string(), 1, 3, 0),
            ("/i/b.wav".to_string(), 2, 3, 40),
            ("/i/c.wav".to_string(), 3, 3, 40),
        ]
    );
    assert_eq!(r.errors.len(), 1);
    assert_eq!(r.instrument.samples, vec!["/i/a.wav", "/i/c.wav"]);
    let indices: Vec<usize> = r.instrument.regions.iter().map(|r| r.sample_index).collect();
    assert_eq!(indices, vec![0, 0, 1]);
    assert_eq!(r.bytes_loaded, 80);
}

#[test]
fn usual_limits() {
    let limits = LoadLimits::default();
    assert_eq!(limits.max_sample_bytes, 67108864);
    assert_eq!(limits.max_total_bytes, 536870912);
    let sfz = SfzFile::parse("<region> sample=a.wav", "");
    let instrument = build_instrument(sfz, of_size(16777216));
    assert_eq!(instrument.samples.len(), 1);
    let sfz = SfzFile::parse("<region> sample=a.wav", "");
    let instrument = build_instrument(sfz, of_size(16777217));
    assert_eq!(instrument.samples.len(), 0);
}

#[test]
fn samples_are_taken_from_the_directory_of_the_file() {
    let sfz = "<region> sample=a.wav";
    let sample = |path: &str| load_sfz(path, sfz, of_size(1)).instrument.samples[0].clone();
    assert_eq!(sample("/lib/piano.sfz"), "/lib/a.wav");
    assert_eq!(sample("/piano.sfz"), "/a.wav");
    assert_eq!(sample("x/y/piano.sfz"), "x/y/a.wav");
    assert_eq!(sample("piano.sfz"), "a.wav");
    assert_eq!(sample("./piano.sfz"), "./a.wav");
    let limits = LoadLimits { max_sample_bytes: 4, max_total_bytes: 4 };
    let two = "<region> sample=a.wav <region> sample=b.wav";
    let r = load_sfz_with_limits("d/p.sfz", two, limits, of_size(1));
    assert_eq!(r.instrument.samples, vec!["d/a.wav"]);
    assert_eq!(r.errors[0].0, "d/b.wav");
    let seen: RefCell<Vec<String>> = RefCell::new(vec![]);
    load_sfz_with_progress("d/p.sfz", two, limits, |p: LoadProgress| {
        seen.borrow_mut().push(p.path.clone());
        Ok(Decoded { sample: p.path, numbers: 1 })
    });
    assert_eq!(*seen.borrow(), vec!["d/a.wav", "d/b.wav"]);
}

// ---------------------------------------------------------------------------
// Playing
// ---------------------------------------------------------------------------

fn region(lokey: u8, hikey: u8, loop_mode: LoopMode) -> InstrumentRegion {
    InstrumentRegion {
        region: Region {
            sample: "ramp".to_string(),
            lokey,
            hikey,
            pitch_keycenter: 60,
            loop_mode,
            ..Region::default()
        },
        sample_index: 0,
    }
}

fn engine_with(regions: Vec<InstrumentRegion>) -> Engine<()> {
    Engine::new(Arc::new(Instrument { regions, samples: vec![()] }))
}

fn engine_with_one_region() -> Engine<()> {
    engine_with(vec![region(60, 60, LoopMode::NoLoop)])
}

/// Plays `frames` frames of every voice through a sample of 4800 frames, with
/// segments that last `segment` frames.
fn play(e: &mut Engine<()>, frames: usize, segment: usize) {
    let total = 4_800;
    let mut positions = vec![0usize; POLYPHONY];
    for f in 0..frames {
        for i in 0..POLYPHONY {
            match e.begin_frame(i, positions[i], total) {
                FrameStep::Silent => continue,
                FrameStep::Play => {}
                FrameStep::PlayFromLoop(b) => positions[i] = b.start as usize,
            }
            let bounds = e.end_frame(i, (f + 1) % segment == 0, total);
            positions[i] += 1;
            if let Some(b) = bounds {
                if positions[i] as u64 >= b.end {
                    positions[i] = b.start as usize;
                }
            }
        }
    }
}

#[test]
fn note_on_off_lifecycle() {
    let mut e = engine_with_one_region();
    assert_eq!(e.active_voice_count(), 0);
    e.note_on(0, 60, 100);
    assert_eq!(e.active_voice_count(), 1);
    e.note_off(0, 60);
    // Play past the release tail.
    play(&mut e, 24_000, 1_000);
    assert_eq!(e.active_voice_count(), 0);
    assert!(e.is_idle());
}

#[test]
fn sustain_pedal_defers_note_off() {
    let mut e = engine_with_one_region();
    e.note_on(0, 60, 100);
    e.control_change(0, 64, 127); // pedal down
    e.note_off(0, 60);
    // With pedal held the voice should still be active.
    play(&mut e, 200, 1_000);
    assert_eq!(e.active_voice_count(), 1);
    assert!(e.voices[0].sustaining);
    assert_ne!(e.voices[0].env.state(), EnvState::Released);
    // Release the pedal — voice should now release and die out.
    e.control_change(0, 64, 0);
    assert_eq!(e.voices[0].env.state(), EnvState::Released);
    play(&mut e, 48_000, 1_000);
    assert_eq!(e.active_voice_count(), 0);
}

#[test]
fn all_notes_off_via_cc_123() {
    let mut e = engine_with_one_region();
    e.note_on(0, 60, 100);
    e.control_change(0, 123, 0);
    assert_eq!(e.active_voice_count(), 0);
}

#[test]
fn note_outside_region_range_is_silent() {
    let mut e = engine_with_one_region();
    assert_eq!(e.note_on(0, 72, 100), None);
    assert_eq!(e.active_voice_count(), 0);
}

#[test]
fn loop_continuous_keeps_voice_alive_past_sample_end() {
    let mut e = engine_with(vec![region(60, 60, LoopMode::LoopContinuous)]);
    e.note_on(0, 60, 100);
    // The sample has 4800 frames; without looping the voice would die long
    // before these.
    play(&mut e, 20_000, 1_000_000);
    assert!(e.active_voice_count() > 0);
    // Once released it plays to the end of the sample and stops.
    e.note_off(0, 60);
    play(&mut e, 4_801, 1_000_000);
    assert_eq!(e.active_voice_count(), 0);
}

#[test]
fn a_sample_that_is_not_looped_ends() {
    let mut e = engine_with_one_region();
    e.note_on(0, 60, 100);
    play(&mut e, 4_799, 1_000_000);
    assert_eq!(e.active_voice_count(), 1);
    play(&mut e, 4_801, 1_000_000);
    assert_eq!(e.active_voice_count(), 0);
    assert_eq!(e.voices[0].region_index, None);
}

#[test]
fn the_last_matching_region_plays() {
    let mut e = engine_with(vec![
        region(0, 127, LoopMode::NoLoop),
        region(60, 72, LoopMode::NoLoop),
        region(70, 80, LoopMode::NoLoop),
    ]);
    e.note_on(0, 65, 100);
    assert_eq!(e.voices[0].region_index, Some(1));
    e.note_on(0, 71, 100);
    assert_eq!(e.voices[1].region_index, Some(2));
    e.note_on(0, 10, 100);
    assert_eq!(e.voices[2].region_index, Some(0));
}

#[test]
fn voices_are_taken_in_turn() {
    let mut e = engine_with(vec![region(0, 127, LoopMode::NoLoop)]);
    for key in 0..POLYPHONY as u8 {
        assert_eq!(e.note_on(0, key, 1), Some(key as usize));
    }
    assert_eq!(e.active_voice_count(), POLYPHONY);
    // All sound: the oldest goes.
    assert_eq!(e.note_on(0, 100, 1), Some(0));
    // A released one goes first.
    e.note_off(0, 7);
    assert_eq!(e.note_on(0, 101, 1), Some(7));
    assert_eq!(e.active_voice_count(), POLYPHONY);
    // Another channel is another note.
    e.note_off(1, 8);
    assert_eq!(e.voices[8].env.state(), EnvState::Attack);
}

#[test]
fn bends_stay_in_range_and_instruments_are_replaced() {
    let mut e = engine_with_one_region();
    e.pitch_bend(0, 0);
    assert_eq!(e.bend, -8192);
    e.pitch_bend(0, 8192);
    assert_eq!(e.bend, 0);
    e.pitch_bend(0, 16383);
    assert_eq!(e.bend, 8191);
    e.pitch_bend(0, i16::MIN);
    assert_eq!(e.bend, -8192);
    e.pitch_bend(0, i16::MAX);
    assert_eq!(e.bend, 8191);
    e.note_on(0, 60, 100);
    e.control_change(0, 64, 64);
    assert!(e.sustain_pedal);
    e.replace_instrument(Arc::new(Instrument { regions: vec![], samples: vec![] }));
    assert!(e.is_idle());
    assert!(!e.sustain_pedal);
    assert_eq!(e.note_on(0, 60, 100), None);
}

#[test]
fn loops_lie_within_the_sample() {
    let bounds = |loop_start: u64, loop_end: u64, frames: usize| {
        let mut r = region(0, 127, LoopMode::LoopContinuous);
        r.region.loop_start = loop_start;
        r.region.loop_end = loop_end;
        loop_bounds(&r, frames)
    };
    assert_eq!(bounds(0, 0, 100), LoopBounds { start: 0, end: 100 });
    assert_eq!(bounds(10, 50, 100), LoopBounds { start: 10, end: 50 });
    assert_eq!(bounds(70, 50, 100), LoopBounds { start: 49, end: 50 });
    assert_eq!(bounds(10, 500, 100), LoopBounds { start: 10, end: 100 });
    assert_eq!(bounds(5, 0, 0), LoopBounds { start: 0, end: 1 });
}

// ---------------------------------------------------------------------------
// The plugin around the player
// ---------------------------------------------------------------------------

#[test]
fn events_become_commands() {
    let on = |port, channel, key, velocity| PluginEvent::NoteOn { port, channel, key, velocity };
    assert_eq!(
        decode_event(on(Some(0), Some(1), Some(60), 0)),
        Command::NoteOn { channel: 1, key: 60, velocity: 1 }
    );
    assert_eq!(
        decode_event(on(None, Some(1), Some(60), 90)),
        Command::NoteOn { channel: 1, key: 60, velocity: 90 }
    );
    assert_eq!(decode_event(on(Some(1), Some(1), Some(60), 90)), Command::Nothing);
    assert_eq!(decode_event(on(Some(0), None, Some(60), 90)), Command::Nothing);
    assert_eq!(decode_event(on(Some(0), Some(1), None, 90)), Command::Nothing);
    assert_eq!(
        decode_event(PluginEvent::NoteOff { port: None, channel: Some(2), key: Some(61) }),
        Command::NoteOff { channel: 2, key: 61 }
    );
    assert_eq!(
        decode_event(PluginEvent::NoteOff { port: Some(3), channel: Some(2), key: Some(61) }),
        Command::Nothing
    );
    assert_eq!(
        decode_event(PluginEvent::Midi { status: 0xB2, data1: 64, data2: 255 }),
        Command::ControlChange { channel: 2, cc: 64, value: 127 }
    );
    assert_eq!(
        decode_event(PluginEvent::Midi { status: 0xE0, data1: 0, data2: 64 }),
        Command::PitchBend { channel: 0, value: 8192 }
    );
    assert_eq!(
        decode_event(PluginEvent::Midi { status: 0x90, data1: 60, data2: 64 }),
        Command::Nothing
    );
    assert_eq!(decode_event(PluginEvent::Other), Command::Nothing);
}

#[test]
fn events_reach_the_player() {
    let mut e = engine_with_one_region();
    let on = PluginEvent::NoteOn { port: Some(0), channel: Some(0), key: Some(60), velocity: 9 };
    assert_eq!(e.handle_event(on), Some(0));
    assert_eq!(e.voices[0].velocity, 9);
    e.handle_event(PluginEvent::NoteOff { port: Some(0), channel: Some(0), key: Some(60) });
    assert_eq!(e.voices[0].env.state(), EnvState::Released);
    e.handle_event(PluginEvent::Midi { status: 0xE0, data1: 127, data2: 127 });
    assert_eq!(e.bend, 8191);
    e.handle_event(PluginEvent::Midi { status: 0xB0, data1: 123, data2: 0 });
    assert!(e.is_idle());
    assert_eq!(e.handle_event(PluginEvent::Other), None);
}

#[test]
fn a_block_is_rendered_in_stretches() {
    let mut b = Block::new(100);
    assert_eq!(b.after_batch(Some(10)), Some(Segment { start: 0, end: 10 }));
    assert_eq!(b.after_batch(Some(10)), None);
    assert_eq!(b.after_batch(Some(5)), None);
    assert_eq!(b.after_batch(Some(500)), Some(Segment { start: 10, end: 100 }));
    assert_eq!(b.rest(), None);
    let mut b = Block::new(100);
    assert_eq!(b.after_batch(Some(40)), Some(Segment { start: 0, end: 40 }));
    assert_eq!(b.rest(), Some(Segment { start: 40, end: 100 }));
    let mut b = Block::new(100);
    assert_eq!(b.after_batch(None), Some(Segment { start: 0, end: 100 }));
}

#[test]
fn channels_are_taken_apart() {
    let both = [1, 2, 3, 4, 5, 6, 7];
    let mut left = [0; 3];
    let mut right = [0; 3];
    deinterleave(&both, 0, &mut left);
    deinterleave(&both, 1, &mut right);
    assert_eq!(left, [1, 3, 5]);
    assert_eq!(right, [2, 4, 6]);
}

#[test]
fn a_block_needs_a_stereo_output() {
    let channels = |count, frames| Output::Channels { count, frames };
    assert_eq!(open_block(channels(2, Some(64))), Ok(Block { cursor: 0, frames: 64 }));
    assert_eq!(open_block(Output::Missing), Err(OutputFault::Missing));
    assert_eq!(open_block(Output::NotFloat), Err(OutputFault::NotFloat));
    assert_eq!(open_block(channels(1, Some(64))), Err(OutputFault::NotStereo));
    assert_eq!(open_block(channels(2, None)), Err(OutputFault::NoChannel));
    assert_eq!(OutputFault::NotStereo.message(), "Stardust SFZ requires a stereo output");
    assert_eq!(OutputFault::Missing.message(), "No output port found");
    assert_eq!((channel_side(0), channel_side(1), channel_side(2)), (Some(0), Some(1), None));
}
