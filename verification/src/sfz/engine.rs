//! The voices of the sample player.
//!
//! The pool has a fixed size. A new note takes a silent voice, else one that
//! was released, else the oldest. While the sustain pedal is down, releases
//! are put off until it is lifted. A looped sample goes on from the loop's
//! start while its note is held; once released it plays to its end.
//!
//! Positions, gains and levels are real numbers that the caller computes.

use std::sync::Arc;

use vstd::prelude::*;

use crate::dsp::envelope;
use crate::dsp::envelope::{EnvState, Envelope};
use crate::dsp::voices;
use crate::dsp::voices::{count_sounding, pick_voice, Pooled, Slot};
use crate::sfz::file::LoopMode;
use crate::sfz::instrument::{Instrument, InstrumentRegion};

verus! {

/// How many voices there are.
pub const POLYPHONY: usize = 32;

/// A voice of the player.
#[derive(Clone, Copy, Debug, PartialEq, Eq, Structural)]
pub struct Voice {
    /// The region that the voice plays, by its index.
    pub region_index: Option<usize>,
    pub key: u8,
    pub channel: u8,
    pub velocity: u8,
    /// When the note was started: greater is later.
    pub age: u64,
    pub env: Envelope,
    /// Whether the note has ended while the pedal was down.
    pub sustaining: bool,
}

/// Whether a voice sounds.
pub open spec fn voice_active(v: Voice) -> bool {
    v.region_index is Some && v.env.state != EnvState::Idle
}

impl Pooled for Voice {
    open spec fn slot(&self) -> Slot {
        Slot {
            active: voice_active(*self),
            released: self.env.state == EnvState::Released,
            age: self.age,
        }
    }

    fn sounds(&self) -> (r: bool) {
        self.is_active()
    }

    fn fades(&self) -> (r: bool) {
        self.env.state() == EnvState::Released
    }

    fn started(&self) -> (r: u64) {
        self.age
    }
}

/// A voice that has not played yet.
pub open spec fn fresh_voice() -> Voice {
    Voice {
        region_index: None,
        key: 0,
        channel: 0,
        velocity: 0,
        age: 0,
        env: Envelope { state: EnvState::Idle },
        sustaining: false,
    }
}

/// A voice that starts a note.
pub open spec fn struck_voice(
    region: usize,
    channel: u8,
    key: u8,
    velocity: u8,
    age: u64,
) -> Voice {
    Voice {
        region_index: Some(region),
        key,
        channel,
        velocity,
        age,
        env: Envelope { state: EnvState::Attack },
        sustaining: false,
    }
}

/// A voice that was cut off.
pub open spec fn cut_voice(v: Voice) -> Voice {
    Voice {
        region_index: None,
        env: Envelope { state: EnvState::Idle },
        sustaining: false,
        ..v
    }
}

/// A voice whose envelope is released.
pub open spec fn released_voice(v: Voice) -> Voice {
    Voice { env: Envelope { state: envelope::released(v.env.state) }, ..v }
}

/// A voice after the end of a note: where it plays that note it is released,
/// or waits for the pedal.
pub open spec fn voice_after_note_off(v: Voice, channel: u8, key: u8, pedal: bool) -> Voice {
    if voice_active(v) && v.key == key && v.channel == channel {
        if pedal {
            Voice { sustaining: true, ..v }
        } else {
            released_voice(v)
        }
    } else {
        v
    }
}

/// A voice after the pedal was lifted: released where it waited for that.
pub open spec fn voice_after_pedal(v: Voice) -> Voice {
    if v.sustaining {
        Voice { sustaining: false, ..released_voice(v) }
    } else {
        v
    }
}

impl Voice {
    fn fresh() -> (r: Voice)
        ensures
            r == fresh_voice(),
    {
        Voice {
            region_index: None,
            key: 0,
            channel: 0,
            velocity: 0,
            age: 0,
            env: Envelope::new(),
            sustaining: false,
        }
    }

    /// Whether the voice sounds.
    pub fn is_active(&self) -> (r: bool)
        ensures
            r == voice_active(*self),
    {
        self.region_index.is_some() && self.env.is_active()
    }
}

/// The sample player: the instrument, its voices, and what the controllers are
/// set to.
#[derive(Debug)]
pub struct Engine<S> {
    pub instrument: Arc<Instrument<S>>,
    pub voices: Vec<Voice>,
    /// How many notes were started.
    pub age_counter: u64,
    /// The pitch bend: from -8192, full down, to 8191, full up.
    pub bend: i16,
    /// Whether the sustain pedal is down.
    pub sustain_pedal: bool,
}

/// What keeps a player in order: the size of the pool, and that every sounding
/// voice plays a region of the instrument.
pub open spec fn engine_ok<S>(e: Engine<S>) -> bool {
    &&& e.voices@.len() == POLYPHONY
    &&& -8192 <= e.bend <= 8191
    &&& forall|i: int|
        0 <= i < e.voices@.len() ==> ((#[trigger] e.voices@[i]).region_index matches Some(k) ==> k
            < e.instrument.regions@.len())
}

/// Whether a region sounds for a key and a velocity.
pub open spec fn region_matches(r: InstrumentRegion, key: u8, velocity: u8) -> bool {
    r.region.lokey <= key <= r.region.hikey && r.region.lovel <= velocity <= r.region.hivel
}

/// The region that a note plays: the last that sounds for it.
pub open spec fn matching_region(regions: Seq<InstrumentRegion>, key: u8, velocity: u8) -> Option<
    nat,
>
    decreases regions.len(),
{
    if regions.len() == 0 {
        None
    } else if region_matches(regions.last(), key, velocity) {
        Some((regions.len() - 1) as nat)
    } else {
        matching_region(regions.drop_last(), key, velocity)
    }
}

/// The counter after one more note.
pub open spec fn next_age(age: u64) -> u64 {
    if age == u64::MAX {
        0
    } else {
        (age + 1) as u64
    }
}

/// Whether `after` is `before` with a note started on the voice at index `i`.
pub open spec fn note_struck<S>(
    before: Engine<S>,
    after: Engine<S>,
    region: nat,
    channel: u8,
    key: u8,
    velocity: u8,
    i: int,
) -> bool {
    &&& voices::taken(before.voices@, i)
    &&& after.age_counter == next_age(before.age_counter)
    &&& after.voices@ == before.voices@.update(
        i,
        struck_voice(region as usize, channel, key, velocity, after.age_counter),
    )
    &&& after.instrument == before.instrument
    &&& after.bend == before.bend
    &&& after.sustain_pedal == before.sustain_pedal
}

/// Whether `after` is `before` with its voices changed one by one.
pub open spec fn voices_changed<S>(
    before: Engine<S>,
    after: Engine<S>,
    f: spec_fn(Voice) -> Voice,
) -> bool {
    &&& after.voices@ == before.voices@.map_values(f)
    &&& after.age_counter == before.age_counter
    &&& after.instrument == before.instrument
    &&& after.bend == before.bend
}

/// What a controller does.
pub open spec fn controller_moved<S>(
    before: Engine<S>,
    after: Engine<S>,
    cc: u8,
    value: u8,
) -> bool {
    if cc == 64 {
        &&& after.sustain_pedal == (value >= 64)
        &&& voices_changed(
            before,
            after,
            |v: Voice|
                if before.sustain_pedal && value < 64 {
                    voice_after_pedal(v)
                } else {
                    v
                },
        )
    } else if cc == 123 {
        all_cut(before, after)
    } else {
        after == before
    }
}

/// Every voice is cut off, and the pedal counts as lifted.
pub open spec fn all_cut<S>(before: Engine<S>, after: Engine<S>) -> bool {
    &&& !after.sustain_pedal
    &&& voices_changed(before, after, |v: Voice| cut_voice(v))
}

/// The bend that a position of the pitch wheel stands for: 0 is full down, 8192
/// no bend, 16383 full up. What lies beyond counts as full.
pub open spec fn bend_of(value: i16) -> int {
    if value < 0 {
        -8192
    } else if value > 16383 {
        8191
    } else {
        value - 8192
    }
}

impl<S> Engine<S> {
    /// A player for an instrument.
    pub fn new(instrument: Arc<Instrument<S>>) -> (r: Engine<S>)
        ensures
            engine_ok(r),
            r.instrument == instrument,
            r.voices@ == Seq::new(POLYPHONY as nat, |i: int| fresh_voice()),
            r.age_counter == 0,
            r.bend == 0,
            !r.sustain_pedal,
            voices::sounding(r.voices@) == 0,
    {
        let mut pool: Vec<Voice> = Vec::new();
        for i in 0..POLYPHONY
            invariant
                pool@ == Seq::new(i as nat, |i: int| fresh_voice()),
        {
            pool.push(Voice::fresh());
            assert(pool@ =~= Seq::new((i + 1) as nat, |i: int| fresh_voice()));
        }
        proof {
            voices::lemma_none_sounding(pool@);
        }
        Engine { instrument, voices: pool, age_counter: 0, bend: 0, sustain_pedal: false }
    }

    /// Takes another instrument, with every voice cut off.
    pub fn replace_instrument(&mut self, instrument: Arc<Instrument<S>>)
        requires
            engine_ok(*old(self)),
        ensures
            engine_ok(*final(self)),
            final(self).instrument == instrument,
            final(self).voices@ == old(self).voices@.map_values(|v: Voice| cut_voice(v)),
            final(self).age_counter == old(self).age_counter,
            final(self).bend == old(self).bend,
            !final(self).sustain_pedal,
    {
        self.all_notes_off();
        self.instrument = instrument;
    }

    /// How many voices sound.
    pub fn active_voice_count(&self) -> (r: usize)
        ensures
            r == voices::sounding(self.voices@),
    {
        count_sounding(&self.voices)
    }

    /// Whether no voice sounds.
    pub fn is_idle(&self) -> (r: bool)
        ensures
            r == (voices::sounding(self.voices@) == 0),
            r == (forall|i: int|
                0 <= i < self.voices@.len() ==> !voice_active(#[trigger] self.voices@[i])),
    {
        proof {
            voices::lemma_none_sounding(self.voices@);
            assert forall|i: int| 0 <= i < self.voices@.len() implies voice_active(
                #[trigger] self.voices@[i],
            ) == self.voices@[i].slot().active by {}
        }
        count_sounding(&self.voices) == 0
    }

    /// The region that a note plays.
    fn find_region(&self, key: u8, velocity: u8) -> (r: Option<usize>)
        ensures
            (match r {
                Some(k) => k < self.instrument.regions@.len() && matching_region(
                    self.instrument.regions@,
                    key,
                    velocity,
                ) == Some(k as nat),
                None => matching_region(self.instrument.regions@, key, velocity) is None,
            }),
    {
        let regions = &self.instrument.regions;
        let mut i: usize = regions.len();
        assert(regions@.take(i as int) =~= regions@);
        while i > 0
            invariant
                i <= regions@.len(),
                *regions == self.instrument.regions,
                matching_region(regions@.take(i as int), key, velocity) == matching_region(
                    regions@,
                    key,
                    velocity,
                ),
            decreases i,
        {
            assert(regions@.take(i as int).drop_last() =~= regions@.take(i - 1));
            i = i - 1;
            if regions[i].region.matches(key, velocity) {
                return Some(i);
            }
        }
        None
    }

    /// Starts a note on the last region that sounds for it, and gives the index
    /// of the voice that it takes. Where no region does, nothing happens.
    pub fn note_on(&mut self, channel: u8, key: u8, velocity: u8) -> (r: Option<usize>)
        requires
            engine_ok(*old(self)),
        ensures
            engine_ok(*final(self)),
            (match matching_region(old(self).instrument.regions@, key, velocity) {
                Some(region) => r matches Some(i) && note_struck(
                    *old(self),
                    *final(self),
                    region,
                    channel,
                    key,
                    velocity,
                    i as int,
                ),
                None => r is None && *final(self) == *old(self),
            }),
            r matches Some(i) ==> i < POLYPHONY,
    {
        let region = match self.find_region(key, velocity) {
            Some(k) => k,
            None => {
                return None;
            },
        };
        let i = pick_voice(&self.voices);
        self.age_counter = self.age_counter.wrapping_add(1);
        let mut env = Envelope::new();
        env.trigger();
        self.voices.set(
            i,
            Voice {
                region_index: Some(region),
                key,
                channel,
                velocity,
                age: self.age_counter,
                env,
                sustaining: false,
            },
        );
        Some(i)
    }

    /// Ends a note on every voice that plays it. While the pedal is down, the
    /// voices wait for it instead.
    pub fn note_off(&mut self, channel: u8, key: u8)
        requires
            engine_ok(*old(self)),
        ensures
            engine_ok(*final(self)),
            voices_changed(
                *old(self),
                *final(self),
                |v: Voice| voice_after_note_off(v, channel, key, old(self).sustain_pedal),
            ),
            final(self).sustain_pedal == old(self).sustain_pedal,
    {
        let pedal = self.sustain_pedal;
        let ghost start = self.voices@;
        for i in 0..POLYPHONY
            invariant
                self.voices@.len() == POLYPHONY == start.len(),
                start == old(self).voices@,
                pedal == old(self).sustain_pedal,
                self.age_counter == old(self).age_counter,
                self.instrument == old(self).instrument,
                self.bend == old(self).bend,
                self.sustain_pedal == old(self).sustain_pedal,
                forall|j: int|
                    0 <= j < i ==> #[trigger] self.voices@[j] == voice_after_note_off(
                        start[j],
                        channel,
                        key,
                        pedal,
                    ),
                forall|j: int| i <= j < POLYPHONY ==> #[trigger] self.voices@[j] == start[j],
        {
            let mut v = self.voices[i];
            if v.is_active() && v.key == key && v.channel == channel {
                if pedal {
                    v.sustaining = true;
                } else {
                    v.env.release();
                }
                self.voices.set(i, v);
            }
        }
        assert(self.voices@ =~= start.map_values(
            |v: Voice| voice_after_note_off(v, channel, key, old(self).sustain_pedal),
        ));
        assert forall|i: int| 0 <= i < self.voices@.len() implies (
        #[trigger] self.voices@[i]).region_index == start[i].region_index by {}
    }

    /// Moves a controller: 64 is the sustain pedal, which is down from 64 on,
    /// and 123 cuts every voice off. The others are ignored.
    pub fn control_change(&mut self, channel: u8, cc: u8, value: u8)
        requires
            engine_ok(*old(self)),
        ensures
            engine_ok(*final(self)),
            controller_moved(*old(self), *final(self), cc, value),
    {
        if cc == 64 {
            let down = value >= 64;
            let was_down = self.sustain_pedal;
            self.sustain_pedal = down;
            let lifted = was_down && !down;
            let ghost start = self.voices@;
            let ghost f = |v: Voice|
                if old(self).sustain_pedal && value < 64 {
                    voice_after_pedal(v)
                } else {
                    v
                };
            if lifted {
                for i in 0..POLYPHONY
                    invariant
                        self.voices@.len() == POLYPHONY == start.len(),
                        start == old(self).voices@,
                        self.age_counter == old(self).age_counter,
                        self.instrument == old(self).instrument,
                        self.bend == old(self).bend,
                        self.sustain_pedal == down,
                        forall|j: int|
                            0 <= j < i ==> #[trigger] self.voices@[j] == voice_after_pedal(start[j]),
                        forall|j: int| i <= j < POLYPHONY ==> #[trigger] self.voices@[j] == start[j],
                {
                    let mut v = self.voices[i];
                    if v.sustaining {
                        v.env.release();
                        v.sustaining = false;
                        self.voices.set(i, v);
                    }
                }
            }
            assert(self.voices@ =~= start.map_values(f));
            assert forall|i: int| 0 <= i < self.voices@.len() implies (
            #[trigger] self.voices@[i]).region_index == start[i].region_index by {}
        } else if cc == 123 {
            self.all_notes_off();
        }
    }

    /// Moves the pitch wheel to a position of 14 bits: 0 is full down, 8192 no
    /// bend, 16383 full up.
    pub fn pitch_bend(&mut self, channel: u8, value: i16)
        requires
            engine_ok(*old(self)),
        ensures
            engine_ok(*final(self)),
            *final(self) == (Engine { bend: bend_of(value) as i16, ..*old(self) }),
    {
        self.bend = if value < 0 {
            -8192
        } else if value > 16383 {
            8191
        } else {
            value - 8192
        };
    }

    /// Cuts every voice off.
    pub fn all_notes_off(&mut self)
        requires
            engine_ok(*old(self)),
        ensures
            engine_ok(*final(self)),
            all_cut(*old(self), *final(self)),
            voices::sounding(final(self).voices@) == 0,
    {
        let ghost start = self.voices@;
        for i in 0..POLYPHONY
            invariant
                self.voices@.len() == POLYPHONY == start.len(),
                start == old(self).voices@,
                self.age_counter == old(self).age_counter,
                self.instrument == old(self).instrument,
                self.bend == old(self).bend,
                forall|j: int| 0 <= j < i ==> #[trigger] self.voices@[j] == cut_voice(start[j]),
                forall|j: int| i <= j < POLYPHONY ==> #[trigger] self.voices@[j] == start[j],
        {
            let mut v = self.voices[i];
            v.env.reset();
            v.region_index = None;
            v.sustaining = false;
            self.voices.set(i, v);
        }
        self.sustain_pedal = false;
        proof {
            assert(self.voices@ =~= start.map_values(|v: Voice| cut_voice(v)));
            voices::lemma_none_sounding(self.voices@);
        }
    }
}

// ---------------------------------------------------------------------------
// Rendering
// ---------------------------------------------------------------------------

/// Where a loop begins and ends, in frames.
#[derive(Clone, Copy, Debug, PartialEq, Eq, Structural)]
pub struct LoopBounds {
    pub start: u64,
    pub end: u64,
}

/// The lesser of two numbers.
pub open spec fn lesser(a: int, b: int) -> int {
    if a <= b {
        a
    } else {
        b
    }
}

/// The last frame of a region's loop: the sample's length where it names none,
/// and never beyond that.
pub open spec fn loop_end_of(region: InstrumentRegion, frames: usize) -> int {
    if region.region.loop_end == 0 {
        frames as int
    } else {
        lesser(region.region.loop_end as int, frames as int)
    }
}

/// The bounds of a region's loop, with the start before the end.
pub open spec fn bounds_of(region: InstrumentRegion, frames: usize) -> LoopBounds {
    let end = loop_end_of(region, frames);
    let last = if end > 0 {
        end - 1
    } else {
        0
    };
    LoopBounds {
        start: lesser(region.region.loop_start as int, last) as u64,
        end: (if end > 0 {
            end
        } else {
            1
        }) as u64,
    }
}

/// The bounds of a region's loop in a sample of `total_frames` frames.
pub fn loop_bounds(region: &InstrumentRegion, total_frames: usize) -> (r: LoopBounds)
    ensures
        r == bounds_of(*region, total_frames),
{
    let total: u64 = total_frames as u64;
    let end: u64 = if region.region.loop_end == 0 {
        total
    } else if region.region.loop_end <= total {
        region.region.loop_end
    } else {
        total
    };
    let last: u64 = if end > 0 {
        end - 1
    } else {
        0
    };
    let start: u64 = if region.region.loop_start <= last {
        region.region.loop_start
    } else {
        last
    };
    LoopBounds {
        start,
        end: if end > 0 {
            end
        } else {
            1
        },
    }
}

/// What a voice does in a frame.
#[derive(Clone, Copy, Debug, PartialEq, Eq, Structural)]
pub enum FrameStep {
    /// Nothing.
    Silent,
    /// It plays on from where it is.
    Play,
    /// It plays, once its position has been brought back into the loop.
    PlayFromLoop(LoopBounds),
}

/// Whether a voice is held in the loop of its region.
pub open spec fn looping<S>(e: Engine<S>, v: Voice) -> bool {
    &&& v.region_index matches Some(k)
    &&& e.instrument.regions@[k as int].region.loop_mode == LoopMode::LoopContinuous
    &&& v.env.state != EnvState::Released
}

/// A voice whose sample has come to its end.
pub open spec fn ended_voice(v: Voice) -> Voice {
    Voice { region_index: None, env: Envelope { state: EnvState::Idle }, ..v }
}

/// What a voice does in a frame, and what becomes of it, where `position` is
/// the frame that it has come to in a sample of `frames` frames. The last
/// frame is not played from: there is none to go on to.
pub open spec fn frame_begun<S>(e: Engine<S>, v: Voice, position: usize, frames: usize) -> (
    FrameStep,
    Voice,
) {
    if v.region_index is None {
        (FrameStep::Silent, v)
    } else if v.env.state == EnvState::Idle {
        (FrameStep::Silent, Voice { region_index: None, ..v })
    } else if position + 1 < frames {
        (FrameStep::Play, v)
    } else if looping(e, v) {
        (
            FrameStep::PlayFromLoop(
                bounds_of(e.instrument.regions@[v.region_index->0 as int], frames),
            ),
            v,
        )
    } else {
        (FrameStep::Silent, ended_voice(v))
    }
}

/// A voice after one sample of its envelope.
pub open spec fn ticked_voice(v: Voice, at_end: bool) -> Voice {
    Voice { env: Envelope { state: envelope::ticked(v.env.state, at_end) }, ..v }
}

impl<S> Engine<S> {
    /// Begins a frame for the voice at index `i`, which has come to frame
    /// `position` of its sample of `total_frames` frames.
    pub fn begin_frame(&mut self, i: usize, position: usize, total_frames: usize) -> (r: FrameStep)
        requires
            engine_ok(*old(self)),
            i < POLYPHONY,
        ensures
            engine_ok(*final(self)),
            r == frame_begun(*old(self), old(self).voices@[i as int], position, total_frames).0,
            final(self).voices@ == old(self).voices@.update(
                i as int,
                frame_begun(*old(self), old(self).voices@[i as int], position, total_frames).1,
            ),
            final(self).instrument == old(self).instrument,
            final(self).age_counter == old(self).age_counter,
            final(self).bend == old(self).bend,
            final(self).sustain_pedal == old(self).sustain_pedal,
    {
        let mut v = self.voices[i];
        assert(self.voices@ =~= self.voices@.update(i as int, v));
        let k = match v.region_index {
            Some(k) => k,
            None => {
                return FrameStep::Silent;
            },
        };
        if !v.env.is_active() {
            v.region_index = None;
            self.voices.set(i, v);
            return FrameStep::Silent;
        }
        if total_frames > 0 && position < total_frames - 1 {
            return FrameStep::Play;
        }
        let region = &self.instrument.regions[k];
        if region.region.loop_mode == LoopMode::LoopContinuous && v.env.state()
            != EnvState::Released {
            return FrameStep::PlayFromLoop(loop_bounds(region, total_frames));
        }
        v.region_index = None;
        v.env.reset();
        self.voices.set(i, v);
        FrameStep::Silent
    }

    /// Ends a frame for the voice at index `i`, whose level has come to the
    /// end of its segment or not. Gives the loop that the voice is held in:
    /// from its end on, the voice goes back to its start.
    pub fn end_frame(&mut self, i: usize, at_end: bool, total_frames: usize) -> (r: Option<
        LoopBounds,
    >)
        requires
            engine_ok(*old(self)),
            i < POLYPHONY,
        ensures
            engine_ok(*final(self)),
            final(self).voices@ == old(self).voices@.update(
                i as int,
                ticked_voice(old(self).voices@[i as int], at_end),
            ),
            final(self).instrument == old(self).instrument,
            final(self).age_counter == old(self).age_counter,
            final(self).bend == old(self).bend,
            final(self).sustain_pedal == old(self).sustain_pedal,
            ({
                let v = ticked_voice(old(self).voices@[i as int], at_end);
                r == if looping(*old(self), v) {
                    Some(
                        bounds_of(
                            old(self).instrument.regions@[v.region_index->0 as int],
                            total_frames,
                        ),
                    )
                } else {
                    None
                }
            }),
    {
        let mut v = self.voices[i];
        v.env.tick(at_end);
        self.voices.set(i, v);
        match v.region_index {
            Some(k) => {
                let region = &self.instrument.regions[k];
                if region.region.loop_mode == LoopMode::LoopContinuous && v.env.state()
                    != EnvState::Released {
                    Some(loop_bounds(region, total_frames))
                } else {
                    None
                }
            },
            None => None,
        }
    }
}

// ---------------------------------------------------------------------------
// Laws
// ---------------------------------------------------------------------------

/// The middle of the wheel does not bend, its ends bend fully, and a higher
/// position never bends lower.
pub proof fn law_bend_rises_with_the_wheel(a: i16, b: i16)
    requires
        a <= b,
    ensures
        bend_of(8192) == 0,
        bend_of(0) == -8192,
        bend_of(16383) == 8191,
        -8192 <= bend_of(a) <= bend_of(b) <= 8191,
{
}

/// A loop is never empty, and lies within the sample where that has frames.
pub proof fn law_loop_is_not_empty(region: InstrumentRegion, frames: usize)
    requires
        frames <= u64::MAX,
    ensures
        bounds_of(region, frames).start < bounds_of(region, frames).end,
        frames > 0 ==> bounds_of(region, frames).end <= frames,
{
}

/// Of the regions that sound for a note, the last one plays it; and where one
/// does, one plays.
pub proof fn law_last_match_wins(regions: Seq<InstrumentRegion>, key: u8, velocity: u8)
    ensures
        (match matching_region(regions, key, velocity) {
            Some(k) => {
                &&& k < regions.len()
                &&& region_matches(regions[k as int], key, velocity)
                &&& forall|j: int|
                    k < j < regions.len() ==> !region_matches(#[trigger] regions[j], key, velocity)
            },
            None => forall|j: int|
                0 <= j < regions.len() ==> !region_matches(#[trigger] regions[j], key, velocity),
        }),
    decreases regions.len(),
{
    if regions.len() > 0 && !region_matches(regions.last(), key, velocity) {
        let rest = regions.drop_last();
        law_last_match_wins(rest, key, velocity);
        match matching_region(rest, key, velocity) {
            Some(k) => {
                assert forall|j: int| k < j < regions.len() implies !region_matches(
                    #[trigger] regions[j],
                    key,
                    velocity,
                ) by {
                    if j < rest.len() {
                        assert(rest[j] == regions[j]);
                    }
                }
            },
            None => {
                assert forall|j: int| 0 <= j < regions.len() implies !region_matches(
                    #[trigger] regions[j],
                    key,
                    velocity,
                ) by {
                    if j < rest.len() {
                        assert(rest[j] == regions[j]);
                    }
                }
            },
        }
    }
}

/// Ending a note while the pedal is down leaves its voice sounding, and lifting
/// the pedal then does what ending the note without the pedal does.
pub proof fn law_pedal_puts_release_off(v: Voice, channel: u8, key: u8)
    requires
        !v.sustaining,
    ensures
        voice_after_note_off(v, channel, key, true).env == v.env,
        voice_active(voice_after_note_off(v, channel, key, true)) == voice_active(v),
        voice_after_pedal(voice_after_note_off(v, channel, key, true)) == voice_after_note_off(
            v,
            channel,
            key,
            false,
        ),
{
}

/// Starting a note makes one voice more sound, or as many as before where it
/// took the place of another.
pub proof fn law_note_on_adds_one_voice<S>(
    before: Engine<S>,
    after: Engine<S>,
    region: nat,
    channel: u8,
    key: u8,
    velocity: u8,
    i: int,
)
    requires
        note_struck(before, after, region, channel, key, velocity, i),
    ensures
        voices::sounding(after.voices@) == voices::sounding(before.voices@) + if voices::some_silent(
            before.voices@,
        ) {
            1int
        } else {
            0int
        },
{
    voices::lemma_sounding_update(
        before.voices@,
        i,
        struck_voice(region as usize, channel, key, velocity, after.age_counter),
    );
}

/// Cutting every voice off leaves none sounding.
pub proof fn law_cut_voices_are_silent<S>(before: Engine<S>, after: Engine<S>)
    requires
        all_cut(before, after),
    ensures
        voices::sounding(after.voices@) == 0,
{
    voices::lemma_none_sounding(after.voices@);
}

/// A voice held in a loop does not end with its sample; a released one does.
pub proof fn law_loop_holds_until_release<S>(
    e: Engine<S>,
    v: Voice,
    position: usize,
    frames: usize,
)
    requires
        voice_active(v),
    ensures
        looping(e, v) ==> voice_active(frame_begun(e, v, position, frames).1),
        v.env.state == EnvState::Released && position + 1 >= frames ==> !voice_active(
            frame_begun(e, v, position, frames).1,
        ),
{
}

/// Ending a note while the pedal is down and lifting the pedal afterwards does
/// to the voices what ending the note without the pedal does, where no other
/// note waits for the pedal.
pub proof fn law_lifting_the_pedal_releases<S>(
    before: Engine<S>,
    held: Engine<S>,
    after: Engine<S>,
    channel: u8,
    key: u8,
    value: u8,
)
    requires
        before.sustain_pedal,
        forall|i: int| 0 <= i < before.voices@.len() ==> !(#[trigger] before.voices@[i]).sustaining,
        voices_changed(before, held, |v: Voice| voice_after_note_off(v, channel, key, true)),
        held.sustain_pedal,
        value < 64,
        controller_moved(held, after, 64, value),
    ensures
        !after.sustain_pedal,
        voices_changed(before, after, |v: Voice| voice_after_note_off(v, channel, key, false)),
{
    assert(after.voices@ =~= before.voices@.map_values(
        |v: Voice| voice_after_note_off(v, channel, key, false),
    )) by {
        assert forall|i: int| 0 <= i < before.voices@.len() implies #[trigger] after.voices@[i]
            == voice_after_note_off(before.voices@[i], channel, key, false) by {
            law_pedal_puts_release_off(before.voices@[i], channel, key);
        }
    }
}

/// Whether no voice is younger than the counter says.
pub open spec fn ages_in_order<S>(e: Engine<S>) -> bool {
    forall|i: int| 0 <= i < e.voices@.len() ==> (#[trigger] e.voices@[i]).age <= e.age_counter
}

/// Until the counter of notes has run full, the note that was started last is
/// the youngest, so the oldest voice is the one whose note was started first.
pub proof fn law_last_note_is_youngest<S>(
    before: Engine<S>,
    after: Engine<S>,
    region: nat,
    channel: u8,
    key: u8,
    velocity: u8,
    i: int,
)
    requires
        ages_in_order(before),
        before.age_counter < u64::MAX,
        0 <= i < before.voices@.len(),
        note_struck(before, after, region, channel, key, velocity, i),
    ensures
        ages_in_order(after),
        forall|j: int|
            0 <= j < after.voices@.len() && j != i ==> (#[trigger] after.voices@[j]).age
                < after.voices@[i].age,
{
    assert forall|j: int| 0 <= j < after.voices@.len() implies (#[trigger] after.voices@[j]).age
        <= after.age_counter && (j != i ==> after.voices@[j].age < after.voices@[i].age) by {
        if j != i {
            assert(after.voices@[j] == before.voices@[j]);
        }
    }
}

/// A frame moves nothing but the envelope of a voice, and that only where its level has
/// come to the end of a segment that another one follows.
pub proof fn law_frame_moves_only_the_envelope(v: Voice, at_end: bool)
    ensures
        ({
            let w = ticked_voice(v, at_end);
            &&& w.region_index == v.region_index
            &&& w.key == v.key
            &&& w.channel == v.channel
            &&& w.velocity == v.velocity
            &&& w.age == v.age
            &&& w.sustaining == v.sustaining
            &&& !at_end ==> w.env.state == v.env.state
            &&& at_end ==> match v.env.state {
                EnvState::Attack => w.env.state == EnvState::Decay,
                EnvState::Decay | EnvState::Sustain => w.env.state == EnvState::Sustain,
                EnvState::Released | EnvState::Idle => w.env.state == EnvState::Idle,
            }
        }),
{
}

/// A voice that has not played yet is silent, holds no region, waits for no pedal and is
/// older than any that plays.
pub proof fn law_fresh_voice_is_silent()
    ensures
        fresh_voice().region_index is None,
        fresh_voice().env.state == EnvState::Idle,
        !fresh_voice().sustaining,
        fresh_voice().age == 0,
{
}

} // verus!
