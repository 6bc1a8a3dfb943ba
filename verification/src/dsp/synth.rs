//! The voices of the built-in tone generator.
//!
//! The pool has a fixed size. When it is full, a new note takes a voice that
//! was released, else the oldest. What a voice sounds like is computed by the
//! caller.

use vstd::prelude::*;

use crate::dsp::envelope;
use crate::dsp::envelope::{EnvState, Envelope};
use crate::dsp::voices;
use crate::dsp::voices::{count_sounding, pick_voice, Pooled, Slot};
use crate::midi::message::MidiMessage;

verus! {

/// A voice of the synth.
#[derive(Clone, Copy, Debug, PartialEq, Eq, Structural)]
pub struct Voice {
    /// The note that the voice plays or played.
    pub note: Option<u8>,
    /// When the note was started: greater is later.
    pub age: u64,
    /// The velocity of the note.
    pub velocity: u8,
    pub env: Envelope,
}

impl Pooled for Voice {
    open spec fn slot(&self) -> Slot {
        Slot {
            active: self.env.state != EnvState::Idle,
            released: self.env.state == EnvState::Released,
            age: self.age,
        }
    }

    fn sounds(&self) -> (r: bool) {
        self.env.is_active()
    }

    fn fades(&self) -> (r: bool) {
        self.env.state() == EnvState::Released
    }

    fn started(&self) -> (r: u64) {
        self.age
    }
}

/// A voice that plays nothing.
pub open spec fn silent_voice(age: u64) -> Voice {
    Voice { note: None, age, velocity: 0, env: Envelope { state: EnvState::Idle } }
}

/// A voice that starts a note.
pub open spec fn started_voice(note: u8, velocity: u8, age: u64) -> Voice {
    Voice { note: Some(note), age, velocity, env: Envelope { state: EnvState::Attack } }
}

/// A voice after the release of a note: released where it plays that note.
pub open spec fn voice_after_note_off(v: Voice, note: u8) -> Voice {
    if v.note == Some(note) {
        Voice { env: Envelope { state: envelope::released(v.env.state) }, ..v }
    } else {
        v
    }
}

/// The voices of the tone generator.
#[derive(Debug)]
pub struct Synth {
    pub voices: Vec<Voice>,
    /// How many notes were started.
    pub age_counter: u64,
}

/// The counter after one more note.
pub open spec fn next_age(age: u64) -> u64 {
    if age == u64::MAX {
        0
    } else {
        (age + 1) as u64
    }
}

/// Whether `after` is `before` with a note started.
pub open spec fn note_started(before: Synth, after: Synth, note: u8, velocity: u8, i: int) -> bool {
    &&& voices::taken(before.voices@, i)
    &&& after.age_counter == next_age(before.age_counter)
    &&& after.voices@ == before.voices@.update(i, started_voice(note, velocity, after.age_counter))
}

/// Whether `after` is `before` with a note released.
pub open spec fn note_ended(before: Synth, after: Synth, note: u8) -> bool {
    &&& after.age_counter == before.age_counter
    &&& after.voices@ == before.voices@.map_values(|v: Voice| voice_after_note_off(v, note))
}

impl Synth {
    /// A synth with a number of voices.
    pub fn new(polyphony: usize) -> (r: Synth)
        requires
            polyphony > 0,
        ensures
            r.voices@ == Seq::new(polyphony as nat, |i: int| silent_voice(0)),
            r.age_counter == 0,
            voices::sounding(r.voices@) == 0,
    {
        let mut pool: Vec<Voice> = Vec::new();
        for i in 0..polyphony
            invariant
                pool@ == Seq::new(i as nat, |i: int| silent_voice(0)),
        {
            pool.push(Voice { note: None, age: 0, velocity: 0, env: Envelope::new() });
            assert(pool@ =~= Seq::new((i + 1) as nat, |i: int| silent_voice(0)));
        }
        proof {
            voices::lemma_none_sounding(pool@);
        }
        Synth { voices: pool, age_counter: 0 }
    }

    /// Acts on a message: notes are started and released, the rest is ignored.
    /// Gives the index of the voice that was started.
    pub fn process_midi(&mut self, message: MidiMessage) -> (r: Option<usize>)
        requires
            old(self).voices.len() > 0,
        ensures
            (match message {
                MidiMessage::NoteOn { note, velocity, .. } => r matches Some(i) && note_started(
                    *old(self),
                    *final(self),
                    note,
                    velocity,
                    i as int,
                ),
                MidiMessage::NoteOff { note, .. } => r is None && note_ended(
                    *old(self),
                    *final(self),
                    note,
                ),
                _ => r is None && *final(self) == *old(self),
            }),
            final(self).voices.len() == old(self).voices.len(),
    {
        match message {
            MidiMessage::NoteOn { note, velocity, .. } => Some(self.note_on(note, velocity)),
            MidiMessage::NoteOff { note, .. } => {
                self.note_off(note);
                None
            },
            _ => None,
        }
    }

    /// Starts a note, and gives the index of the voice that it takes.
    pub fn note_on(&mut self, note: u8, velocity: u8) -> (r: usize)
        requires
            old(self).voices.len() > 0,
        ensures
            note_started(*old(self), *final(self), note, velocity, r as int),
            r < final(self).voices.len() == old(self).voices.len(),
    {
        let age = self.age_counter.wrapping_add(1);
        let i = pick_voice(&self.voices);
        self.age_counter = age;
        let mut env = self.voices[i].env;
        env.trigger();
        self.voices.set(i, Voice { note: Some(note), age, velocity, env });
        i
    }

    /// Releases every voice that plays a note.
    pub fn note_off(&mut self, note: u8)
        ensures
            note_ended(*old(self), *final(self), note),
            final(self).voices.len() == old(self).voices.len(),
    {
        let n: usize = self.voices.len();
        let ghost start = self.voices@;
        for i in 0..n
            invariant
                n == self.voices.len() == start.len(),
                self.age_counter == old(self).age_counter,
                forall|j: int|
                    0 <= j < i ==> #[trigger] self.voices@[j] == voice_after_note_off(
                        start[j],
                        note,
                    ),
                forall|j: int| i <= j < n ==> #[trigger] self.voices@[j] == start[j],
        {
            let mut v = self.voices[i];
            let plays = match v.note {
                Some(k) => k == note,
                None => false,
            };
            if plays {
                v.env.release();
                self.voices.set(i, v);
            }
        }
        assert(self.voices@ =~= start.map_values(|v: Voice| voice_after_note_off(v, note)));
    }

    /// Cuts every voice off.
    pub fn all_notes_off(&mut self)
        ensures
            final(self).age_counter == old(self).age_counter,
            final(self).voices@ == old(self).voices@.map_values(|v: Voice| silent_voice(v.age)),
            voices::sounding(final(self).voices@) == 0,
    {
        let n: usize = self.voices.len();
        let ghost start = self.voices@;
        for i in 0..n
            invariant
                n == self.voices.len() == start.len(),
                self.age_counter == old(self).age_counter,
                forall|j: int| 0 <= j < i ==> #[trigger] self.voices@[j] == silent_voice(start[j].age),
                forall|j: int| i <= j < n ==> #[trigger] self.voices@[j] == start[j],
        {
            let mut v = self.voices[i];
            v.note = None;
            v.velocity = 0;
            v.env.reset();
            self.voices.set(i, v);
        }
        proof {
            assert(self.voices@ =~= start.map_values(|v: Voice| silent_voice(v.age)));
            voices::lemma_none_sounding(self.voices@);
        }
    }

    /// One sample of a voice has been computed; `at_end` says whether its
    /// level came to the end of its segment.
    pub fn tick(&mut self, i: usize, at_end: bool)
        requires
            i < old(self).voices.len(),
        ensures
            final(self).age_counter == old(self).age_counter,
            final(self).voices@ == old(self).voices@.update(
                i as int,
                Voice {
                    env: Envelope {
                        state: envelope::ticked(old(self).voices@[i as int].env.state, at_end),
                    },
                    ..old(self).voices@[i as int]
                },
            ),
    {
        let mut v = self.voices[i];
        v.env.tick(at_end);
        self.voices.set(i, v);
    }

    /// How many voices sound.
    pub fn active_voice_count(&self) -> (r: usize)
        ensures
            r == voices::sounding(self.voices@),
    {
        count_sounding(&self.voices)
    }
}

/// Starting a note makes one voice more sound, or as many as before where it
/// took the place of another.
pub proof fn law_note_on_adds_one_voice(before: Synth, after: Synth, note: u8, velocity: u8, i: int)
    requires
        note_started(before, after, note, velocity, i),
    ensures
        voices::sounding(after.voices@) == voices::sounding(before.voices@) + if voices::some_silent(
            before.voices@,
        ) {
            1int
        } else {
            0int
        },
{
    voices::lemma_sounding_update(
        before.voices@,
        i,
        started_voice(note, velocity, after.age_counter),
    );
}

/// Releasing a note leaves as many voices sounding as before: a released voice
/// sounds until its release has come to its end.
pub proof fn law_note_off_silences_nothing(before: Synth, after: Synth, note: u8)
    requires
        note_ended(before, after, note),
    ensures
        voices::sounding(after.voices@) == voices::sounding(before.voices@),
    decreases before.voices@.len(),
{
    lemma_same_sounding(before.voices@, after.voices@);
}

proof fn lemma_same_sounding(a: Seq<Voice>, b: Seq<Voice>)
    requires
        a.len() == b.len(),
        forall|i: int|
            0 <= i < a.len() ==> (#[trigger] a[i]).slot().active == b[i].slot().active,
    ensures
        voices::sounding(a) == voices::sounding(b),
    decreases a.len(),
{
    if a.len() > 0 {
        assert forall|i: int| 0 <= i < a.len() - 1 implies (
        #[trigger] a.drop_last()[i]).slot().active == b.drop_last()[i].slot().active by {
            assert(a[i].slot().active == b[i].slot().active);
        }
        lemma_same_sounding(a.drop_last(), b.drop_last());
        assert(a[a.len() - 1].slot().active == b[b.len() - 1].slot().active);
    }
}

/// Whether no voice is younger than the counter says.
pub open spec fn ages_in_order(s: Synth) -> bool {
    forall|i: int| 0 <= i < s.voices@.len() ==> (#[trigger] s.voices@[i]).age <= s.age_counter
}

/// Until the counter of notes has run full, the note that was started last is
/// the youngest, so the oldest voice is the one whose note was started first.
pub proof fn law_last_note_is_youngest(before: Synth, after: Synth, note: u8, velocity: u8, i: int)
    requires
        ages_in_order(before),
        before.age_counter < u64::MAX,
        0 <= i < before.voices@.len(),
        note_started(before, after, note, velocity, i),
    ensures
        ages_in_order(after),
        forall|j: int|
            0 <= j < after.voices@.len() && j != i ==> (#[trigger] after.voices@[j]).age
                < after.voices@[i].age,
{
    assert forall|j: int| 0 <= j < after.voices@.len() implies (#[trigger] after.voices@[j]).age
        <= after.age_counter && (j != i ==> after.voices@[j].age < after.voices@[i].age) by {
        if j != i {
            assert(after.voices@[j] == before.voices@[j]);
        }
    }
}

/// A note that is started is played by the voice that it takes, with its own
/// velocity, and is ended by the release of that note and of no other. The other
/// voices play on.
pub proof fn law_note_off_ends_its_note(
    before: Synth,
    played: Synth,
    after: Synth,
    note: u8,
    velocity: u8,
    i: int,
    off: u8,
)
    requires
        0 <= i < before.voices@.len(),
        note_started(before, played, note, velocity, i),
        note_ended(played, after, off),
    ensures
        played.voices@[i].note == Some(note),
        played.voices@[i].velocity == velocity,
        played.voices@[i].env.state == EnvState::Attack,
        forall|j: int|
            0 <= j < before.voices@.len() && j != i ==> #[trigger] played.voices@[j]
                == before.voices@[j],
        off == note ==> after.voices@[i].env.state == EnvState::Released,
        off != note ==> after.voices@[i] == played.voices@[i],
        after.voices@[i].note == Some(note),
        after.voices@[i].velocity == velocity,
        after.voices@[i].age == played.voices@[i].age,
{
}

/// Releasing a note reaches exactly the voices that play it.
pub proof fn law_note_off_reaches_its_voices(before: Synth, after: Synth, note: u8, i: int)
    requires
        0 <= i < before.voices@.len(),
        note_ended(before, after, note),
    ensures
        after.voices@.len() == before.voices@.len(),
        ({
            let v = before.voices@[i];
            let w = after.voices@[i];
            &&& v.note != Some(note) || v.env.state == EnvState::Idle ==> w == v
            &&& v.note == Some(note) && v.env.state != EnvState::Idle ==> w.env.state
                == EnvState::Released
            &&& w.note == v.note && w.velocity == v.velocity && w.age == v.age
        }),
{
}

/// A new note takes the first silent voice. Only where all sound it takes a
/// released one, the first, and only where none is released the one whose note is
/// oldest.
pub proof fn law_new_note_spares_what_sounds(all: Seq<Voice>, i: int, j: int)
    requires
        voices::taken(all, i),
        0 <= j < all.len(),
    ensures
        0 <= i < all.len(),
        all[j].env.state == EnvState::Idle ==> all[i].env.state == EnvState::Idle && i <= j,
        all[j].env.state == EnvState::Released && all[i].env.state != EnvState::Idle
            ==> all[i].env.state == EnvState::Released && i <= j,
        all[i].env.state != EnvState::Idle && all[i].env.state != EnvState::Released ==> all[i].age
            <= all[j].age && (all[j].age == all[i].age ==> i <= j),
{
    if voices::some_silent(all) {
        if j < i {
            assert(all[j].slot().active);
        }
    } else {
        assert(all[j].slot().active);
        assert(all[i].slot().active);
        if voices::some_released(all) {
            if j < i {
                assert(!all[j].slot().released);
            }
        } else {
            assert(!all[j].slot().released);
            if j < i {
                assert(all[i].slot().age < all[j].slot().age);
            }
        }
    }
}

/// How many voices sound grows by one with each that does.
pub proof fn law_sounding_counts_the_active(all: Seq<Voice>, v: Voice)
    ensures
        voices::sounding(all.push(v)) == voices::sounding(all) + if v.env.state == EnvState::Idle {
            0int
        } else {
            1int
        },
        voices::sounding(Seq::<Voice>::empty()) == 0,
{
    assert(all.push(v).drop_last() =~= all);
}

/// A voice that plays nothing has no note and is silent, and a voice that is cut off
/// keeps only when it was started.
pub proof fn law_silent_voice_has_no_note(age: u64)
    ensures
        silent_voice(age).note is None,
        silent_voice(age).velocity == 0,
        silent_voice(age).env.state == EnvState::Idle,
        silent_voice(age).age == age,
{
}

} // verus!
