//! The course of an envelope: attack, decay, sustain, release.
//!
//! The level is a real number that the caller computes. Here stands which
//! segment the envelope is in, and where it goes from there.

use vstd::prelude::*;

verus! {

/// A segment of an envelope.
#[derive(Copy, Clone, Debug, PartialEq, Eq, Structural)]
pub enum EnvState {
    /// Silent.
    Idle,
    /// Rising from wherever the level is to full.
    Attack,
    /// Falling to the sustain level.
    Decay,
    /// Held at the sustain level.
    Sustain,
    /// Falling to silence.
    Released,
}

/// The segment that an envelope is in.
#[derive(Copy, Clone, Debug, PartialEq, Eq, Structural)]
pub struct Envelope {
    pub state: EnvState,
}

/// The segment after a release. One that is silent or released stays as it is.
pub open spec fn released(state: EnvState) -> EnvState {
    match state {
        EnvState::Idle => EnvState::Idle,
        _ => EnvState::Released,
    }
}

/// The segment after one sample, where `at_end` says whether the level has
/// come to the end of the segment.
pub open spec fn ticked(state: EnvState, at_end: bool) -> EnvState {
    match state {
        EnvState::Attack => if at_end {
            EnvState::Decay
        } else {
            state
        },
        EnvState::Decay => if at_end {
            EnvState::Sustain
        } else {
            state
        },
        EnvState::Released => if at_end {
            EnvState::Idle
        } else {
            state
        },
        EnvState::Idle | EnvState::Sustain => state,
    }
}

impl Envelope {
    /// A silent envelope.
    pub fn new() -> (r: Envelope)
        ensures
            r.state == EnvState::Idle,
    {
        Envelope { state: EnvState::Idle }
    }

    /// Starts the attack, from whatever segment.
    pub fn trigger(&mut self)
        ensures
            final(self).state == EnvState::Attack,
    {
        self.state = EnvState::Attack;
    }

    /// Starts the release, and says whether it did: not where the envelope is
    /// silent or released already.
    pub fn release(&mut self) -> (r: bool)
        ensures
            final(self).state == released(old(self).state),
            r == (old(self).state != EnvState::Idle && old(self).state != EnvState::Released),
    {
        if self.state == EnvState::Idle || self.state == EnvState::Released {
            false
        } else {
            self.state = EnvState::Released;
            true
        }
    }

    /// Falls silent at once.
    pub fn reset(&mut self)
        ensures
            final(self).state == EnvState::Idle,
    {
        self.state = EnvState::Idle;
    }

    /// Whether there is anything to hear.
    pub fn is_active(&self) -> (r: bool)
        ensures
            r == (self.state != EnvState::Idle),
    {
        self.state != EnvState::Idle
    }

    /// The segment.
    pub fn state(&self) -> (r: EnvState)
        ensures
            r == self.state,
    {
        self.state
    }

    /// Goes on by one sample.
    pub fn tick(&mut self, at_end: bool)
        ensures
            final(self).state == ticked(old(self).state, at_end),
    {
        if at_end {
            match self.state {
                EnvState::Attack => {
                    self.state = EnvState::Decay;
                },
                EnvState::Decay => {
                    self.state = EnvState::Sustain;
                },
                EnvState::Released => {
                    self.state = EnvState::Idle;
                },
                EnvState::Idle | EnvState::Sustain => {},
            }
        }
    }
}

/// How far along its course an envelope is.
pub open spec fn stage(state: EnvState) -> nat {
    match state {
        EnvState::Attack => 0,
        EnvState::Decay => 1,
        EnvState::Sustain => 2,
        EnvState::Released => 3,
        EnvState::Idle => 4,
    }
}

/// Without a new trigger an envelope only goes forward on its course, and once
/// silent it stays silent.
pub proof fn law_envelope_goes_forward(state: EnvState, at_end: bool)
    ensures
        stage(ticked(state, at_end)) >= stage(state),
        stage(released(state)) >= stage(state),
        ticked(EnvState::Idle, at_end) == EnvState::Idle,
        released(EnvState::Idle) == EnvState::Idle,
{
}

/// With a sample an envelope stays in its segment or goes on to the next, and
/// only from the end of a segment. It never leaves silence or sustain.
pub proof fn law_tick_goes_on_step_by_step(state: EnvState, at_end: bool)
    ensures
        ({
            let new = ticked(state, at_end);
            ||| new == state
            ||| at_end && state == EnvState::Attack && new == EnvState::Decay
            ||| at_end && state == EnvState::Decay && new == EnvState::Sustain
            ||| at_end && state == EnvState::Released && new == EnvState::Idle
        }),
        state == EnvState::Idle || state == EnvState::Sustain ==> ticked(state, at_end) == state,
{
}

/// At the end of a segment the next begins: decay behind attack, sustain behind
/// decay, silence behind release. Until then the segment lasts, and sustain and
/// silence have no end of their own.
pub proof fn law_segments_follow_on_one_another(state: EnvState)
    ensures
        ticked(state, false) == state,
        ticked(EnvState::Attack, true) == EnvState::Decay,
        ticked(EnvState::Decay, true) == EnvState::Sustain,
        ticked(EnvState::Sustain, true) == EnvState::Sustain,
        ticked(EnvState::Released, true) == EnvState::Idle,
        ticked(EnvState::Idle, true) == EnvState::Idle,
        released(state) == EnvState::Idle <==> state == EnvState::Idle,
        state != EnvState::Idle ==> released(state) == EnvState::Released,
{
}

/// An envelope that is held sustains until it is released, and falls silent
/// when the release has come to its end.
pub proof fn law_release_leads_to_silence(state: EnvState, at_end: bool)
    ensures
        ticked(EnvState::Sustain, at_end) == EnvState::Sustain,
        ticked(released(state), true) == EnvState::Idle,
{
}

} // verus!
