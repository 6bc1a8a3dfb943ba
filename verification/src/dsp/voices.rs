//! Pools of voices: which voice a new note takes, and how many sound.

use vstd::prelude::*;

verus! {

/// What matters of a voice when one is needed.
pub ghost struct Slot {
    /// Whether the voice sounds.
    pub active: bool,
    /// Whether its note was released.
    pub released: bool,
    /// When its note was started: greater is later.
    pub age: u64,
}

/// A voice of a pool.
pub trait Pooled: Sized {
    spec fn slot(&self) -> Slot;

    fn sounds(&self) -> (r: bool)
        ensures
            r == self.slot().active,
    ;

    fn fades(&self) -> (r: bool)
        ensures
            r == self.slot().released,
    ;

    fn started(&self) -> (r: u64)
        ensures
            r == self.slot().age,
    ;
}

/// Whether `i` is the first index of a voice that does not sound.
pub open spec fn first_silent<V: Pooled>(voices: Seq<V>, i: int) -> bool {
    &&& 0 <= i < voices.len()
    &&& !voices[i].slot().active
    &&& forall|j: int| 0 <= j < i ==> (#[trigger] voices[j]).slot().active
}

/// Whether `i` is the first index of a released voice.
pub open spec fn first_released<V: Pooled>(voices: Seq<V>, i: int) -> bool {
    &&& 0 <= i < voices.len()
    &&& voices[i].slot().released
    &&& forall|j: int| 0 <= j < i ==> !(#[trigger] voices[j]).slot().released
}

/// Whether `i` is the first index of a voice than which none is older.
pub open spec fn first_oldest<V: Pooled>(voices: Seq<V>, i: int) -> bool {
    &&& 0 <= i < voices.len()
    &&& forall|j: int|
        0 <= j < voices.len() ==> voices[i].slot().age <= (#[trigger] voices[j]).slot().age
    &&& forall|j: int| 0 <= j < i ==> voices[i].slot().age < (#[trigger] voices[j]).slot().age
}

/// Whether some voice does not sound.
pub open spec fn some_silent<V: Pooled>(voices: Seq<V>) -> bool {
    exists|j: int| 0 <= j < voices.len() && !(#[trigger] voices[j]).slot().active
}

/// Whether some voice is released.
pub open spec fn some_released<V: Pooled>(voices: Seq<V>) -> bool {
    exists|j: int| 0 <= j < voices.len() && (#[trigger] voices[j]).slot().released
}

/// Whether a new note takes the voice at index `i`: a silent one where there
/// is one, else a released one, else the oldest.
pub open spec fn taken<V: Pooled>(voices: Seq<V>, i: int) -> bool {
    if some_silent(voices) {
        first_silent(voices, i)
    } else if some_released(voices) {
        first_released(voices, i)
    } else {
        first_oldest(voices, i)
    }
}

/// The voice that a new note takes.
pub fn pick_voice<V: Pooled>(voices: &Vec<V>) -> (r: usize)
    requires
        voices.len() > 0,
    ensures
        r < voices.len(),
        taken(voices@, r as int),
{
    let n: usize = voices.len();
    for i in 0..n
        invariant
            n == voices.len(),
            forall|j: int| 0 <= j < i ==> (#[trigger] voices@[j]).slot().active,
    {
        if !voices[i].sounds() {
            assert(first_silent(voices@, i as int));
            return i;
        }
    }
    for i in 0..n
        invariant
            n == voices.len(),
            !some_silent(voices@),
            forall|j: int| 0 <= j < i ==> !(#[trigger] voices@[j]).slot().released,
    {
        if voices[i].fades() {
            assert(first_released(voices@, i as int));
            return i;
        }
    }
    let mut best: usize = 0;
    for i in 1..n
        invariant
            n == voices.len(),
            best < i <= n,
            forall|j: int|
                0 <= j < i ==> voices@[best as int].slot().age <= (
                #[trigger] voices@[j]).slot().age,
            forall|j: int|
                0 <= j < best ==> voices@[best as int].slot().age < (
                #[trigger] voices@[j]).slot().age,
    {
        if voices[i].started() < voices[best].started() {
            best = i;
        }
    }
    best
}

/// How many voices sound.
pub open spec fn sounding<V: Pooled>(voices: Seq<V>) -> nat
    decreases voices.len(),
{
    if voices.len() == 0 {
        0
    } else {
        sounding(voices.drop_last()) + if voices.last().slot().active {
            1nat
        } else {
            0nat
        }
    }
}

/// How many voices sound.
pub fn count_sounding<V: Pooled>(voices: &Vec<V>) -> (r: usize)
    ensures
        r == sounding(voices@),
{
    let mut count: usize = 0;
    let n: usize = voices.len();
    assert(voices@.take(0) =~= Seq::empty());
    for i in 0..n
        invariant
            n == voices.len(),
            count == sounding(voices@.take(i as int)),
            count <= i,
    {
        assert(voices@.take(i + 1).drop_last() =~= voices@.take(i as int));
        if voices[i].sounds() {
            count = count + 1;
        }
    }
    assert(voices@.take(n as int) =~= voices@);
    count
}

/// No more voices sound than there are.
pub proof fn law_sounding_is_bounded<V: Pooled>(voices: Seq<V>)
    ensures
        sounding(voices) <= voices.len(),
    decreases voices.len(),
{
    if voices.len() > 0 {
        law_sounding_is_bounded(voices.drop_last());
    }
}

/// Changing one voice changes the count by what that voice contributes.
pub proof fn lemma_sounding_update<V: Pooled>(voices: Seq<V>, i: int, v: V)
    requires
        0 <= i < voices.len(),
    ensures
        sounding(voices.update(i, v)) == sounding(voices) - (if voices[i].slot().active {
            1int
        } else {
            0int
        }) + (if v.slot().active {
            1int
        } else {
            0int
        }),
    decreases voices.len(),
{
    let changed = voices.update(i, v);
    if i == voices.len() - 1 {
        assert(changed.drop_last() =~= voices.drop_last());
    } else {
        assert(changed.drop_last() =~= voices.drop_last().update(i, v));
        lemma_sounding_update(voices.drop_last(), i, v);
    }
}

/// Where no voice sounds, the count is 0, and the other way round.
pub proof fn lemma_none_sounding<V: Pooled>(voices: Seq<V>)
    ensures
        sounding(voices) == 0 <==> forall|i: int|
            0 <= i < voices.len() ==> !(#[trigger] voices[i]).slot().active,
    decreases voices.len(),
{
    if voices.len() > 0 {
        let rest = voices.drop_last();
        lemma_none_sounding(rest);
        if sounding(voices) == 0 {
            assert forall|i: int| 0 <= i < voices.len() implies !(
            #[trigger] voices[i]).slot().active by {
                if i < rest.len() {
                    assert(rest[i] == voices[i]);
                }
            }
        }
        if forall|i: int| 0 <= i < voices.len() ==> !(#[trigger] voices[i]).slot().active {
            assert forall|i: int| 0 <= i < rest.len() implies !(
            #[trigger] rest[i]).slot().active by {
                assert(rest[i] == voices[i]);
            }
            assert(!voices[voices.len() - 1].slot().active);
        }
    }
}

} // verus!
