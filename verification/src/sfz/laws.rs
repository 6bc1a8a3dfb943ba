//! What holds of sample instruments as a whole: how notes are played, what each
//! opcode is for, and how the sections of a file work together.

use vstd::prelude::*;

use crate::dsp::envelope::EnvState;
use crate::dsp::voices;
use crate::dsp::voices::Pooled;
use crate::sfz::engine;
use crate::sfz::engine::{Engine, FrameStep, Voice};
use crate::sfz::file;
use crate::sfz::file::{Bag, LoopMode, ParserModel, Region, RegionModel, Section};
use crate::sfz::instrument::InstrumentRegion;
use crate::sfz::lexer;
use crate::sfz::processor;
use crate::sfz::processor::{Block, Command, Output, OutputFault, PluginEvent};
use crate::sfz::values;
use crate::text;

verus! {

// ---------------------------------------------------------------------------
// Playing notes
// ---------------------------------------------------------------------------

/// A note that is started is played by the voice that it takes, with its own
/// channel, key and velocity, from the start of its envelope. The other voices
/// play on.
pub proof fn law_note_on_plays_the_note<S>(
    before: Engine<S>,
    after: Engine<S>,
    region: usize,
    channel: u8,
    key: u8,
    velocity: u8,
    i: int,
)
    requires
        0 <= i < before.voices@.len(),
        engine::note_struck(before, after, region as nat, channel, key, velocity, i),
    ensures
        after.voices@.len() == before.voices@.len(),
        after.voices@[i].channel == channel,
        after.voices@[i].key == key,
        after.voices@[i].velocity == velocity,
        after.voices@[i].region_index == Some(region),
        after.voices@[i].env.state == EnvState::Attack,
        !after.voices@[i].sustaining,
        after.voices@[i].age == after.age_counter,
        after.age_counter == before.age_counter + 1 || (before.age_counter == u64::MAX
            && after.age_counter == 0),
        forall|j: int|
            0 <= j < before.voices@.len() && j != i ==> #[trigger] after.voices@[j]
                == before.voices@[j],
        after.instrument == before.instrument,
        after.bend == before.bend,
        after.sustain_pedal == before.sustain_pedal,
{
}

/// The end of a note releases the voice that the note took, or with the pedal
/// down leaves it waiting for the pedal. The end of a note on another channel or
/// of another key leaves the voice as it is.
pub proof fn law_note_off_ends_its_note<S>(
    before: Engine<S>,
    struck: Engine<S>,
    after: Engine<S>,
    region: usize,
    channel: u8,
    key: u8,
    velocity: u8,
    i: int,
    off_channel: u8,
    off_key: u8,
)
    requires
        0 <= i < before.voices@.len(),
        engine::note_struck(before, struck, region as nat, channel, key, velocity, i),
        engine::voices_changed(
            struck,
            after,
            |v: Voice|
                engine::voice_after_note_off(v, off_channel, off_key, struck.sustain_pedal),
        ),
    ensures
        off_channel == channel && off_key == key && !struck.sustain_pedal
            ==> after.voices@[i].env.state == EnvState::Released && !after.voices@[i].sustaining,
        off_channel == channel && off_key == key && struck.sustain_pedal
            ==> after.voices@[i].env.state == EnvState::Attack && after.voices@[i].sustaining,
        off_channel != channel || off_key != key ==> after.voices@[i] == struck.voices@[i],
        after.voices@[i].region_index == Some(region),
        after.voices@[i].key == key,
        after.voices@[i].channel == channel,
{
}

/// The end of a note reaches exactly the voices that sound with its channel and
/// key: with the pedal up they are released, with the pedal down they wait for
/// it. Nothing else about them changes, and nothing about the others.
pub proof fn law_note_off_reaches_its_voices<S>(
    before: Engine<S>,
    after: Engine<S>,
    channel: u8,
    key: u8,
    i: int,
)
    requires
        0 <= i < before.voices@.len(),
        engine::voices_changed(
            before,
            after,
            |v: Voice| engine::voice_after_note_off(v, channel, key, before.sustain_pedal),
        ),
    ensures
        after.voices@.len() == before.voices@.len(),
        ({
            let v = before.voices@[i];
            let w = after.voices@[i];
            let hit = v.channel == channel && v.key == key && v.region_index is Some && v.env.state
                != EnvState::Idle;
            &&& !hit ==> w == v
            &&& hit && !before.sustain_pedal ==> w.env.state == EnvState::Released && w.sustaining
                == v.sustaining
            &&& hit && before.sustain_pedal ==> w.sustaining && w.env == v.env
            &&& w.region_index == v.region_index
            &&& w.channel == v.channel
            &&& w.key == v.key
            &&& w.velocity == v.velocity
            &&& w.age == v.age
        }),
{
}

/// The sustain pedal is controller 64 and is down from 64 on. Lifting it releases
/// exactly the voices that wait for it; pressing it, or moving it while it is up,
/// changes no voice. Controller 123 silences every voice and lifts the pedal. No
/// other controller does anything.
pub proof fn law_controllers_do_their_work<S>(
    before: Engine<S>,
    after: Engine<S>,
    cc: u8,
    value: u8,
    i: int,
)
    requires
        0 <= i < before.voices@.len(),
        engine::controller_moved(before, after, cc, value),
    ensures
        after.voices@.len() == before.voices@.len(),
        after.instrument == before.instrument,
        after.bend == before.bend,
        after.age_counter == before.age_counter,
        ({
            let v = before.voices@[i];
            let w = after.voices@[i];
            let lifted = cc == 64 && value < 64 && before.sustain_pedal;
            &&& cc == 64 ==> after.sustain_pedal == (value >= 64)
            &&& lifted && v.sustaining ==> {
                &&& !w.sustaining
                &&& v.env.state != EnvState::Idle ==> w.env.state == EnvState::Released
                &&& v.env.state == EnvState::Idle ==> w.env.state == EnvState::Idle
                &&& w.region_index == v.region_index
                &&& w.key == v.key && w.channel == v.channel && w.velocity == v.velocity
                &&& w.age == v.age
            }
            &&& cc == 64 && !(lifted && v.sustaining) ==> w == v
            &&& cc == 123 ==> {
                &&& !after.sustain_pedal
                &&& w.region_index is None
                &&& w.env.state == EnvState::Idle
                &&& !w.sustaining
            }
            &&& cc != 64 && cc != 123 ==> w == v && after.sustain_pedal == before.sustain_pedal
        }),
{
}

/// Over its whole way the bend follows the wheel step by step.
pub proof fn law_bend_follows_the_wheel(a: i16, b: i16)
    requires
        0 <= a <= 16383,
        0 <= b <= 16383,
    ensures
        engine::bend_of(b) - engine::bend_of(a) == b - a,
        engine::bend_of(8192) == 0,
{
}

/// A region answers to the keys from its lowest to its highest and to the
/// velocities from its lowest to its highest, the ends among them. Of the regions
/// that answer to a note the last plays it, and where one answers, one plays.
pub proof fn law_note_plays_the_last_region_in_range(
    regions: Seq<InstrumentRegion>,
    key: u8,
    velocity: u8,
    j: int,
)
    requires
        0 <= j < regions.len(),
    ensures
        ({
            let r = regions[j].region;
            let answers = r.lokey <= key && key <= r.hikey && r.lovel <= velocity && velocity
                <= r.hivel;
            match engine::matching_region(regions, key, velocity) {
                Some(k) => {
                    &&& k < regions.len()
                    &&& j > k ==> !answers
                    &&& j == k ==> answers
                },
                None => !answers,
            }
        }),
{
    engine::law_last_match_wins(regions, key, velocity);
}

/// Whether a voice makes no sound.
pub open spec fn is_silent(v: Voice) -> bool {
    v.region_index is None || v.env.state == EnvState::Idle
}

/// A new note takes the first silent voice. Only where all sound it takes a
/// released one, the first, and only where none is released the one whose note is
/// oldest.
pub proof fn law_new_note_spares_what_sounds(all: Seq<Voice>, i: int, j: int)
    requires
        voices::taken(all, i),
        0 <= j < all.len(),
    ensures
        0 <= i < all.len(),
        is_silent(all[j]) ==> is_silent(all[i]) && i <= j,
        all[j].env.state == EnvState::Released && !is_silent(all[i]) ==> all[i].env.state
            == EnvState::Released && i <= j,
        !is_silent(all[i]) && all[i].env.state != EnvState::Released ==> all[i].age <= all[j].age
            && (all[j].age == all[i].age ==> i <= j),
{
    let v = all[j];
    assert(v.slot().active == !is_silent(v));
    assert(all[i].slot().active == !is_silent(all[i]));
    if voices::some_silent(all) {
        let k = choose|k: int| 0 <= k < all.len() && !(#[trigger] all[k]).slot().active;
        assert(!all[i].slot().active);
        if j < i {
            assert(all[j].slot().active);
        }
    } else {
        assert(all[j].slot().active);
        assert(all[i].slot().active);
        if voices::some_released(all) {
            if j < i {
                assert(!all[j].slot().released);
            }
        } else {
            assert(!all[j].slot().released);
            if j < i {
                assert(all[i].slot().age < all[j].slot().age);
            }
        }
    }
}

/// The loop of a region: it ends where the region says, or with the sample where
/// the region says nothing or a frame beyond it, and it starts where the region
/// says, or at its last frame where that would be behind its end.
pub proof fn law_loop_lies_where_the_region_says(region: InstrumentRegion, frames: usize)
    requires
        0 < frames <= u64::MAX,
    ensures
        ({
            let b = engine::bounds_of(region, frames);
            let from = region.region.loop_start;
            let to = region.region.loop_end;
            &&& 0 < to <= frames ==> b.end == to
            &&& to == 0 || to > frames ==> b.end == frames
            &&& from < b.end ==> b.start == from
            &&& from >= b.end ==> b.start == b.end - 1
        }),
{
}

/// A sounding voice plays while there is a frame behind the one that it has come
/// to. At the end of its sample it goes back into the loop where its region loops
/// and its note is not released; otherwise it falls silent and lets its region go.
pub proof fn law_voice_plays_to_the_end_of_its_sample<S>(
    e: Engine<S>,
    v: Voice,
    position: usize,
    frames: usize,
)
    requires
        v.region_index matches Some(k) && k < e.instrument.regions@.len(),
        v.env.state != EnvState::Idle,
    ensures
        ({
            let region = e.instrument.regions@[v.region_index->0 as int];
            let (step, w) = engine::frame_begun(e, v, position, frames);
            let held = region.region.loop_mode == LoopMode::LoopContinuous && v.env.state
                != EnvState::Released;
            &&& position + 1 < frames ==> step == FrameStep::Play && w == v
            &&& position + 1 >= frames && held ==> {
                &&& step == FrameStep::PlayFromLoop(engine::bounds_of(region, frames))
                &&& w == v
            }
            &&& position + 1 >= frames && !held ==> {
                &&& step == FrameStep::Silent
                &&& w.region_index is None
                &&& w.env.state == EnvState::Idle
                &&& w.age == v.age
            }
        }),
{
}

/// A voice without a region, or whose envelope has run out, plays nothing and
/// holds no region afterwards.
pub proof fn law_silent_voice_stays_silent<S>(
    e: Engine<S>,
    v: Voice,
    position: usize,
    frames: usize,
)
    requires
        is_silent(v),
    ensures
        engine::frame_begun(e, v, position, frames).0 == FrameStep::Silent,
        engine::frame_begun(e, v, position, frames).1.region_index is None,
        engine::frame_begun(e, v, position, frames).1.env == v.env,
{
}

// ---------------------------------------------------------------------------
// What each opcode is for
// ---------------------------------------------------------------------------

/// Whether two texts that may be missing are both missing or the same.
pub open spec fn same_words(a: Option<String>, b: Option<String>) -> bool {
    match (a, b) {
        (Some(x), Some(y)) => x@ == y@,
        (None, None) => true,
        _ => false,
    }
}

/// Whether a text is there and reads so.
pub open spec fn says(a: Option<String>, words: Seq<char>) -> bool {
    a matches Some(x) && x@ == words
}

/// Keys and velocities: a readable value reaches the field of its opcode, `key`
/// all three fields for keys. A velocity counts as 127 at most.
pub proof fn law_opcodes_set_keys_and_velocities(
    before: Region,
    after: Region,
    key: Seq<char>,
    value: Seq<char>,
    base: Seq<char>,
    default_path: Option<Seq<char>>,
)
    requires
        after@ == file::opcode_applied(before@, key, value, base, default_path),
    ensures
        values::note_value(value) matches Some(n) ==> {
            &&& key == "lokey"@ || key == "key"@ ==> after.lokey == n
            &&& key == "hikey"@ || key == "key"@ ==> after.hikey == n
            &&& key == "pitch_keycenter"@ || key == "key"@ ==> after.pitch_keycenter == n
        },
        values::u8_value(value) matches Some(n) ==> {
            &&& key == "lovel"@ && n <= 127 ==> after.lovel == n
            &&& key == "lovel"@ && n > 127 ==> after.lovel == 127
            &&& key == "hivel"@ && n <= 127 ==> after.hivel == n
            &&& key == "hivel"@ && n > 127 ==> after.hivel == 127
        },
        key != "lokey"@ && key != "key"@ ==> after.lokey == before.lokey,
        key != "hikey"@ && key != "key"@ ==> after.hikey == before.hikey,
        key != "pitch_keycenter"@ && key != "key"@ ==> after.pitch_keycenter
            == before.pitch_keycenter,
        key != "lovel"@ ==> after.lovel == before.lovel,
        key != "hivel"@ ==> after.hivel == before.hivel,
{
    lemma_opcode_names_differ();
}

/// Levels, pitch and envelope: a readable value reaches the field of its opcode
/// and no other.
pub proof fn law_opcodes_set_levels_and_times(
    before: Region,
    after: Region,
    key: Seq<char>,
    value: Seq<char>,
    base: Seq<char>,
    default_path: Option<Seq<char>>,
)
    requires
        after@ == file::opcode_applied(before@, key, value, base, default_path),
    ensures
        values::is_real(value) ==> {
            &&& key == "volume"@ ==> says(after.volume_db, value)
            &&& key == "pan"@ ==> says(after.pan, value)
            &&& key == "tune"@ ==> says(after.tune_cents, value)
            &&& key == "ampeg_attack"@ ==> says(after.ampeg_attack_secs, value)
            &&& key == "ampeg_decay"@ ==> says(after.ampeg_decay_secs, value)
            &&& key == "ampeg_sustain"@ ==> says(after.ampeg_sustain, value)
            &&& key == "ampeg_release"@ ==> says(after.ampeg_release_secs, value)
        },
        values::i8_value(value) matches Some(n) ==> key == "transpose"@
            ==> after.transpose_semitones == n,
        key != "volume"@ ==> same_words(after.volume_db, before.volume_db),
        key != "pan"@ ==> same_words(after.pan, before.pan),
        key != "tune"@ ==> same_words(after.tune_cents, before.tune_cents),
        key != "transpose"@ ==> after.transpose_semitones == before.transpose_semitones,
        key != "ampeg_attack"@ ==> same_words(after.ampeg_attack_secs, before.ampeg_attack_secs),
        key != "ampeg_decay"@ ==> same_words(after.ampeg_decay_secs, before.ampeg_decay_secs),
        key != "ampeg_sustain"@ ==> same_words(after.ampeg_sustain, before.ampeg_sustain),
        key != "ampeg_release"@ ==> same_words(
            after.ampeg_release_secs,
            before.ampeg_release_secs,
        ),
{
    lemma_opcode_names_differ();
}

/// Sample and loop: a readable value reaches the field of its opcode and no
/// other. A loop mode is read in letters of any size, and any other word for it
/// stands for no loop.
pub proof fn law_opcodes_set_sample_and_loop(
    before: Region,
    after: Region,
    key: Seq<char>,
    value: Seq<char>,
    base: Seq<char>,
    default_path: Option<Seq<char>>,
)
    requires
        after@ == file::opcode_applied(before@, key, value, base, default_path),
    ensures
        values::u64_value(value) matches Some(n) ==> {
            &&& key == "loop_start"@ ==> after.loop_start == n
            &&& key == "loop_end"@ ==> after.loop_end == n
        },
        key == "loop_mode"@ ==> {
            &&& value == "loop_continuous"@ ==> after.loop_mode == LoopMode::LoopContinuous
            &&& value == "one_shot"@ ==> after.loop_mode == LoopMode::OneShot
            &&& value == "no_loop"@ ==> after.loop_mode == LoopMode::NoLoop
            &&& value.len() != 15 && value.len() != 8 ==> after.loop_mode == LoopMode::NoLoop
        },
        key != "loop_mode"@ ==> after.loop_mode == before.loop_mode,
        key != "loop_start"@ ==> after.loop_start == before.loop_start,
        key != "loop_end"@ ==> after.loop_end == before.loop_end,
        key != "sample"@ ==> after.sample@ == before.sample@,
{
    lemma_opcode_names_differ();
    reveal_strlit("loop_continuous");
    reveal_strlit("one_shot");
    reveal_strlit("no_loop");
    assert(lexer::lowered("loop_continuous"@) =~= "loop_continuous"@);
    assert(lexer::lowered("one_shot"@) =~= "one_shot"@);
    assert("loop_continuous"@.len() == 15 && "one_shot"@.len() == 8 && "no_loop"@.len() == 7);
}

/// What tells the names of the opcodes apart.
proof fn lemma_opcode_names_differ()
    ensures
        "sample"@.len() == 6 && "sample"@[0] == 's',
        "lokey"@.len() == 5 && "lokey"@[0] == 'l' && "lokey"@[2] == 'k',
        "hikey"@.len() == 5 && "hikey"@[0] == 'h' && "hikey"@[2] == 'k',
        "key"@.len() == 3 && "key"@[0] == 'k',
        "pitch_keycenter"@.len() == 15,
        "lovel"@.len() == 5 && "lovel"@[0] == 'l' && "lovel"@[2] == 'v',
        "hivel"@.len() == 5 && "hivel"@[0] == 'h' && "hivel"@[2] == 'v',
        "volume"@.len() == 6 && "volume"@[0] == 'v',
        "pan"@.len() == 3 && "pan"@[0] == 'p',
        "tune"@.len() == 4,
        "transpose"@.len() == 9 && "transpose"@[0] == 't',
        "ampeg_attack"@.len() == 12,
        "ampeg_decay"@.len() == 11,
        "ampeg_sustain"@.len() == 13 && "ampeg_sustain"@[6] == 's',
        "ampeg_release"@.len() == 13 && "ampeg_release"@[6] == 'r',
        "loop_mode"@.len() == 9 && "loop_mode"@[0] == 'l',
        "loop_start"@.len() == 10,
        "loop_end"@.len() == 8,
{
    reveal_strlit("sample");
    reveal_strlit("lokey");
    reveal_strlit("hikey");
    reveal_strlit("key");
    reveal_strlit("pitch_keycenter");
    reveal_strlit("lovel");
    reveal_strlit("hivel");
    reveal_strlit("volume");
    reveal_strlit("pan");
    reveal_strlit("tune");
    reveal_strlit("transpose");
    reveal_strlit("ampeg_attack");
    reveal_strlit("ampeg_decay");
    reveal_strlit("ampeg_sustain");
    reveal_strlit("ampeg_release");
    reveal_strlit("loop_mode");
    reveal_strlit("loop_start");
    reveal_strlit("loop_end");
}

/// A text with every backslash turned round.
pub open spec fn turned_round(s: Seq<char>) -> Seq<char> {
    Seq::new(
        s.len(),
        |i: int|
            if s[i] == '\\' {
                '/'
            } else {
                s[i]
            },
    )
}

/// A path put behind a directory, with one slash between them. A path from the
/// root stands alone.
pub open spec fn put_behind(dir: Seq<char>, path: Seq<char>) -> Seq<char> {
    if path.len() > 0 && path[0] == '/' {
        path
    } else if dir.len() == 0 || dir[dir.len() - 1] == '/' {
        dir + path
    } else {
        dir.push('/') + path
    }
}

/// A sample is looked for below the directory of its file, or below the default
/// path in it where the file names one. A sample from the root is looked for
/// there. Backslashes count as slashes.
pub proof fn law_sample_lies_below_its_file(
    before: Region,
    after: Region,
    value: Seq<char>,
    base: Seq<char>,
    default_path: Option<Seq<char>>,
)
    requires
        after@ == file::opcode_applied(before@, "sample"@, value, base, default_path),
    ensures
        default_path is None ==> after.sample@ == put_behind(base, turned_round(value)),
        default_path matches Some(rel) ==> after.sample@ == put_behind(
            put_behind(base, turned_round(rel)),
            turned_round(value),
        ),
{
    reveal_strlit("/");
    assert(file::slashed(value) =~= turned_round(value));
    assert(base + "/"@ =~= base.push('/'));
    if let Some(rel) = default_path {
        assert(file::slashed(rel) =~= turned_round(rel));
        let dir = put_behind(base, turned_round(rel));
        assert(dir + "/"@ =~= dir.push('/'));
    }
}

// ---------------------------------------------------------------------------
// Numbers and notes
// ---------------------------------------------------------------------------

/// Whether a character is one of the ten digits.
pub open spec fn is_numeric(c: char) -> bool {
    '0' as u32 <= c as u32 <= '9' as u32
}

/// Whether a text is made of digits.
pub open spec fn only_digits(s: Seq<char>) -> bool {
    s.len() > 0 && forall|i: int| 0 <= i < s.len() ==> is_numeric(#[trigger] s[i])
}

/// What digits stand for, in tens.
pub open spec fn numeral(s: Seq<char>) -> nat
    decreases s.len(),
{
    if s.len() == 0 {
        0
    } else {
        (10 * numeral(s.drop_last()) + (s.last() as u32 - '0' as u32)) as nat
    }
}

proof fn lemma_digits(s: Seq<char>)
    ensures
        values::digits_value(s) == if only_digits(s) {
            Some(numeral(s))
        } else {
            None
        },
    decreases s.len(),
{
    if s.len() > 0 {
        let rest = s.drop_last();
        lemma_digits(rest);
        assert(s.last() == s[s.len() - 1]);
        if only_digits(s) && s.len() > 1 {
            assert forall|i: int| 0 <= i < rest.len() implies is_numeric(#[trigger] rest[i]) by {
                assert(rest[i] == s[i]);
            }
        }
        if s.len() > 1 && only_digits(rest) && values::is_digit(s.last()) {
            assert forall|i: int| 0 <= i < s.len() implies is_numeric(#[trigger] s[i]) by {
                if i < rest.len() {
                    assert(rest[i] == s[i]);
                }
            }
        }
        if s.len() == 1 {
            assert(numeral(rest) == 0);
            assert(only_digits(s) == values::is_digit(s[0]));
        }
    }
}

/// The text behind a sign, where one stands at the front.
pub open spec fn behind(s: Seq<char>, sign: char) -> Seq<char> {
    if s.len() > 0 && s[0] == sign {
        s.skip(1)
    } else {
        s
    }
}

/// Natural numbers are read as digits in tens, with a plus sign before them or
/// not, as far as they fit; nothing else is read.
pub proof fn law_natural_numbers_are_read(s: Seq<char>)
    ensures
        ({
            let d = behind(s, '+');
            &&& only_digits(d) && numeral(d) <= 255 ==> values::u8_value(s) == Some(
                numeral(d) as u8,
            )
            &&& !(only_digits(d) && numeral(d) <= 255) ==> values::u8_value(s) is None
            &&& only_digits(d) && numeral(d) <= u64::MAX ==> values::u64_value(s) == Some(
                numeral(d) as u64,
            )
            &&& !(only_digits(d) && numeral(d) <= u64::MAX) ==> values::u64_value(s) is None
        }),
{
    lemma_digits(behind(s, '+'));
}

/// Integers are read as digits in tens, with a sign before them or not, as far as
/// they fit; nothing else is read.
pub proof fn law_integers_are_read(s: Seq<char>)
    ensures
        s.len() > 0 && s[0] == '-' ==> values::int_value(s) == if only_digits(s.skip(1)) {
            Some(0 - numeral(s.skip(1)))
        } else {
            None
        },
        !(s.len() > 0 && s[0] == '-') ==> values::int_value(s) == if only_digits(behind(s, '+')) {
            Some(numeral(behind(s, '+')) as int)
        } else {
            None
        },
        values::int_value(s) matches Some(n) ==> values::i8_value(s) == if -128 <= n <= 127 {
            Some(n as i8)
        } else {
            None
        },
        values::int_value(s) is None ==> values::i8_value(s) is None,
{
    lemma_digits(behind(s, '+'));
    if s.len() > 0 {
        lemma_digits(s.skip(1));
    }
}

/// Whether a character is a printed one of ASCII.
pub open spec fn is_printed(c: char) -> bool {
    0x21 <= c as u32 <= 0x7e
}

/// Whether a text has white space at neither end.
pub open spec fn is_trim(s: Seq<char>) -> bool {
    s.len() > 0 && is_printed(s[0]) && is_printed(s[s.len() - 1])
}

proof fn lemma_trim_is_kept(s: Seq<char>)
    requires
        is_trim(s),
    ensures
        lexer::trimmed(s) == s,
{
}

/// A number from 0 to 127 is the note with that number; no other number is a
/// note.
pub proof fn law_note_numbers_are_read(s: Seq<char>)
    requires
        is_trim(s),
        values::int_value(s) is Some,
    ensures
        values::note_value(s) == if 0 <= values::int_value(s)->0 <= 127 {
            Some(values::int_value(s)->0 as u8)
        } else {
            None
        },
{
    lemma_trim_is_kept(s);
}

/// How often a character stands in a text.
pub open spec fn times_in(s: Seq<char>, c: char) -> nat
    decreases s.len(),
{
    if s.len() == 0 {
        0
    } else {
        times_in(s.drop_last(), c) + if s.last() == c {
            1nat
        } else {
            0nat
        }
    }
}

/// Whether a text is made of sharps and flats.
pub open spec fn only_accidentals(s: Seq<char>) -> bool {
    forall|i: int| 0 <= i < s.len() ==> #[trigger] s[i] == '#' || s[i] == 'b'
}

proof fn lemma_accidentals(acc: Seq<char>, rest: Seq<char>)
    requires
        only_accidentals(acc),
        rest.len() > 0,
        rest[0] != '#',
        rest[0] != 'b',
    ensures
        values::accidentals(acc + rest) == acc.len(),
    decreases acc.len(),
{
    let all = acc + rest;
    if acc.len() > 0 {
        let tail = acc.skip(1);
        assert forall|i: int| 0 <= i < tail.len() implies #[trigger] tail[i] == '#' || tail[i]
            == 'b' by {
            assert(tail[i] == acc[i + 1]);
        }
        lemma_accidentals(tail, rest);
        assert(all[0] == acc[0]);
        assert(all.skip(1) =~= tail + rest);
    } else {
        assert(all =~= rest);
    }
}

proof fn lemma_accidental_sum(acc: Seq<char>)
    requires
        only_accidentals(acc),
    ensures
        values::accidental_sum(acc) == times_in(acc, '#') - times_in(acc, 'b'),
    decreases acc.len(),
{
    if acc.len() > 0 {
        let rest = acc.drop_last();
        assert forall|i: int| 0 <= i < rest.len() implies #[trigger] rest[i] == '#' || rest[i]
            == 'b' by {
            assert(rest[i] == acc[i]);
        }
        lemma_accidental_sum(rest);
        assert(acc[acc.len() - 1] == acc.last());
    }
}

/// A note name is a letter, any sharps and flats, and an octave. In one octave
/// the letters from C to B lie 0, 2, 4, 5, 7, 9 and 11 semitones above C, whatever
/// their size; a sharp is a semitone more and a flat one less; an octave is twelve
/// semitones, and the fourth begins at note 60. Beyond 0 to 127 there are no
/// notes.
pub proof fn law_note_names_are_read(
    letter: char,
    above: int,
    acc: Seq<char>,
    octave: Seq<char>,
    n: int,
)
    requires
        ({
            ||| (letter == 'c' || letter == 'C') && above == 0
            ||| (letter == 'd' || letter == 'D') && above == 2
            ||| (letter == 'e' || letter == 'E') && above == 4
            ||| (letter == 'f' || letter == 'F') && above == 5
            ||| (letter == 'g' || letter == 'G') && above == 7
            ||| (letter == 'a' || letter == 'A') && above == 9
            ||| (letter == 'b' || letter == 'B') && above == 11
        }),
        only_accidentals(acc),
        values::int_value(octave) == Some(n),
    ensures
        ({
            let name = seq![letter] + acc + octave;
            let note = 60 + 12 * (n - 4) + above + times_in(acc, '#') - times_in(acc, 'b');
            &&& values::named_note(name) == if 0 <= note <= 127 {
                Some(note as u8)
            } else {
                None
            }
            &&& values::note_value(name) == values::named_note(name)
        }),
{
    let name = seq![letter] + acc + octave;
    law_integers_are_read(octave);
    assert(octave.len() > 0);
    assert(octave[0] == '-' || octave[0] == '+' || is_numeric(octave[0])) by {
        if octave[0] != '-' && octave[0] != '+' {
            assert(behind(octave, '+') == octave);
        }
    }
    lemma_accidentals(acc, octave);
    lemma_accidental_sum(acc);
    assert(name.skip(1) =~= acc + octave);
    assert(name.skip(1 + acc.len() as int) =~= octave);
    assert(name.subrange(1, 1 + acc.len() as int) =~= acc);
    assert(name[0] == letter);
    let last = octave[octave.len() - 1];
    assert(name[name.len() - 1] == last);
    assert(is_numeric(last)) by {
        if octave[0] == '-' || octave[0] == '+' {
            let d = octave.skip(1);
            assert(only_digits(d));
            assert(d[d.len() - 1] == last);
        } else {
            assert(only_digits(octave));
        }
    }
    lemma_trim_is_kept(name);
    law_integers_are_read(name);
    assert(values::int_value(name) is None) by {
        assert(behind(name, '+') == name);
        assert(!only_digits(name)) by {
            assert(!(is_numeric(name[0])));
        }
    }
}

/// A text that begins with a letter behind G, or with a mark, is no note.
pub proof fn law_other_words_are_no_notes(s: Seq<char>)
    requires
        is_trim(s),
        s[0] != '+' && s[0] != '-' && !(is_numeric(s[0])),
        s[0] as u32 > 'g' as u32 || 'A' as u32 > s[0] as u32,
    ensures
        values::note_value(s) is None,
{
    lemma_trim_is_kept(s);
    law_integers_are_read(s);
    assert(!only_digits(s)) by {
        assert(!(is_numeric(s[0])));
    }
}

// ---------------------------------------------------------------------------
// Real numbers
// ---------------------------------------------------------------------------

/// Whether a text is nothing or a sign.
pub open spec fn maybe_sign(s: Seq<char>) -> bool {
    s == Seq::<char>::empty() || s == seq!['+'] || s == seq!['-']
}

/// Whether a text is nothing or made of digits.
pub open spec fn maybe_digits(s: Seq<char>) -> bool {
    s.len() == 0 || only_digits(s)
}

/// Whether a text is nothing or an exponent made of these parts.
pub open spec fn maybe_exponent(s: Seq<char>, e: char, sign: Seq<char>, digits: Seq<char>) -> bool {
    s.len() == 0 || ((e == 'e' || e == 'E') && maybe_sign(sign) && only_digits(digits) && s
        == seq![e] + sign + digits)
}

proof fn lemma_digit_run(digits: Seq<char>, rest: Seq<char>)
    requires
        maybe_digits(digits),
        rest.len() == 0 || !(is_numeric(rest[0])),
    ensures
        values::digit_run(digits + rest) == digits.len(),
    decreases digits.len(),
{
    let all = digits + rest;
    if digits.len() > 0 {
        let tail = digits.skip(1);
        assert forall|i: int| 0 <= i < tail.len() implies is_numeric(#[trigger] tail[i]) by {
            assert(tail[i] == digits[i + 1]);
        }
        lemma_digit_run(tail, rest);
        assert(all[0] == digits[0]);
        assert(all.skip(1) =~= tail + rest);
    } else {
        assert(all =~= rest);
    }
}

proof fn lemma_exponent(s: Seq<char>, e: char, sign: Seq<char>, digits: Seq<char>)
    requires
        maybe_exponent(s, e, sign, digits),
    ensures
        values::is_exponent(s),
        s.len() > 0 ==> s[0] == 'e' || s[0] == 'E',
{
    if s.len() > 0 {
        let behind_e = s.skip(1);
        assert(behind_e =~= sign + digits);
        assert(values::without_sign(behind_e) =~= digits) by {
            if sign.len() == 0 {
                assert(behind_e[0] == digits[0]);
            } else {
                assert(behind_e[0] == sign[0]);
                assert(behind_e.skip(1) =~= digits);
            }
        }
        lemma_digit_run(digits, Seq::empty());
        assert(digits + Seq::<char>::empty() =~= digits);
    }
}

/// A text made of a sign or none, digits, a dot with further digits or none, and
/// an exponent or none stands for a real number, as long as there is a digit
/// before or behind the dot.
pub proof fn law_decimal_numbers_are_real(
    sign: Seq<char>,
    whole: Seq<char>,
    dot: bool,
    fraction: Seq<char>,
    exponent: Seq<char>,
    e: char,
    e_sign: Seq<char>,
    e_digits: Seq<char>,
)
    requires
        maybe_sign(sign),
        maybe_digits(whole),
        maybe_digits(fraction),
        !dot ==> fraction.len() == 0,
        whole.len() + fraction.len() > 0,
        maybe_exponent(exponent, e, e_sign, e_digits),
    ensures
        values::is_real(
            sign + whole + (if dot {
                seq!['.']
            } else {
                Seq::empty()
            }) + fraction + exponent,
        ),
{
    let point = if dot {
        seq!['.']
    } else {
        Seq::<char>::empty()
    };
    let s = sign + whole + point + fraction + exponent;
    let t = whole + point + fraction + exponent;
    let rest = point + fraction + exponent;
    lemma_exponent(exponent, e, e_sign, e_digits);
    assert(values::without_sign(s) =~= t) by {
        if sign.len() == 0 {
            assert(s =~= t);
            if whole.len() > 0 {
                assert(t[0] == whole[0]);
            } else {
                assert(dot);
                assert(t[0] == '.');
            }
        } else {
            assert(s[0] == sign[0]);
            assert(s.skip(1) =~= t);
        }
    }
    assert(t =~= whole + rest);
    if dot {
        assert(rest[0] == '.');
    } else {
        assert(rest =~= exponent);
    }
    lemma_digit_run(whole, rest);
    assert(t.skip(whole.len() as int) =~= rest);
    if dot {
        lemma_digit_run(fraction, exponent);
        assert(rest.skip(1) =~= fraction + exponent);
        assert(rest.skip(1 + fraction.len() as int) =~= exponent);
    }
}

/// Whether a text is a word for the infinite or for what is no number, in letters of any
/// size.
pub open spec fn is_word_for_real(w: Seq<char>) -> bool {
    lexer::lowered(w) == "inf"@ || lexer::lowered(w) == "infinity"@ || lexer::lowered(w) == "nan"@
}

/// The infinite and what is no number are written as words, with a sign or none.
pub proof fn law_words_for_reals(w: Seq<char>, sign: Seq<char>)
    requires
        is_word_for_real(w),
        maybe_sign(sign),
    ensures
        values::is_real(sign + w),
{
    reveal_strlit("inf");
    reveal_strlit("infinity");
    reveal_strlit("nan");
    assert(lexer::lowered(w).len() == w.len());
    law_capitals_become_small(w, 0);
    let all = sign + w;
    if sign.len() == 0 {
        assert(all =~= w);
    } else {
        assert(all[0] == sign[0]);
        assert(all.skip(1) =~= w);
    }
    assert(values::without_sign(all) == w);
}

proof fn lemma_digit_run_is_digits(s: Seq<char>)
    ensures
        values::digit_run(s) <= s.len(),
        forall|i: int| 0 <= i < values::digit_run(s) ==> is_numeric(#[trigger] s[i]),
    decreases s.len(),
{
    if s.len() > 0 && values::is_digit(s[0]) {
        lemma_digit_run_is_digits(s.skip(1));
        assert forall|i: int| 0 <= i < values::digit_run(s) implies is_numeric(#[trigger] s[i]) by {
            if i > 0 {
                assert(s.skip(1)[i - 1] == s[i]);
            }
        }
    }
}

/// The parts of a text that stands for a real number.
pub ghost struct RealParts {
    pub sign: Seq<char>,
    pub whole: Seq<char>,
    pub dot: bool,
    pub fraction: Seq<char>,
    pub exponent: Seq<char>,
    pub e: char,
    pub e_sign: Seq<char>,
    pub e_digits: Seq<char>,
}

/// What stands before the rest of a text without its sign.
spec fn sign_of(s: Seq<char>) -> Seq<char> {
    s.take(s.len() - values::without_sign(s).len())
}

proof fn lemma_sign_and_rest(s: Seq<char>)
    ensures
        maybe_sign(sign_of(s)),
        s == sign_of(s) + values::without_sign(s),
        s.skip(sign_of(s).len() as int) == values::without_sign(s),
{
    let t = values::without_sign(s);
    assert(s.skip(sign_of(s).len() as int) =~= t);
    assert(s =~= sign_of(s) + t);
    if sign_of(s).len() > 0 {
        assert(sign_of(s) =~= seq![s[0]]);
    } else {
        assert(sign_of(s) =~= Seq::empty());
    }
}

proof fn lemma_exponent_parts(s: Seq<char>)
    requires
        values::is_exponent(s),
    ensures
        maybe_exponent(s, s[0], sign_of(s.skip(1)), values::without_sign(s.skip(1))),
{
    if s.len() > 0 {
        let digits = values::without_sign(s.skip(1));
        lemma_sign_and_rest(s.skip(1));
        lemma_digit_run_is_digits(digits);
        assert(s =~= seq![s[0]] + s.skip(1));
        assert(s =~= seq![s[0]] + sign_of(s.skip(1)) + digits);
    }
}

proof fn lemma_digits_and_rest(s: Seq<char>)
    ensures
        values::digit_run(s) <= s.len(),
        maybe_digits(s.take(values::digit_run(s) as int)),
        s == s.take(values::digit_run(s) as int) + s.skip(values::digit_run(s) as int),
{
    lemma_digit_run_is_digits(s);
    assert(s =~= s.take(values::digit_run(s) as int) + s.skip(values::digit_run(s) as int));
}

/// What parts make up when they are set behind one another.
pub open spec fn parts_text(p: RealParts) -> Seq<char> {
    p.sign + (p.whole + (if p.dot {
        seq!['.']
    } else {
        Seq::empty()
    }) + p.fraction + p.exponent)
}

/// Whether parts make up a number: there is a digit before or behind the dot, and the
/// exponent, where there is one, has digits.
pub open spec fn parts_make_a_number(p: RealParts) -> bool {
    &&& maybe_sign(p.sign)
    &&& maybe_digits(p.whole)
    &&& maybe_digits(p.fraction)
    &&& !p.dot ==> p.fraction.len() == 0
    &&& p.whole.len() + p.fraction.len() > 0
    &&& maybe_exponent(p.exponent, p.e, p.e_sign, p.e_digits)
}

#[verifier::spinoff_prover]
proof fn lemma_decimal_parts(t: Seq<char>, sign: Seq<char>) -> (p: RealParts)
    requires
        values::is_decimal(t),
        maybe_sign(sign),
    ensures
        p.sign == sign,
        parts_make_a_number(p),
        parts_text(p) == sign + t,
{
    let whole = t.take(values::digit_run(t) as int);
    let rest = t.skip(values::digit_run(t) as int);
    lemma_digits_and_rest(t);
    if rest.len() > 0 && rest[0] == '.' {
        let behind = rest.skip(1);
        let fraction = behind.take(values::digit_run(behind) as int);
        let exponent = behind.skip(values::digit_run(behind) as int);
        lemma_digits_and_rest(behind);
        assert(rest.skip(1 + values::digit_run(behind) as int) =~= exponent);
        lemma_exponent_parts(exponent);
        assert(t =~= whole + seq!['.'] + fraction + exponent);
        RealParts {
            sign,
            whole,
            dot: true,
            fraction,
            exponent,
            e: exponent[0],
            e_sign: sign_of(exponent.skip(1)),
            e_digits: values::without_sign(exponent.skip(1)),
        }
    } else {
        let none = Seq::<char>::empty();
        lemma_exponent_parts(rest);
        assert(t =~= whole + none + none + rest);
        RealParts {
            sign,
            whole,
            dot: false,
            fraction: none,
            exponent: rest,
            e: rest[0],
            e_sign: sign_of(rest.skip(1)),
            e_digits: values::without_sign(rest.skip(1)),
        }
    }
}

/// No text but such a number, or such a word with a sign or none, stands for a real
/// number. Gives the parts of the number where the text is no word.
#[verifier::spinoff_prover]
pub proof fn law_other_texts_are_not_real(s: Seq<char>) -> (p: RealParts)
    requires
        values::is_real(s),
        !is_word_for_real(s),
        s.len() > 0 && maybe_sign(s.take(1)) ==> !is_word_for_real(s.skip(1)),
    ensures
        parts_make_a_number(p),
        parts_text(p) == s,
{
    lemma_sign_and_rest(s);
    let t = values::without_sign(s);
    if t != s {
        assert(s.take(1) =~= seq![s[0]]);
    }
    assert(!is_word_for_real(t));
    lemma_decimal_parts(t, sign_of(s))
}

/// A text that stands for a real number has a digit in it, or is one of the words
/// for the infinite and for what is no number; and it has no white space.
pub proof fn law_real_texts_hold_a_digit(s: Seq<char>)
    requires
        values::is_real(s),
    ensures
        (exists|i: int| 0 <= i < s.len() && is_numeric(#[trigger] s[i])) || 3 <= s.len() <= 9,
        s.len() > 0,
        s[0] != '+' && s[0] != '-' ==> is_numeric(s[0]) || s[0] == '.' || s[0] as u32 == 'i' as u32
            || s[0] as u32 == 'I' as u32 || s[0] as u32 == 'n' as u32 || s[0] as u32 == 'N' as u32,
{
    reveal_strlit("inf");
    reveal_strlit("infinity");
    reveal_strlit("nan");
    let t = values::without_sign(s);
    let word = lexer::lowered(t);
    assert(word.len() == t.len());
    if word == "inf"@ || word == "infinity"@ || word == "nan"@ {
        assert(word[0] == lexer::small(t[0]));
    } else {
        let whole = values::digit_run(t);
        let rest = t.skip(whole as int);
        lemma_digit_run_is_digits(t);
        if rest.len() > 0 && rest[0] == '.' {
            lemma_digit_run_is_digits(rest.skip(1));
            if whole > 0 {
                assert(is_numeric(t[0]));
                assert(s[s.len() - t.len()] == t[0]);
            } else {
                let k = rest.skip(1)[0];
                assert(is_numeric(k));
                assert(t[1] == k);
                assert(s[s.len() - t.len() + 1] == k);
            }
        } else {
            assert(is_numeric(t[0]));
            assert(s[s.len() - t.len()] == t[0]);
        }
    }
}

// ---------------------------------------------------------------------------
// Regions and their opcodes
// ---------------------------------------------------------------------------

/// A region of which nothing is said has no sample, answers to every key and
/// every velocity, counts as recorded at C4, is not transposed and does not loop.
pub proof fn law_plain_region_answers_to_all()
    ensures
        ({
            let r = file::plain_region();
            &&& r.sample.len() == 0
            &&& r.lokey == 0 && r.hikey == 127
            &&& r.lovel == 0 && r.hivel == 127
            &&& Some(r.pitch_keycenter) == values::named_note(seq!['c', '4'])
            &&& r.transpose_semitones == 0
            &&& r.loop_mode == LoopMode::NoLoop
            &&& r.loop_start == 0 && r.loop_end == 0
            &&& r.volume_db is None && r.pan is None && r.tune_cents is None
            &&& r.ampeg_attack_secs is None && r.ampeg_decay_secs is None
            &&& r.ampeg_sustain is None && r.ampeg_release_secs is None
        }),
{
    let four = seq!['4'];
    assert(only_digits(four));
    assert(numeral(four.drop_last()) == 0);
    assert(numeral(four) == 4);
    law_integers_are_read(four);
    assert(behind(four, '+') == four);
    let none = Seq::<char>::empty();
    law_note_names_are_read('c', 0, none, four, 4);
    assert(seq!['c'] + none + four =~= seq!['c', '4']);
}

/// Whether two regions agree in the field of an opcode that has one of its own.
pub open spec fn agree_in(key: Seq<char>, a: RegionModel, b: RegionModel) -> bool {
    &&& key == "sample"@ ==> a.sample == b.sample
    &&& key == "lovel"@ ==> a.lovel == b.lovel
    &&& key == "hivel"@ ==> a.hivel == b.hivel
    &&& key == "volume"@ ==> a.volume_db == b.volume_db
    &&& key == "pan"@ ==> a.pan == b.pan
    &&& key == "tune"@ ==> a.tune_cents == b.tune_cents
    &&& key == "transpose"@ ==> a.transpose_semitones == b.transpose_semitones
    &&& key == "ampeg_attack"@ ==> a.ampeg_attack_secs == b.ampeg_attack_secs
    &&& key == "ampeg_decay"@ ==> a.ampeg_decay_secs == b.ampeg_decay_secs
    &&& key == "ampeg_sustain"@ ==> a.ampeg_sustain == b.ampeg_sustain
    &&& key == "ampeg_release"@ ==> a.ampeg_release_secs == b.ampeg_release_secs
    &&& key == "loop_mode"@ ==> a.loop_mode == b.loop_mode
    &&& key == "loop_start"@ ==> a.loop_start == b.loop_start
    &&& key == "loop_end"@ ==> a.loop_end == b.loop_end
}

/// An opcode does not touch the field of another.
proof fn lemma_other_opcode(
    r: RegionModel,
    key: Seq<char>,
    other: Seq<char>,
    value: Seq<char>,
    base: Seq<char>,
    default_path: Option<Seq<char>>,
)
    requires
        other != key,
    ensures
        agree_in(key, file::opcode_applied(r, other, value, base, default_path), r),
{
    lemma_opcode_names_differ();
}

/// What an opcode makes of its field rests on the field alone.
proof fn lemma_same_opcode(
    a: RegionModel,
    b: RegionModel,
    key: Seq<char>,
    value: Seq<char>,
    base: Seq<char>,
    default_path: Option<Seq<char>>,
)
    requires
        agree_in(key, a, b),
    ensures
        agree_in(
            key,
            file::opcode_applied(a, key, value, base, default_path),
            file::opcode_applied(b, key, value, base, default_path),
        ),
{
    lemma_opcode_names_differ();
}

/// Whether no opcode is in a bag twice.
pub open spec fn each_once(bag: Bag) -> bool {
    forall|i: int, j: int| 0 <= i < j < bag.len() ==> (#[trigger] bag[i]).0 != (#[trigger] bag[j]).0
}

/// A field with an opcode of its own is what that opcode alone makes of it, or as
/// in a plain region where the opcode is not set.
pub proof fn law_field_is_what_its_opcode_says(
    bag: Bag,
    key: Seq<char>,
    base: Seq<char>,
    default_path: Option<Seq<char>>,
)
    requires
        each_once(bag),
    ensures
        (forall|i: int| 0 <= i < bag.len() ==> (#[trigger] bag[i]).0 != key) ==> agree_in(
            key,
            file::bag_applied(bag, base, default_path),
            file::plain_region(),
        ),
        forall|i: int|
            0 <= i < bag.len() && (#[trigger] bag[i]).0 == key ==> agree_in(
                key,
                file::bag_applied(bag, base, default_path),
                file::opcode_applied(file::plain_region(), key, bag[i].1, base, default_path),
            ),
    decreases bag.len(),
{
    if bag.len() > 0 {
        let rest = bag.drop_last();
        let last = bag.last();
        let r = file::bag_applied(rest, base, default_path);
        let all = file::bag_applied(bag, base, default_path);
        let plain = file::plain_region();
        assert forall|i: int, j: int| 0 <= i < j < rest.len() implies (#[trigger] rest[i]).0 != (
        #[trigger] rest[j]).0 by {
            assert(rest[i] == bag[i] && rest[j] == bag[j]);
        }
        law_field_is_what_its_opcode_says(rest, key, base, default_path);
        if last.0 == key {
            assert forall|i: int| 0 <= i < rest.len() implies (#[trigger] rest[i]).0 != key by {
                assert(bag[i].0 != bag[bag.len() - 1].0);
            }
            lemma_same_opcode(r, plain, key, last.1, base, default_path);
            assert(bag[bag.len() - 1].0 == key);
            assert forall|i: int| 0 <= i < bag.len() && (#[trigger] bag[i]).0 == key implies agree_in(
                key,
                all,
                file::opcode_applied(plain, key, bag[i].1, base, default_path),
            ) by {
                if i < rest.len() {
                    assert(rest[i] == bag[i]);
                }
            }
        } else {
            lemma_other_opcode(r, key, last.0, last.1, base, default_path);
            if forall|i: int| 0 <= i < bag.len() ==> (#[trigger] bag[i]).0 != key {
                assert forall|i: int| 0 <= i < rest.len() implies (#[trigger] rest[i]).0 != key by {
                    assert(rest[i] == bag[i]);
                }
            }
            assert forall|i: int| 0 <= i < bag.len() && (#[trigger] bag[i]).0 == key implies agree_in(
                key,
                all,
                file::opcode_applied(plain, key, bag[i].1, base, default_path),
            ) by {
                assert(rest[i] == bag[i]);
            }
        }
    }
}

/// Whether an entry of a bag sets a field for keys: it is the opcode `own` of the
/// field, or `key`, and its value is a note.
pub open spec fn sets_key(bag: Bag, i: int, own: Seq<char>) -> bool {
    (bag[i].0 == own || bag[i].0 == "key"@) && values::note_value(bag[i].1) is Some
}

/// The fields for keys are what the last of their opcodes that can be read says,
/// where `key` is an opcode of all three.
pub proof fn law_last_word_on_keys_counts(
    bag: Bag,
    i: int,
    base: Seq<char>,
    default_path: Option<Seq<char>>,
)
    requires
        0 <= i < bag.len(),
    ensures
        sets_key(bag, i, "lokey"@) && (forall|j: int|
            i < j < bag.len() ==> !#[trigger] sets_key(bag, j, "lokey"@)) ==> Some(
            file::bag_applied(bag, base, default_path).lokey,
        ) == values::note_value(bag[i].1),
        sets_key(bag, i, "hikey"@) && (forall|j: int|
            i < j < bag.len() ==> !#[trigger] sets_key(bag, j, "hikey"@)) ==> Some(
            file::bag_applied(bag, base, default_path).hikey,
        ) == values::note_value(bag[i].1),
        sets_key(bag, i, "pitch_keycenter"@) && (forall|j: int|
            i < j < bag.len() ==> !#[trigger] sets_key(bag, j, "pitch_keycenter"@)) ==> Some(
            file::bag_applied(bag, base, default_path).pitch_keycenter,
        ) == values::note_value(bag[i].1),
    decreases bag.len(),
{
    lemma_opcode_names_differ();
    let n = bag.len() - 1;
    let rest = bag.drop_last();
    if i < n {
        law_last_word_on_keys_counts(rest, i, base, default_path);
        assert forall|own: Seq<char>, j: int|
            0 <= j < n implies #[trigger] sets_key(rest, j, own) == sets_key(bag, j, own) by {
            assert(rest[j] == bag[j]);
        }
        if forall|j: int| i < j < bag.len() ==> !#[trigger] sets_key(bag, j, "lokey"@) {
            assert forall|j: int| i < j < rest.len() implies !#[trigger] sets_key(
                rest,
                j,
                "lokey"@,
            ) by {
                assert(!sets_key(bag, j, "lokey"@));
            }
            assert(!sets_key(bag, n, "lokey"@));
        }
        if forall|j: int| i < j < bag.len() ==> !#[trigger] sets_key(bag, j, "hikey"@) {
            assert forall|j: int| i < j < rest.len() implies !#[trigger] sets_key(
                rest,
                j,
                "hikey"@,
            ) by {
                assert(!sets_key(bag, j, "hikey"@));
            }
            assert(!sets_key(bag, n, "hikey"@));
        }
        if forall|j: int| i < j < bag.len() ==> !#[trigger] sets_key(bag, j, "pitch_keycenter"@) {
            assert forall|j: int| i < j < rest.len() implies !#[trigger] sets_key(
                rest,
                j,
                "pitch_keycenter"@,
            ) by {
                assert(!sets_key(bag, j, "pitch_keycenter"@));
            }
            assert(!sets_key(bag, n, "pitch_keycenter"@));
        }
        assert(rest[i] == bag[i]);
    }
}

// ---------------------------------------------------------------------------
// Sections
// ---------------------------------------------------------------------------

proof fn lemma_without(bag: Bag, key: Seq<char>)
    ensures
        forall|i: int| 0 <= i < file::without(bag, key).len() ==> (
        #[trigger] file::without(bag, key)[i]).0 != key,
        forall|i: int|
            0 <= i < file::without(bag, key).len() ==> bag.contains(
                #[trigger] file::without(bag, key)[i],
            ),
        each_once(bag) ==> each_once(file::without(bag, key)),
    decreases bag.len(),
{
    if bag.len() > 0 {
        let rest = bag.drop_last();
        let out = file::without(bag, key);
        let inner = file::without(rest, key);
        lemma_without(rest, key);
        assert forall|i: int| 0 <= i < out.len() implies bag.contains(#[trigger] out[i])
            && out[i].0 != key by {
            if i < inner.len() {
                assert(inner[i] == out[i]);
                let k = choose|k: int| 0 <= k < rest.len() && rest[k] == inner[i];
                assert(bag[k] == out[i]);
            } else {
                assert(bag[bag.len() - 1] == out[i]);
            }
        }
        if each_once(bag) {
            assert forall|i: int, j: int| 0 <= i < j < rest.len() implies (#[trigger] rest[i]).0
                != (#[trigger] rest[j]).0 by {
                assert(rest[i] == bag[i] && rest[j] == bag[j]);
            }
            assert forall|i: int, j: int| 0 <= i < j < out.len() implies (#[trigger] out[i]).0 != (
            #[trigger] out[j]).0 by {
                assert(inner[i] == out[i]);
                if j < inner.len() {
                    assert(inner[j] == out[j]);
                } else {
                    let k = choose|k: int| 0 <= k < rest.len() && rest[k] == inner[i];
                    assert(bag[k].0 != bag[bag.len() - 1].0);
                }
            }
        }
    }
}

/// Setting an opcode keeps every opcode at most once.
proof fn lemma_put_once(bag: Bag, key: Seq<char>, value: Seq<char>)
    requires
        each_once(bag),
    ensures
        each_once(file::put(bag, key, value)),
{
    lemma_without(bag, key);
    let kept = file::without(bag, key);
    let out = file::put(bag, key, value);
    assert forall|i: int, j: int| 0 <= i < j < out.len() implies (#[trigger] out[i]).0 != (
    #[trigger] out[j]).0 by {
        assert(out[i] == kept[i]);
        if j < kept.len() {
            assert(out[j] == kept[j]);
        }
    }
}

proof fn lemma_overlaid_once(bag: Bag, more: Bag)
    requires
        each_once(bag),
    ensures
        each_once(file::overlaid(bag, more)),
    decreases more.len(),
{
    if more.len() > 0 {
        lemma_overlaid_once(bag, more.drop_last());
        lemma_put_once(
            file::overlaid(bag, more.drop_last()),
            more.last().0,
            more.last().1,
        );
    }
}

proof fn lemma_lookup_is_entry(bag: Bag, key: Seq<char>)
    ensures
        (match file::lookup(bag, key) {
            Some(v) => exists|i: int| 0 <= i < bag.len() && #[trigger] bag[i] == (key, v),
            None => forall|i: int| 0 <= i < bag.len() ==> (#[trigger] bag[i]).0 != key,
        }),
    decreases bag.len(),
{
    if bag.len() > 0 {
        let rest = bag.drop_last();
        lemma_lookup_is_entry(rest, key);
        if bag.last().0 == key {
            assert(bag[bag.len() - 1] == (key, bag.last().1));
        } else {
            match file::lookup(rest, key) {
                Some(v) => {
                    let i = choose|i: int| 0 <= i < rest.len() && #[trigger] rest[i] == (key, v);
                    assert(bag[i] == (key, v));
                },
                None => {
                    assert forall|i: int| 0 <= i < bag.len() implies (#[trigger] bag[i]).0
                        != key by {
                        if i < rest.len() {
                            assert(rest[i] == bag[i]);
                        }
                    }
                },
            }
        }
    }
}

/// Whether a region has the field of an opcode from a value for it, or as a plain
/// region where there is none.
pub open spec fn field_from(
    r: RegionModel,
    key: Seq<char>,
    value: Option<Seq<char>>,
    base: Seq<char>,
    default_path: Option<Seq<char>>,
) -> bool {
    match value {
        Some(v) => agree_in(
            key,
            r,
            file::opcode_applied(file::plain_region(), key, v, base, default_path),
        ),
        None => agree_in(key, r, file::plain_region()),
    }
}

/// The region that ends with its section has each field from the narrowest
/// section that sets its opcode: the region itself, else its group, else its
/// master, else the global section. It comes behind the regions before it, unless
/// it has no sample; the sections around it are kept.
pub proof fn law_region_inherits_from_its_sections(
    p: ParserModel,
    base: Seq<char>,
    key: Seq<char>,
)
    requires
        p.section == Section::Region,
    ensures
        ({
            let r = file::region_resolved(p, base);
            let end = file::section_ended(p, base);
            let path = file::lookup(p.control, "default_path"@);
            let own = file::lookup(p.region, key);
            let group = file::lookup(p.group, key);
            let master = file::lookup(p.master, key);
            let global = file::lookup(p.global, key);
            &&& own is Some ==> field_from(r, key, own, base, path)
            &&& own is None && group is Some ==> field_from(r, key, group, base, path)
            &&& own is None && group is None && master is Some ==> field_from(
                r,
                key,
                master,
                base,
                path,
            )
            &&& own is None && group is None && master is None ==> field_from(
                r,
                key,
                global,
                base,
                path,
            )
            &&& r.sample.len() > 0 ==> end.regions == p.regions.push(r)
            &&& r.sample.len() == 0 ==> end.regions == p.regions
            &&& end.region.len() == 0
            &&& end.control == p.control && end.global == p.global && end.master == p.master
            &&& end.group == p.group
        }),
{
    let none: Bag = Seq::empty();
    let bag = file::inherited(p.global, p.master, p.group, p.region);
    let a = file::overlaid(none, p.global);
    let b = file::overlaid(a, p.master);
    let c = file::overlaid(b, p.group);
    lemma_overlaid_once(none, p.global);
    lemma_overlaid_once(a, p.master);
    lemma_overlaid_once(b, p.group);
    lemma_overlaid_once(c, p.region);
    file::law_narrowest_section_wins(p.global, p.master, p.group, p.region, key);
    lemma_lookup_is_entry(bag, key);
    law_field_is_what_its_opcode_says(
        bag,
        key,
        base,
        file::lookup(p.control, "default_path"@),
    );
}

/// A header in letters of any size ends the section before it and enters its own.
/// A section that opcodes are inherited from starts empty, and so do those that
/// are narrower; the wider ones stay. Every section but these is one whose opcodes
/// count for nothing.
pub proof fn law_header_enters_its_section(
    p: ParserModel,
    name: Seq<char>,
    base: Seq<char>,
)
    requires
        p.section != Section::Region,
    ensures
        ({
            let q = file::token_read(p, seq!['<'] + name + seq!['>'], base);
            &&& q.regions == p.regions
            &&& q.region == p.region
            &&& q.control == p.control
            &&& name == "control"@ ==> q.section == Section::Control && q.global == p.global
                && q.master == p.master && q.group == p.group
            &&& name == "global"@ ==> q.section == Section::Global && q.global.len() == 0
                && q.master.len() == 0 && q.group.len() == 0
            &&& name == "master"@ ==> q.section == Section::Master && q.global == p.global
                && q.master.len() == 0 && q.group.len() == 0
            &&& name == "group"@ ==> q.section == Section::Group && q.global == p.global && q.master
                == p.master && q.group.len() == 0
            &&& name == "region"@ ==> q.section == Section::Region && q.global == p.global
                && q.master == p.master && q.group == p.group
            &&& name.len() < 5 || name.len() > 7 ==> q.section == Section::Unknown && q.global
                == p.global && q.master == p.master && q.group == p.group
        }),
{
    reveal_strlit("control");
    reveal_strlit("global");
    reveal_strlit("master");
    reveal_strlit("group");
    reveal_strlit("region");
    let token = seq!['<'] + name + seq!['>'];
    assert(token.subrange(1, token.len() - 1) =~= name);
    assert(lexer::lowered("control"@) =~= "control"@);
    assert(lexer::lowered("global"@) =~= "global"@);
    assert(lexer::lowered("master"@) =~= "master"@);
    assert(lexer::lowered("group"@) =~= "group"@);
    assert(lexer::lowered("region"@) =~= "region"@);
    assert("control"@.len() == 7 && "global"@.len() == 6 && "master"@.len() == 6);
    assert("group"@.len() == 5 && "region"@.len() == 6);
    assert("global"@[0] == 'g' && "master"@[0] == 'm' && "region"@[0] == 'r');
}

/// A header behind a region ends the region as the end of the file would.
pub proof fn law_header_ends_a_region(p: ParserModel, token: Seq<char>, base: Seq<char>)
    requires
        lexer::header_name(token) is Some,
    ensures
        file::token_read(p, token, base).regions == file::section_ended(p, base).regions,
        file::token_read(p, token, base).region == file::section_ended(p, base).region,
        p.section != Section::Region ==> file::section_ended(p, base) == p,
{
}

/// Whether a word is made of small letters, digits and underscores.
pub open spec fn is_opcode_word(s: Seq<char>) -> bool {
    s.len() > 0 && forall|i: int|
        0 <= i < s.len() ==> 'a' as u32 <= (#[trigger] s[i]) as u32 <= 'z' as u32 || s[i] as u32
            == '_' as u32 || is_numeric(s[i])
}

/// An opcode with its value is set in the section that it stands in and in no
/// other, in the place of what was set there before. Outside of the known sections
/// it counts for nothing.
pub proof fn law_opcode_is_set_in_its_section(
    p: ParserModel,
    key: Seq<char>,
    value: Seq<char>,
    base: Seq<char>,
    other: Seq<char>,
)
    requires
        is_opcode_word(key),
        is_trim(value),
        other != key,
    ensures
        ({
            let q = file::token_read(p, key + seq!['='] + value, base);
            &&& q.section == p.section
            &&& q.regions == p.regions
            &&& p.section == Section::Control ==> file::lookup(q.control, key) == Some(value)
            &&& p.section == Section::Global ==> file::lookup(q.global, key) == Some(value)
            &&& p.section == Section::Master ==> file::lookup(q.master, key) == Some(value)
            &&& p.section == Section::Group ==> file::lookup(q.group, key) == Some(value)
            &&& p.section == Section::Region ==> file::lookup(q.region, key) == Some(value)
            &&& p.section != Section::Control ==> q.control == p.control
            &&& p.section != Section::Global ==> q.global == p.global
            &&& p.section != Section::Master ==> q.master == p.master
            &&& p.section != Section::Group ==> q.group == p.group
            &&& p.section != Section::Region ==> q.region == p.region
            &&& file::lookup(q.control, other) == file::lookup(p.control, other)
            &&& file::lookup(q.global, other) == file::lookup(p.global, other)
            &&& file::lookup(q.master, other) == file::lookup(p.master, other)
            &&& file::lookup(q.group, other) == file::lookup(p.group, other)
            &&& file::lookup(q.region, other) == file::lookup(p.region, other)
        }),
{
    let token = key + seq!['='] + value;
    assert(token[0] == key[0]);
    assert(lexer::header_name(token) is None);
    lemma_first_equals(key, value);
    assert(lexer::lowered(key) =~= key) by {
        assert forall|i: int| 0 <= i < key.len() implies #[trigger] lexer::lowered(key)[i]
            == key[i] by {}
    }
    assert(is_trim(key)) by {
        let first = key[0];
        let last = key[key.len() - 1];
    }
    lemma_trim_is_kept(key);
    lemma_trim_is_kept(value);
    file::law_put_sets_one_opcode(p.control, key, value, key);
    file::law_put_sets_one_opcode(p.global, key, value, key);
    file::law_put_sets_one_opcode(p.master, key, value, key);
    file::law_put_sets_one_opcode(p.group, key, value, key);
    file::law_put_sets_one_opcode(p.region, key, value, key);
    file::law_put_sets_one_opcode(p.control, key, value, other);
    file::law_put_sets_one_opcode(p.global, key, value, other);
    file::law_put_sets_one_opcode(p.master, key, value, other);
    file::law_put_sets_one_opcode(p.group, key, value, other);
    file::law_put_sets_one_opcode(p.region, key, value, other);
}

proof fn lemma_find_char(s: Seq<char>, rest: Seq<char>, c: char)
    requires
        forall|i: int| 0 <= i < s.len() ==> #[trigger] s[i] != c,
    ensures
        text::find_char(s + seq![c] + rest, c) == s.len(),
    decreases s.len(),
{
    let all = s + seq![c] + rest;
    if s.len() > 0 {
        let tail = s.skip(1);
        assert forall|i: int| 0 <= i < tail.len() implies #[trigger] tail[i] != c by {
            assert(tail[i] == s[i + 1]);
        }
        lemma_find_char(tail, rest, c);
        assert(all[0] == s[0]);
        assert(all.skip(1) =~= tail + seq![c] + rest);
    } else {
        assert(all[0] == c);
    }
}

proof fn lemma_first_equals(key: Seq<char>, value: Seq<char>)
    requires
        is_opcode_word(key),
    ensures
        lexer::split_equals(key + seq!['='] + value) == Some((key, value)),
{
    let token = key + seq!['='] + value;
    assert forall|i: int| 0 <= i < key.len() implies #[trigger] key[i] != '=' by {
        let c = key[i] as u32;
    }
    lemma_find_char(key, value, '=');
    assert(token.take(key.len() as int) =~= key);
    assert(token.skip(key.len() as int + 1) =~= value);
}

// ---------------------------------------------------------------------------
// Lines, words and tokens
// ---------------------------------------------------------------------------

/// Whether a character is a blank, a tab or the end of a line, or another of the
/// common white ones.
pub open spec fn is_blank(c: char) -> bool {
    c == ' ' || c == '\t' || c == '\n' || c == '\r'
}

/// Blanks, tabs and the ends of lines are white; what is printed in ASCII is not.
pub proof fn law_blanks_are_white(c: char)
    ensures
        is_blank(c) ==> lexer::is_white(c),
        is_printed(c) ==> !lexer::is_white(c),
{
}

/// Whether a text is not empty and holds nothing white.
pub open spec fn is_word(s: Seq<char>) -> bool {
    s.len() > 0 && forall|i: int| 0 <= i < s.len() ==> !lexer::is_white(#[trigger] s[i])
}

proof fn lemma_word_len_of(w: Seq<char>, rest: Seq<char>)
    requires
        forall|i: int| 0 <= i < w.len() ==> !lexer::is_white(#[trigger] w[i]),
        rest.len() == 0 || lexer::is_white(rest[0]),
    ensures
        lexer::word_len(w + rest) == w.len(),
    decreases w.len(),
{
    let all = w + rest;
    if w.len() > 0 {
        let tail = w.skip(1);
        assert forall|i: int| 0 <= i < tail.len() implies !lexer::is_white(#[trigger] tail[i]) by {
            assert(tail[i] == w[i + 1]);
        }
        lemma_word_len_of(tail, rest);
        assert(all[0] == w[0]);
        assert(all.skip(1) =~= tail + rest);
    } else {
        assert(all =~= rest);
    }
}

/// White space parts the words of a text and is otherwise lost: a word and white
/// space in front of a text add that word to its words, white space alone adds
/// nothing, and a single word is all there is of itself.
pub proof fn law_white_space_parts_words(w: Seq<char>, c: char, rest: Seq<char>)
    requires
        is_word(w),
        lexer::is_white(c),
    ensures
        lexer::words(w + seq![c] + rest) == seq![w] + lexer::words(rest),
        lexer::words(seq![c] + rest) == lexer::words(rest),
        lexer::words(w) == seq![w],
        lexer::words(Seq::empty()).len() == 0,
{
    let behind_word = seq![c] + rest;
    let all = w + behind_word;
    assert(all =~= w + seq![c] + rest);
    lemma_word_len_of(w, behind_word);
    assert(all[0] == w[0]);
    assert(all.take(w.len() as int) =~= w);
    assert(all.skip(w.len() as int) =~= behind_word);
    assert(behind_word.skip(1) =~= rest);
    assert(lexer::words(behind_word) == lexer::words(rest));
    assert(lexer::words(all) == seq![w] + lexer::words(behind_word));
    lemma_word_len_of(w, Seq::empty());
    assert(w + Seq::<char>::empty() =~= w);
    assert(w.take(w.len() as int) =~= w);
    assert(w.skip(w.len() as int) =~= Seq::empty());
    assert(lexer::words(Seq::<char>::empty()) =~= Seq::empty());
    assert(seq![w] + Seq::<Seq<char>>::empty() =~= seq![w]);
}

/// Whether a word is a section header.
pub open spec fn is_header(w: Seq<char>) -> bool {
    w.len() >= 2 && w[0] == '<' && w[w.len() - 1] == '>'
}

/// Whether a word has an equals sign in it.
pub open spec fn has_equals(w: Seq<char>) -> bool {
    exists|i: int| 0 <= i < w.len() && #[trigger] w[i] == '='
}

proof fn lemma_holds(w: Seq<char>, c: char)
    ensures
        lexer::holds(w, c) == exists|i: int| 0 <= i < w.len() && #[trigger] w[i] == c,
        text::find_char(w, c) <= w.len(),
    decreases w.len(),
{
    if w.len() > 0 {
        let tail = w.skip(1);
        lemma_holds(tail, c);
        if w[0] == c {
        } else {
            if exists|i: int| 0 <= i < tail.len() && #[trigger] tail[i] == c {
                let i = choose|i: int| 0 <= i < tail.len() && #[trigger] tail[i] == c;
                assert(w[i + 1] == c);
            }
            if exists|i: int| 0 <= i < w.len() && #[trigger] w[i] == c {
                let i = choose|i: int| 0 <= i < w.len() && #[trigger] w[i] == c;
                assert(tail[i - 1] == c);
            }
        }
    }
}

/// Headers and opcodes are tokens of their own. A word without an equals sign
/// behind a sample belongs to the sample's name, with a blank before it, so that
/// names may have blanks in them; elsewhere it is a token of its own.
pub proof fn law_sample_names_may_hold_blanks(
    before: Seq<Seq<char>>,
    sample: Seq<char>,
    w: Seq<char>,
    last: Seq<char>,
)
    requires
        !is_header(sample),
        sample.len() >= 7,
        lexer::lowered(sample.take(7)) == "sample="@,
        !is_header(w),
        !has_equals(w),
        is_header(last) || has_equals(last),
    ensures
        ({
            let start = lexer::joined_tokens(before).0;
            let named = lexer::joined_tokens(before.push(sample)).0;
            let joined = lexer::joined_tokens(before.push(sample).push(w)).0;
            let more = lexer::joined_tokens(before.push(sample).push(w).push(w)).0;
            let closed = lexer::joined_tokens(before.push(sample).push(w).push(last)).0;
            let open = lexer::joined_tokens(before.push(last)).0;
            &&& named == start.push(sample)
            &&& joined == start.push(sample + seq![' '] + w)
            &&& more == start.push(sample + seq![' '] + w + seq![' '] + w)
            &&& closed == joined.push(last)
            &&& open == start.push(last)
            &&& is_header(last) || last.len() < 7 || lexer::lowered(last.take(7)) != "sample="@
                ==> lexer::joined_tokens(before.push(last).push(w)).0 == start.push(last).push(w)
        }),
{
    reveal_strlit("sample=");
    reveal_strlit(" ");
    law_capitals_become_small(sample.take(7), 6);
    assert(lexer::lowered(sample.take(7))[6] == '=');
    assert(sample[6] == sample.take(7)[6]);
    assert(sample[6] == '=');
    lemma_holds(sample, '=');
    lemma_holds(w, '=');
    lemma_holds(last, '=');
    let one = before.push(sample);
    let two = one.push(w);
    let three = two.push(w);
    let four = two.push(last);
    assert(one.drop_last() =~= before);
    assert(two.drop_last() =~= one);
    assert(three.drop_last() =~= two);
    assert(four.drop_last() =~= two);
    assert(before.push(last).drop_last() =~= before);
    assert(before.push(last).push(w).drop_last() =~= before.push(last));
    assert(lexer::lowered(sample).take(7) =~= lexer::lowered(sample.take(7)));
    assert(lexer::header_name(sample) is None);
    assert(lexer::joined_tokens(one).1);
    let start = lexer::joined_tokens(before).0;
    assert(start.push(sample).drop_last() =~= start);
    assert(sample + " "@ + w =~= sample + seq![' '] + w);
    let long = sample + seq![' '] + w;
    assert(start.push(long).drop_last() =~= start);
    assert(long + " "@ + w =~= long + seq![' '] + w);
    assert(lexer::joined_tokens(two) == (start.push(long), true));
    assert(lexer::joined_tokens(three).0 == start.push(long + seq![' '] + w));
    assert(lexer::joined_tokens(four).0 == start.push(long).push(last));
    assert(lexer::joined_tokens(before.push(last)).0 == start.push(last));
    if is_header(last) || last.len() < 7 || lexer::lowered(last.take(7)) != "sample="@ {
        if last.len() >= 7 {
            assert(lexer::lowered(last).take(7) =~= lexer::lowered(last.take(7)));
        }
        assert("sample="@.len() == 7);
        assert(lexer::joined_tokens(before.push(last)).1 == false);
        assert(lexer::joined_tokens(before.push(last).push(w)).0 == start.push(last).push(w));
    }
}

/// What stands behind two slashes is a comment; a line without them is kept whole.
pub proof fn law_line_comments_are_cut(code: Seq<char>, comment: Seq<char>)
    requires
        forall|i: int|
            0 <= i < code.len() - 1 ==> !(#[trigger] code[i] == '/' && code[i + 1] == '/'),
        code.len() > 0 ==> code[code.len() - 1] != '/',
    ensures
        lexer::uncommented(code + seq!['/', '/'] + comment) == code,
        lexer::uncommented(code) == code,
{
    lemma_find_slashes(code, comment);
    assert((code + seq!['/', '/'] + comment).take(code.len() as int) =~= code);
    assert(code.take(code.len() as int) =~= code);
}

proof fn lemma_find_slashes(code: Seq<char>, comment: Seq<char>)
    requires
        forall|i: int|
            0 <= i < code.len() - 1 ==> !(#[trigger] code[i] == '/' && code[i + 1] == '/'),
        code.len() > 0 ==> code[code.len() - 1] != '/',
    ensures
        lexer::find_pair(code + seq!['/', '/'] + comment, '/', '/') == code.len(),
        lexer::find_pair(code, '/', '/') == code.len(),
    decreases code.len(),
{
    let all = code + seq!['/', '/'] + comment;
    if code.len() > 0 {
        let tail = code.skip(1);
        assert forall|i: int| 0 <= i < tail.len() - 1 implies !(#[trigger] tail[i] == '/'
            && tail[i + 1] == '/') by {
            assert(tail[i] == code[i + 1]);
        }
        lemma_find_slashes(tail, comment);
        assert(all[0] == code[0]);
        assert(all.skip(1) =~= tail + seq!['/', '/'] + comment);
        if code.len() > 1 {
            assert(all[1] == code[1]);
        }
    } else {
        assert(all[0] == '/' && all[1] == '/');
    }
}

/// The ends of lines part the lines of a text.
pub proof fn law_line_ends_part_lines(line: Seq<char>, rest: Seq<char>)
    requires
        forall|i: int| 0 <= i < line.len() ==> #[trigger] line[i] != '\n',
    ensures
        lexer::lines(line + seq!['\n'] + rest) == seq![line] + lexer::lines(rest),
        lexer::lines(line) == seq![line],
{
    let all = line + seq!['\n'] + rest;
    lemma_find_char(line, rest, '\n');
    assert(all.take(line.len() as int) =~= line);
    assert(all.skip(line.len() as int + 1) =~= rest);
    lemma_holds(line, '\n');
}

/// Letters of either size count as one: capitals become small, and nothing else
/// changes.
pub proof fn law_capitals_become_small(s: Seq<char>, i: int)
    requires
        0 <= i < s.len(),
    ensures
        lexer::lowered(s).len() == s.len(),
        'A' as u32 <= s[i] as u32 <= 'Z' as u32 ==> lexer::lowered(s)[i] as u32 == s[i] as u32
            + ('a' as u32 - 'A' as u32),
        !('A' as u32 <= s[i] as u32 <= 'Z' as u32) ==> lexer::lowered(s)[i] == s[i],
{
    let n = s[i] as u32;
    if 0x41 <= n <= 0x5a {
        assert(((n + 0x20) as u8) as u32 == n + 0x20);
    }
}

// ---------------------------------------------------------------------------
// Events of the host
// ---------------------------------------------------------------------------

/// A note for the first port, or for any port, is played with its own channel and
/// key, and with velocity 1 at least. A note for another port, or without a
/// channel or a key, is not played.
pub proof fn law_note_events_are_played(
    port: Option<u16>,
    channel: Option<u16>,
    key: Option<u16>,
    velocity: u8,
)
    ensures
        ({
            let on = processor::command_of(
                PluginEvent::NoteOn { port, channel, key, velocity },
            );
            let off = processor::command_of(PluginEvent::NoteOff { port, channel, key });
            &&& (port is None || port == Some(0u16)) ==> match (channel, key) {
                (Some(c), Some(k)) => c <= 255 && k <= 255 ==> {
                    &&& on matches Command::NoteOn { channel: ch, key: ky, velocity: v } && ch == c
                        && ky == k && (velocity > 0 ==> v == velocity) && (velocity == 0 ==> v
                        == 1)
                    &&& off matches Command::NoteOff { channel: ch, key: ky } && ch == c && ky == k
                },
                _ => on == Command::Nothing && off == Command::Nothing,
            }
            &&& port is Some && port != Some(0u16) ==> on == Command::Nothing && off
                == Command::Nothing
        }),
{
}

/// Of plain MIDI messages, controllers and the pitch wheel are acted on, with the
/// channel that the status byte names. The wheel's position is made of the two data
/// bytes, the lower seven bits first.
pub proof fn law_midi_events_are_acted_on(status: u8, data1: u8, data2: u8)
    requires
        data1 <= 127,
        data2 <= 127,
    ensures
        ({
            let command = processor::command_of(PluginEvent::Midi { status, data1, data2 });
            &&& 0xb0 <= status <= 0xbf ==> command == Command::ControlChange {
                channel: (status - 0xb0) as u8,
                cc: data1,
                value: data2,
            }
            &&& 0xe0 <= status <= 0xef ==> command == Command::PitchBend {
                channel: (status - 0xe0) as u8,
                value: (data1 + 128 * data2) as i16,
            }
            &&& status < 0xb0 || 0xbf < status < 0xe0 || 0xef < status ==> command
                == Command::Nothing
        }),
{
}

/// A note that one event starts is ended by the event for the end of that note,
/// and by none for another key or channel.
pub proof fn law_note_events_end_their_notes<S>(
    before: Engine<S>,
    struck: Engine<S>,
    after: Engine<S>,
    channel: u16,
    key: u16,
    velocity: u8,
    off_channel: u16,
    off_key: u16,
    i: usize,
)
    requires
        engine::engine_ok(before),
        i < before.voices@.len(),
        channel <= 255 && key <= 255 && off_channel <= 255 && off_key <= 255,
        !before.sustain_pedal,
        processor::commanded(
            before,
            struck,
            processor::command_of(
                PluginEvent::NoteOn {
                    port: None,
                    channel: Some(channel),
                    key: Some(key),
                    velocity,
                },
            ),
            Some(i),
        ),
        processor::commanded(
            struck,
            after,
            processor::command_of(
                PluginEvent::NoteOff {
                    port: None,
                    channel: Some(off_channel),
                    key: Some(off_key),
                },
            ),
            None,
        ),
    ensures
        struck.voices@[i as int].key == key,
        struck.voices@[i as int].channel == channel,
        velocity > 0 ==> struck.voices@[i as int].velocity == velocity,
        struck.voices@[i as int].env.state == EnvState::Attack,
        off_channel == channel && off_key == key ==> after.voices@[i as int].env.state
            == EnvState::Released,
        off_channel != channel || off_key != key ==> after.voices@[i as int]
            == struck.voices@[i as int],
{
    law_note_events_are_played(None, Some(channel), Some(key), velocity);
    law_note_events_are_played(None, Some(off_channel), Some(off_key), velocity);
    let v = if velocity == 0 {
        1u8
    } else {
        velocity
    };
    engine::law_last_match_wins(before.instrument.regions@, key as u8, v);
}

/// Controllers and the wheel reach the player as they come in: controller 64
/// moves the pedal, and the wheel sets the bend.
pub proof fn law_midi_events_reach_the_player<S>(
    before: Engine<S>,
    after: Engine<S>,
    status: u8,
    data1: u8,
    data2: u8,
    voice: Option<usize>,
)
    requires
        data1 <= 127,
        data2 <= 127,
        processor::commanded(
            before,
            after,
            processor::command_of(PluginEvent::Midi { status, data1, data2 }),
            voice,
        ),
    ensures
        voice is None,
        0xb0 <= status <= 0xbf && data1 == 64 ==> after.sustain_pedal == (data2 >= 64),
        0xb0 <= status <= 0xbf && data1 != 64 && data1 != 123 ==> after == before,
        0xb0 <= status <= 0xbf ==> after.bend == before.bend,
        0xe0 <= status <= 0xef ==> after.bend == data1 + 128 * data2 - 8192 && after.voices
            == before.voices && after.sustain_pedal == before.sustain_pedal,
        status < 0xb0 ==> after == before,
{
    law_midi_events_are_acted_on(status, data1, data2);
}

/// After a batch of events a block is rendered up to the frame of the next batch,
/// or to its end where there is none or it lies behind. What was rendered is not
/// rendered again.
pub proof fn law_block_is_rendered_up_to_the_next_batch(b: Block, next: usize)
    requires
        b.cursor <= b.frames,
    ensures
        processor::render_end(b, None) == b.frames,
        b.cursor <= next <= b.frames ==> processor::render_end(b, Some(next)) == next,
        next > b.frames ==> processor::render_end(b, Some(next)) == b.frames,
        next < b.cursor ==> processor::render_end(b, Some(next)) == b.cursor,
        ({
            let end = processor::render_end(b, Some(next));
            match processor::stretch(b.cursor, end) {
                Some(s) => s.start == b.cursor && s.end == end && s.start < s.end,
                None => b.cursor == end,
            }
        }),
{
}

/// Two channels that are interleaved come apart again as they were.
pub proof fn law_interleaved_channels_come_apart<T>(left: Seq<T>, right: Seq<T>)
    requires
        left.len() == right.len(),
    ensures
        ({
            let both = Seq::new(
                2 * left.len(),
                |i: int|
                    if i % 2 == 0 {
                        left[i / 2]
                    } else {
                        right[i / 2]
                    },
            );
            &&& processor::channel_of(both, 0, left.len()) == left
            &&& processor::channel_of(both, 1, left.len()) == right
        }),
{
    let both = Seq::new(
        2 * left.len(),
        |i: int|
            if i % 2 == 0 {
                left[i / 2]
            } else {
                right[i / 2]
            },
    );
    assert(processor::channel_of(both, 0, left.len()) =~= left);
    assert(processor::channel_of(both, 1, left.len()) =~= right);
}

/// A block is rendered where the output takes single-precision samples, has two
/// channels at least, and says how long they are; otherwise it is told what is
/// missing first.
pub proof fn law_block_needs_a_stereo_output(count: u32, frames: Option<usize>)
    ensures
        ({
            let r = processor::block_of(Output::Channels { count, frames });
            &&& count >= 2 ==> match frames {
                Some(n) => match r {
                    Ok(b) => b.cursor == 0 && b.frames == n,
                    Err(_) => false,
                },
                None => r == Err::<Block, OutputFault>(OutputFault::NoChannel),
            }
            &&& count < 2 ==> r == Err::<Block, OutputFault>(OutputFault::NotStereo)
            &&& processor::block_of(Output::Missing) == Err::<Block, OutputFault>(
                OutputFault::Missing,
            )
            &&& processor::block_of(Output::NotFloat) == Err::<Block, OutputFault>(
                OutputFault::NotFloat,
            )
        }),
{
}

// ---------------------------------------------------------------------------
// White space and block comments
// ---------------------------------------------------------------------------

/// Whether a text is made of white space.
pub open spec fn only_white(s: Seq<char>) -> bool {
    forall|i: int| 0 <= i < s.len() ==> lexer::is_white(#[trigger] s[i])
}

proof fn lemma_trim_front(a: Seq<char>, t: Seq<char>)
    requires
        only_white(a),
        t.len() == 0 || !lexer::is_white(t[0]),
    ensures
        lexer::trim_front(a + t) == t,
    decreases a.len(),
{
    let all = a + t;
    if a.len() > 0 {
        let tail = a.skip(1);
        assert forall|i: int| 0 <= i < tail.len() implies lexer::is_white(#[trigger] tail[i]) by {
            assert(tail[i] == a[i + 1]);
        }
        lemma_trim_front(tail, t);
        assert(all[0] == a[0]);
        assert(all.skip(1) =~= tail + t);
    } else {
        assert(all =~= t);
    }
}

proof fn lemma_trim_back(t: Seq<char>, b: Seq<char>)
    requires
        only_white(b),
        t.len() == 0 || !lexer::is_white(t[t.len() - 1]),
    ensures
        lexer::trim_back(t + b) == t,
    decreases b.len(),
{
    let all = t + b;
    if b.len() > 0 {
        let rest = b.drop_last();
        assert forall|i: int| 0 <= i < rest.len() implies lexer::is_white(#[trigger] rest[i]) by {
            assert(rest[i] == b[i]);
        }
        lemma_trim_back(t, rest);
        assert(all.last() == b[b.len() - 1]);
        assert(all.drop_last() =~= t + rest);
    } else {
        assert(all =~= t);
    }
}

/// White space at either end of a text is taken off, and nothing else.
pub proof fn law_white_space_is_trimmed(a: Seq<char>, t: Seq<char>, b: Seq<char>)
    requires
        only_white(a),
        only_white(b),
        t.len() > 0,
        !lexer::is_white(t[0]),
        !lexer::is_white(t[t.len() - 1]),
    ensures
        lexer::trimmed(a + t + b) == t,
        lexer::trimmed(a).len() == 0,
{
    assert(a + t + b =~= a + (t + b));
    assert((t + b)[0] == t[0]);
    lemma_trim_front(a, t + b);
    lemma_trim_back(t, b);
    lemma_trim_front(a, Seq::empty());
    assert(a + Seq::<char>::empty() =~= a);
}

/// Whether a text does not close a block comment.
pub open spec fn closes_nothing(s: Seq<char>) -> bool {
    forall|i: int| 0 <= i < s.len() - 1 ==> !(#[trigger] s[i] == '*' && s[i + 1] == '/')
}

proof fn lemma_find_close(body: Seq<char>, rest: Seq<char>)
    requires
        closes_nothing(body),
        body.len() > 0 ==> body[body.len() - 1] != '*',
    ensures
        lexer::find_pair(body + seq!['*', '/'] + rest, '*', '/') == body.len(),
    decreases body.len(),
{
    let all = body + seq!['*', '/'] + rest;
    if body.len() > 0 {
        let tail = body.skip(1);
        assert forall|i: int| 0 <= i < tail.len() - 1 implies !(#[trigger] tail[i] == '*'
            && tail[i + 1] == '/') by {
            assert(tail[i] == body[i + 1]);
        }
        lemma_find_close(tail, rest);
        assert(all[0] == body[0]);
        assert(all.skip(1) =~= tail + seq!['*', '/'] + rest);
        if body.len() > 1 {
            assert(all[1] == body[1]);
        }
    } else {
        assert(all[0] == '*' && all[1] == '/');
    }
}

/// A line says nothing where it is made of block comments and white space: a block comment
/// or white space in front of a text makes no difference to that, and an empty text is
/// such a line. A line that begins with anything else is not.
pub proof fn law_block_comments_say_nothing(body: Seq<char>, white: char, rest: Seq<char>)
    requires
        closes_nothing(body),
        body.len() > 0 ==> body[body.len() - 1] != '*',
        lexer::is_white(white),
    ensures
        lexer::only_comments(Seq::empty()),
        lexer::only_comments(seq![white] + rest) == lexer::only_comments(rest),
        lexer::only_comments(seq!['/', '*'] + body + seq!['*', '/'] + rest)
            == lexer::only_comments(rest),
        rest.len() > 0 && !lexer::is_white(rest[0]) && rest[0] != '/' ==> !lexer::only_comments(
            rest,
        ),
{
    let one = seq![white] + rest;
    assert(one.skip(1) =~= rest);
    assert(one[0] == white);
    let two = seq!['/', '*'] + body + seq!['*', '/'] + rest;
    assert(two[0] == '/' && two[1] == '*');
    assert(!lexer::is_white('/'));
    lemma_find_close(body, rest);
    assert(two.skip(2) =~= body + seq!['*', '/'] + rest);
    assert(two.skip(body.len() as int + 4) =~= rest);
}

// ---------------------------------------------------------------------------
// Letters of either size, and blanks
// ---------------------------------------------------------------------------

/// Headers that differ only in the size of their letters do the same. Every header but
/// those of the known sections enters a section whose opcodes count for nothing.
pub proof fn law_headers_may_be_in_capitals(
    p: ParserModel,
    a: Seq<char>,
    b: Seq<char>,
    base: Seq<char>,
)
    requires
        lexer::lowered(a) == lexer::lowered(b),
    ensures
        file::token_read(p, seq!['<'] + a + seq!['>'], base) == file::token_read(
            p,
            seq!['<'] + b + seq!['>'],
            base,
        ),
        !is_section_name(lexer::lowered(a)) ==> file::token_read(
            p,
            seq!['<'] + a + seq!['>'],
            base,
        ).section == Section::Unknown,
{
    let token_a = seq!['<'] + a + seq!['>'];
    let token_b = seq!['<'] + b + seq!['>'];
    assert(token_a.subrange(1, token_a.len() - 1) =~= a);
    assert(token_b.subrange(1, token_b.len() - 1) =~= b);
}

/// Whether a name is that of a section whose opcodes count.
pub open spec fn is_section_name(name: Seq<char>) -> bool {
    name == "control"@ || name == "global"@ || name == "master"@ || name == "group"@ || name
        == "region"@
}

/// An opcode may be in letters of any size, and there may be blanks around it and around
/// its value: it does what the opcode in small letters does without the blanks.
pub proof fn law_opcodes_may_be_in_capitals(
    p: ParserModel,
    front: Seq<char>,
    key: Seq<char>,
    behind: Seq<char>,
    ahead: Seq<char>,
    value: Seq<char>,
    back: Seq<char>,
    base: Seq<char>,
)
    requires
        is_opcode_word(lexer::lowered(key)),
        only_white(front),
        only_white(behind),
        only_white(ahead),
        only_white(back),
        is_trim(value),
    ensures
        file::token_read(
            p,
            (front + key + behind) + seq!['='] + (ahead + value + back),
            base,
        ) == file::token_read(p, lexer::lowered(key) + seq!['='] + value, base),
{
    let small = lexer::lowered(key);
    let left = front + key + behind;
    let right = ahead + value + back;
    let token = left + seq!['='] + right;
    assert(small.len() == key.len());
    assert forall|i: int| 0 <= i < key.len() implies is_printed(#[trigger] key[i]) && key[i] != '='
        && key[i] != '<' by {
        law_capitals_become_small(key, i);
        let c = small[i] as u32;
    }
    assert forall|i: int| 0 <= i < left.len() implies #[trigger] left[i] != '=' && left[i] != '<' by {
        if i < front.len() {
            assert(lexer::is_white(front[i]));
        } else if i < front.len() + key.len() {
            assert(left[i] == key[i - front.len()]);
        } else {
            assert(lexer::is_white(behind[i - front.len() - key.len()]));
        }
    }
    lemma_find_char(left, right, '=');
    assert(token.take(left.len() as int) =~= left);
    assert(token.skip(left.len() as int + 1) =~= right);
    assert(lexer::split_equals(token) == Some((left, right)));
    assert(token[0] == left[0]);
    assert(lexer::header_name(token) is None);
    assert(is_printed(key[0]) && is_printed(key[key.len() - 1]));
    law_white_space_is_trimmed(front, key, behind);
    law_white_space_is_trimmed(ahead, value, back);
    lemma_first_equals(small, value);
    let plain = small + seq!['='] + value;
    assert(plain[0] == small[0]);
    assert(lexer::header_name(plain) is None);
    assert(lexer::lowered(small) =~= small) by {
        assert forall|i: int| 0 <= i < small.len() implies #[trigger] lexer::lowered(small)[i]
            == small[i] by {
            law_capitals_become_small(small, i);
        }
    }
    assert(is_trim(small)) by {
        let first = small[0] as u32;
        let last = small[small.len() - 1] as u32;
    }
    lemma_trim_is_kept(small);
    lemma_trim_is_kept(value);
}

/// The mode of a loop may be in letters of any size, and only its own name sets a mode
/// in which a sample is not played once.
pub proof fn law_loop_modes_may_be_in_capitals(a: Seq<char>, b: Seq<char>)
    ensures
        lexer::lowered(a) == lexer::lowered(b) ==> file::loop_mode_value(a)
            == file::loop_mode_value(b),
        file::loop_mode_value(a) == LoopMode::LoopContinuous <==> lexer::lowered(a)
            == "loop_continuous"@,
        file::loop_mode_value(a) == LoopMode::OneShot <==> lexer::lowered(a) == "one_shot"@,
{
    reveal_strlit("loop_continuous");
    reveal_strlit("one_shot");
    assert("loop_continuous"@.len() == 15 && "one_shot"@.len() == 8);
}

/// Blanks around the name or the number of a note do not matter.
pub proof fn law_notes_may_stand_between_blanks(a: Seq<char>, t: Seq<char>, b: Seq<char>)
    requires
        only_white(a),
        only_white(b),
        is_trim(t),
    ensures
        values::note_value(a + t + b) == values::note_value(t),
{
    law_white_space_is_trimmed(a, t, b);
    lemma_trim_is_kept(t);
}

/// The characters that Unicode counts as white space are white, and no others.
pub proof fn law_white_space_is_that_of_unicode(c: char)
    ensures
        lexer::is_white(c) <==> {
            let n = c as u32;
            ||| n == 9 || n == 10 || n == 11 || n == 12 || n == 13 || n == 32 || n == 133 || n == 160
            ||| n == 5760 || n == 8232 || n == 8233 || n == 8239 || n == 8287 || n == 12288
            ||| (n >= 8192 && n - 8192 <= 10)
        },
{
}

// ---------------------------------------------------------------------------
// Whole files
// ---------------------------------------------------------------------------

proof fn lemma_tokens_of_lines(a: Seq<Seq<char>>, b: Seq<Seq<char>>)
    ensures
        file::tokens_of_lines(a + b) == file::tokens_of_lines(a) + file::tokens_of_lines(b),
    decreases b.len(),
{
    if b.len() == 0 {
        assert(a + b =~= a);
        assert(file::tokens_of_lines(a) + Seq::<Seq<char>>::empty() =~= file::tokens_of_lines(a));
    } else {
        lemma_tokens_of_lines(a, b.drop_last());
        assert((a + b).drop_last() =~= a + b.drop_last());
        assert(file::tokens_of_lines(a + b) =~= file::tokens_of_lines(a) + file::tokens_of_lines(
            b,
        ));
    }
}

/// A file is read line by line: what a line says comes before what the lines behind it
/// say. Of a line with more than comments in it, what stands before two slashes is read,
/// word by word.
pub proof fn law_file_is_read_line_by_line(line: Seq<char>, rest: Seq<char>)
    requires
        forall|i: int| 0 <= i < line.len() ==> #[trigger] line[i] != '\n',
    ensures
        file::tokens_of_lines(lexer::lines(line + seq!['\n'] + rest)) == file::tokens_of_line(line)
            + file::tokens_of_lines(lexer::lines(rest)),
        file::tokens_of_lines(lexer::lines(line)) == file::tokens_of_line(line),
        !lexer::only_comments(line) && !lexer::only_comments(lexer::uncommented(line))
            ==> file::tokens_of_line(line) == lexer::joined_tokens(
            lexer::words(lexer::uncommented(line)),
        ).0,
        lexer::only_comments(line) || lexer::only_comments(lexer::uncommented(line))
            ==> file::tokens_of_line(line).len() == 0,
{
    law_line_ends_part_lines(line, rest);
    lemma_tokens_of_lines(seq![line], lexer::lines(rest));
    let none = Seq::<Seq<char>>::empty();
    assert(seq![line].drop_last() =~= none);
    assert(file::tokens_of_lines(none) =~= none);
    assert(none + file::tokens_of_line(line) =~= file::tokens_of_line(line));
}

/// Tokens are read one after another, from a file without sections or regions.
pub proof fn law_tokens_are_read_one_by_one(
    tokens: Seq<Seq<char>>,
    token: Seq<char>,
    base: Seq<char>,
)
    ensures
        file::tokens_read(tokens.push(token), base) == file::token_read(
            file::tokens_read(tokens, base),
            token,
            base,
        ),
        ({
            let start = file::tokens_read(Seq::empty(), base);
            &&& start.section == Section::Outside
            &&& start.regions.len() == 0
            &&& start.control.len() == 0 && start.global.len() == 0 && start.master.len() == 0
            &&& start.group.len() == 0 && start.region.len() == 0
        }),
{
    assert(tokens.push(token).drop_last() =~= tokens);
}

proof fn lemma_found_first(s: Seq<char>, c: char)
    ensures
        text::find_char(s, c) <= s.len(),
        text::find_char(s, c) < s.len() ==> s[text::find_char(s, c) as int] == c,
        forall|j: int| 0 <= j < text::find_char(s, c) ==> #[trigger] s[j] != c,
    decreases s.len(),
{
    if s.len() > 0 && s[0] != c {
        let rest = s.skip(1);
        lemma_found_first(rest, c);
        assert forall|j: int| 0 <= j < text::find_char(s, c) implies #[trigger] s[j] != c by {
            if j > 0 {
                assert(rest[j - 1] == s[j]);
            }
        }
    }
}

proof fn lemma_last_line(s: Seq<char>, line: Seq<char>)
    requires
        forall|i: int| 0 <= i < line.len() ==> #[trigger] line[i] != '\n',
    ensures
        lexer::lines(s + seq!['\n'] + line) == lexer::lines(s).push(line),
    decreases s.len(),
{
    let all = s + seq!['\n'] + line;
    let i = text::find_char(s, '\n');
    lemma_found_first(s, '\n');
    law_line_ends_part_lines(line, Seq::empty());
    if i < s.len() {
        let first = s.take(i as int);
        let rest = s.skip(i as int + 1);
        assert(s =~= first + seq!['\n'] + rest);
        assert(all =~= first + seq!['\n'] + (rest + seq!['\n'] + line));
        law_line_ends_part_lines(first, rest + seq!['\n'] + line);
        law_line_ends_part_lines(first, rest);
        lemma_last_line(rest, line);
        assert(lexer::lines(all) =~= lexer::lines(s).push(line));
    } else {
        law_line_ends_part_lines(s, line);
        assert(lexer::lines(all) =~= lexer::lines(s).push(line));
    }
}

/// The end of a file ends the last region as a header does: a section of settings behind
/// everything else changes nothing.
pub proof fn law_end_of_file_ends_the_last_region(s: Seq<char>, base: Seq<char>)
    ensures
        file::sfz_regions(s + seq!['\n'] + "<control>"@, base) == file::sfz_regions(s, base),
{
    let line = "<control>"@;
    reveal_strlit("<control>");
    reveal_strlit("control");
    let all = s + seq!['\n'] + line;
    let lines = lexer::lines(s);
    let tokens = file::tokens_of_lines(lines);
    lemma_last_line(s, line);
    assert(line.len() == 9);
    assert(is_word(line)) by {
        assert forall|i: int| 0 <= i < line.len() implies !lexer::is_white(#[trigger] line[i]) by {
            assert(i == 0 || i == 1 || i == 2 || i == 3 || i == 4 || i == 5 || i == 6 || i == 7 || i
                == 8);
        }
    }
    law_white_space_parts_words(line, ' ', Seq::empty());
    law_line_comments_are_cut(line, Seq::empty());
    assert(!lexer::only_comments(line));
    let none = Seq::<Seq<char>>::empty();
    assert(seq![line].drop_last() =~= none);
    assert(lexer::header_name(line) is Some);
    assert(lexer::joined_tokens(none) == (none, false));
    assert(lexer::joined_tokens(seq![line]).0 =~= seq![line]);
    assert(file::tokens_of_line(line) == seq![line]);
    assert(lines.push(line).drop_last() =~= lines);
    assert(file::tokens_of_lines(lines.push(line)) =~= tokens.push(line));
    law_tokens_are_read_one_by_one(tokens, line, base);
    assert(line.subrange(1, line.len() - 1) =~= "control"@);
    assert(lexer::lowered("control"@) =~= "control"@);
    let p = file::tokens_read(tokens, base);
    assert(file::token_read(p, line, base).section == Section::Control);
}

} // verus!
