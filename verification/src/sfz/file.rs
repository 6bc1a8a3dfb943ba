//! SFZ files: sections, inherited opcodes, and the regions they make up.
//!
//! Opcodes set in `<global>` reach every region, `<master>` adds to them and
//! overrides them, then `<group>`, then `<region>` itself. They apply in the
//! order in which they were last set, which matters where one sets what another
//! sets too, as `key` does. Unknown opcodes are dropped: a file that uses them
//! still loads.
//!
//! Levels, times and the like are real numbers that nothing here computes
//! with. A region keeps the text that the file gives for them.

use vstd::prelude::*;
use vstd::string::*;

use crate::sfz::lexer;
use crate::sfz::lexer::{
    is_only_comments, lower, parse_header, split_at_equals, split_lines, split_sfz_tokens,
    strip_line_comment, trim,
};
use crate::sfz::values;
use crate::sfz::values::{note_of, parse_i8, parse_u64, parse_u8, reads_as_real};
use crate::paths;
use crate::paths::join_path;
use crate::text;
use crate::text::{chars_of, copy_chars, replace_char, same_chars, spells, text_of};

verus! {

/// What becomes of a sample at its end.
#[derive(Debug, Clone, Copy, PartialEq, Eq, Default, Structural)]
pub enum LoopMode {
    /// It plays once and stops.
    #[default]
    NoLoop,
    /// It plays once. The engine makes no difference between this and
    /// `NoLoop`; some authors do.
    OneShot,
    /// It plays to the loop's end, then goes on from the loop's start.
    LoopContinuous,
}

/// A region with all inherited opcodes resolved.
#[derive(Debug, Clone, PartialEq)]
pub struct Region {
    /// The path of the sample file.
    pub sample: String,
    /// The lowest key that the region answers to.
    pub lokey: u8,
    /// The highest key that the region answers to.
    pub hikey: u8,
    /// The key at which the sample was recorded.
    pub pitch_keycenter: u8,
    /// The lowest velocity that the region answers to.
    pub lovel: u8,
    /// The highest velocity that the region answers to.
    pub hivel: u8,
    /// The level in decibels, as it was written.
    pub volume_db: Option<String>,
    /// The place between left and right, as it was written.
    pub pan: Option<String>,
    /// The pitch offset in cents, as it was written.
    pub tune_cents: Option<String>,
    /// The pitch offset in semitones.
    pub transpose_semitones: i8,
    /// The envelope's attack in seconds, as it was written.
    pub ampeg_attack_secs: Option<String>,
    /// The envelope's decay in seconds, as it was written.
    pub ampeg_decay_secs: Option<String>,
    /// The envelope's sustain in percent, as it was written.
    pub ampeg_sustain: Option<String>,
    /// The envelope's release in seconds, as it was written.
    pub ampeg_release_secs: Option<String>,
    pub loop_mode: LoopMode,
    /// The first frame of the loop.
    pub loop_start: u64,
    /// The last frame of the loop; 0 stands for the sample's length.
    pub loop_end: u64,
}

/// What a region stands for.
pub ghost struct RegionModel {
    pub sample: Seq<char>,
    pub lokey: u8,
    pub hikey: u8,
    pub pitch_keycenter: u8,
    pub lovel: u8,
    pub hivel: u8,
    pub volume_db: Option<Seq<char>>,
    pub pan: Option<Seq<char>>,
    pub tune_cents: Option<Seq<char>>,
    pub transpose_semitones: i8,
    pub ampeg_attack_secs: Option<Seq<char>>,
    pub ampeg_decay_secs: Option<Seq<char>>,
    pub ampeg_sustain: Option<Seq<char>>,
    pub ampeg_release_secs: Option<Seq<char>>,
    pub loop_mode: LoopMode,
    pub loop_start: u64,
    pub loop_end: u64,
}

impl View for Region {
    type V = RegionModel;

    open spec fn view(&self) -> RegionModel {
        RegionModel {
            sample: self.sample@,
            lokey: self.lokey,
            hikey: self.hikey,
            pitch_keycenter: self.pitch_keycenter,
            lovel: self.lovel,
            hivel: self.hivel,
            volume_db: text::opt_text(self.volume_db),
            pan: text::opt_text(self.pan),
            tune_cents: text::opt_text(self.tune_cents),
            transpose_semitones: self.transpose_semitones,
            ampeg_attack_secs: text::opt_text(self.ampeg_attack_secs),
            ampeg_decay_secs: text::opt_text(self.ampeg_decay_secs),
            ampeg_sustain: text::opt_text(self.ampeg_sustain),
            ampeg_release_secs: text::opt_text(self.ampeg_release_secs),
            loop_mode: self.loop_mode,
            loop_start: self.loop_start,
            loop_end: self.loop_end,
        }
    }
}

/// A region of which nothing was said: it answers to every key and velocity,
/// and has no sample.
pub open spec fn plain_region() -> RegionModel {
    RegionModel {
        sample: Seq::empty(),
        lokey: 0,
        hikey: 127,
        pitch_keycenter: 60,
        lovel: 0,
        hivel: 127,
        volume_db: None,
        pan: None,
        tune_cents: None,
        transpose_semitones: 0,
        ampeg_attack_secs: None,
        ampeg_decay_secs: None,
        ampeg_sustain: None,
        ampeg_release_secs: None,
        loop_mode: LoopMode::NoLoop,
        loop_start: 0,
        loop_end: 0,
    }
}

impl Default for Region {
    fn default() -> (r: Region)
        ensures
            r@ == plain_region(),
    {
        let r = Region {
            sample: String::new(),
            lokey: 0,
            hikey: 127,
            pitch_keycenter: 60,
            lovel: 0,
            hivel: 127,
            volume_db: None,
            pan: None,
            tune_cents: None,
            transpose_semitones: 0,
            ampeg_attack_secs: None,
            ampeg_decay_secs: None,
            ampeg_sustain: None,
            ampeg_release_secs: None,
            loop_mode: LoopMode::NoLoop,
            loop_start: 0,
            loop_end: 0,
        };
        assert(r.sample@ =~= Seq::empty());
        r
    }
}

impl Region {
    /// Whether the region sounds for a key and a velocity.
    pub fn matches(&self, key: u8, velocity: u8) -> (r: bool)
        ensures
            r == (self.lokey <= key <= self.hikey && self.lovel <= velocity <= self.hivel),
    {
        key >= self.lokey && key <= self.hikey && velocity >= self.lovel && velocity <= self.hivel
    }
}

/// A parsed SFZ file.
#[derive(Debug, Clone)]
pub struct SfzFile {
    /// The regions in the order in which they stand in the file.
    pub regions: Vec<Region>,
}

impl Default for SfzFile {
    fn default() -> (r: SfzFile)
        ensures
            r.regions@.len() == 0,
    {
        SfzFile { regions: Vec::new() }
    }
}

/// What a sequence of regions stands for.
pub open spec fn regions_model(regions: Seq<Region>) -> Seq<RegionModel> {
    regions.map_values(|r: Region| r@)
}

// ---------------------------------------------------------------------------
// Bags of opcodes
// ---------------------------------------------------------------------------

/// Opcodes with their values, each at most once, in the order in which they
/// were last set.
pub type Bag = Seq<(Seq<char>, Seq<char>)>;

/// A bag without one opcode.
pub open spec fn without(bag: Bag, key: Seq<char>) -> Bag
    decreases bag.len(),
{
    if bag.len() == 0 {
        bag
    } else if bag.last().0 == key {
        without(bag.drop_last(), key)
    } else {
        without(bag.drop_last(), key).push(bag.last())
    }
}

/// A bag with one opcode set.
pub open spec fn put(bag: Bag, key: Seq<char>, value: Seq<char>) -> Bag {
    without(bag, key).push((key, value))
}

/// A bag with the opcodes of another set in it.
pub open spec fn overlaid(bag: Bag, more: Bag) -> Bag
    decreases more.len(),
{
    if more.len() == 0 {
        bag
    } else {
        put(overlaid(bag, more.drop_last()), more.last().0, more.last().1)
    }
}

/// The value of an opcode, where it is set.
pub open spec fn lookup(bag: Bag, key: Seq<char>) -> Option<Seq<char>>
    decreases bag.len(),
{
    if bag.len() == 0 {
        None
    } else if bag.last().0 == key {
        Some(bag.last().1)
    } else {
        lookup(bag.drop_last(), key)
    }
}

type Entry = (Vec<char>, Vec<char>);

spec fn bag_model(entries: Seq<Entry>) -> Bag {
    entries.map_values(|e: Entry| (e.0@, e.1@))
}

/// Sets one opcode.
fn set_opcode(bag: Vec<Entry>, key: Vec<char>, value: Vec<char>) -> (r: Vec<Entry>)
    ensures
        bag_model(r@) == put(bag_model(bag@), key@, value@),
{
    let ghost all = bag@;
    let ghost models = bag_model(all);
    let mut out: Vec<Entry> = Vec::new();
    assert(models.take(0) =~= Seq::empty());
    assert(bag_model(out@) =~= Seq::empty());
    for e in iter: bag
        invariant
            iter.seq() == all,
            models == bag_model(all),
            bag_model(out@) == without(models.take(iter.index() as int), key@),
    {
        let ghost i = iter.index() as int;
        let ghost before = bag_model(out@);
        assert(models.take(i + 1).drop_last() =~= models.take(i));
        assert(models[i] == (e.0@, e.1@));
        if !same_chars(&e.0, &key) {
            out.push(e);
            assert(bag_model(out@) =~= before.push((e.0@, e.1@)));
        }
    }
    assert(models.take(all.len() as int) =~= models);
    let ghost before = bag_model(out@);
    out.push((key, value));
    assert(bag_model(out@) =~= before.push((key@, value@)));
    out
}

/// Sets the opcodes of another bag.
fn overlay(bag: Vec<Entry>, more: &Vec<Entry>) -> (r: Vec<Entry>)
    ensures
        bag_model(r@) == overlaid(bag_model(bag@), bag_model(more@)),
{
    let ghost start = bag_model(bag@);
    let ghost models = bag_model(more@);
    let mut out = bag;
    let n: usize = more.len();
    assert(models.take(0) =~= Seq::empty());
    for i in 0..n
        invariant
            n == more.len(),
            models == bag_model(more@),
            bag_model(out@) == overlaid(start, models.take(i as int)),
    {
        assert(models.take(i + 1).drop_last() =~= models.take(i as int));
        assert(models[i as int] == (more@[i as int].0@, more@[i as int].1@));
        out = set_opcode(out, copy_chars(&more[i].0), copy_chars(&more[i].1));
    }
    assert(models.take(n as int) =~= models);
    out
}

/// The value of an opcode, where it is set.
fn find_opcode(bag: &Vec<Entry>, key: &str) -> (r: Option<Vec<char>>)
    ensures
        (match r {
            Some(v) => lookup(bag_model(bag@), key@) == Some(v@),
            None => lookup(bag_model(bag@), key@) is None,
        }),
{
    let ghost models = bag_model(bag@);
    let mut found: Option<Vec<char>> = None;
    let n: usize = bag.len();
    assert(models.take(0) =~= Seq::empty());
    for i in 0..n
        invariant
            n == bag.len(),
            models == bag_model(bag@),
            (match found {
                Some(v) => lookup(models.take(i as int), key@) == Some(v@),
                None => lookup(models.take(i as int), key@) is None,
            }),
    {
        assert(models.take(i + 1).drop_last() =~= models.take(i as int));
        assert(models[i as int] == (bag@[i as int].0@, bag@[i as int].1@));
        if spells(&bag[i].0, key) {
            found = Some(copy_chars(&bag[i].1));
        }
    }
    assert(models.take(n as int) =~= models);
    found
}

// ---------------------------------------------------------------------------
// Sample paths
// ---------------------------------------------------------------------------

/// A path with slashes for backslashes.
pub open spec fn slashed(path: Seq<char>) -> Seq<char> {
    text::replaced(path, '\\', '/')
}

/// The path of a sample: as it is where it starts at the root, else taken from
/// the default path, and that from the base directory.
pub open spec fn sample_path(
    value: Seq<char>,
    base: Seq<char>,
    default_path: Option<Seq<char>>,
) -> Seq<char> {
    paths::path_joined(
        match default_path {
            Some(rel) => paths::path_joined(base, slashed(rel)),
            None => base,
        },
        slashed(value),
    )
}

fn resolve_sample(value: &Vec<char>, base: &Vec<char>, default_path: &Option<Vec<char>>) -> (r: Vec<
    char,
>)
    ensures
        r@ == sample_path(
            value@,
            base@,
            match *default_path {
                Some(d) => Some(d@),
                None => None,
            },
        ),
{
    let path = replace_char(value, '\\', '/');
    match default_path {
        Some(d) => join_path(&join_path(base, &replace_char(d, '\\', '/')), &path),
        None => join_path(base, &path),
    }
}

// ---------------------------------------------------------------------------
// Applying opcodes
// ---------------------------------------------------------------------------

/// `n` where there is one, else `old_value`.
pub open spec fn or_keep<T>(n: Option<T>, old_value: T) -> T {
    match n {
        Some(n) => n,
        None => old_value,
    }
}

/// The text of a real number where `value` is one, else `old_value`.
pub open spec fn real_or_keep(value: Seq<char>, old_value: Option<Seq<char>>) -> Option<
    Seq<char>,
> {
    if values::is_real(value) {
        Some(value)
    } else {
        old_value
    }
}

/// A velocity, which is at most 127.
pub open spec fn velocity_value(value: Seq<char>) -> Option<u8> {
    match values::u8_value(value) {
        Some(n) => Some(
            if n > 127 {
                127
            } else {
                n
            },
        ),
        None => None,
    }
}

/// The loop mode that a value names.
pub open spec fn loop_mode_value(value: Seq<char>) -> LoopMode {
    if lexer::lowered(value) == "loop_continuous"@ {
        LoopMode::LoopContinuous
    } else if lexer::lowered(value) == "one_shot"@ {
        LoopMode::OneShot
    } else {
        LoopMode::NoLoop
    }
}

/// A region after one opcode. A value that cannot be read changes nothing.
pub open spec fn opcode_applied(
    r: RegionModel,
    key: Seq<char>,
    value: Seq<char>,
    base: Seq<char>,
    default_path: Option<Seq<char>>,
) -> RegionModel {
    let note = values::note_value(value);
    if key == "sample"@ {
        RegionModel { sample: sample_path(value, base, default_path), ..r }
    } else if key == "lokey"@ {
        RegionModel { lokey: or_keep(note, r.lokey), ..r }
    } else if key == "hikey"@ {
        RegionModel { hikey: or_keep(note, r.hikey), ..r }
    } else if key == "key"@ {
        RegionModel {
            lokey: or_keep(note, r.lokey),
            hikey: or_keep(note, r.hikey),
            pitch_keycenter: or_keep(note, r.pitch_keycenter),
            ..r
        }
    } else if key == "pitch_keycenter"@ {
        RegionModel { pitch_keycenter: or_keep(note, r.pitch_keycenter), ..r }
    } else if key == "lovel"@ {
        RegionModel { lovel: or_keep(velocity_value(value), r.lovel), ..r }
    } else if key == "hivel"@ {
        RegionModel { hivel: or_keep(velocity_value(value), r.hivel), ..r }
    } else if key == "volume"@ {
        RegionModel { volume_db: real_or_keep(value, r.volume_db), ..r }
    } else if key == "pan"@ {
        RegionModel { pan: real_or_keep(value, r.pan), ..r }
    } else if key == "tune"@ {
        RegionModel { tune_cents: real_or_keep(value, r.tune_cents), ..r }
    } else if key == "transpose"@ {
        RegionModel {
            transpose_semitones: or_keep(values::i8_value(value), r.transpose_semitones),
            ..r
        }
    } else if key == "ampeg_attack"@ {
        RegionModel { ampeg_attack_secs: real_or_keep(value, r.ampeg_attack_secs), ..r }
    } else if key == "ampeg_decay"@ {
        RegionModel { ampeg_decay_secs: real_or_keep(value, r.ampeg_decay_secs), ..r }
    } else if key == "ampeg_sustain"@ {
        RegionModel { ampeg_sustain: real_or_keep(value, r.ampeg_sustain), ..r }
    } else if key == "ampeg_release"@ {
        RegionModel { ampeg_release_secs: real_or_keep(value, r.ampeg_release_secs), ..r }
    } else if key == "loop_mode"@ {
        RegionModel { loop_mode: loop_mode_value(value), ..r }
    } else if key == "loop_start"@ {
        RegionModel { loop_start: or_keep(values::u64_value(value), r.loop_start), ..r }
    } else if key == "loop_end"@ {
        RegionModel { loop_end: or_keep(values::u64_value(value), r.loop_end), ..r }
    } else {
        r
    }
}

/// A plain region after the opcodes of a bag, in order.
pub open spec fn bag_applied(
    bag: Bag,
    base: Seq<char>,
    default_path: Option<Seq<char>>,
) -> RegionModel
    decreases bag.len(),
{
    if bag.len() == 0 {
        plain_region()
    } else {
        opcode_applied(
            bag_applied(bag.drop_last(), base, default_path),
            bag.last().0,
            bag.last().1,
            base,
            default_path,
        )
    }
}

/// The view of an optional sequence of characters.
pub open spec fn opt_chars(s: Option<Vec<char>>) -> Option<Seq<char>> {
    match s {
        Some(s) => Some(s@),
        None => None,
    }
}

/// Applies one opcode. Unknown opcodes are ignored.
pub fn apply_opcode(
    region: &mut Region,
    key: &Vec<char>,
    value: &Vec<char>,
    base_dir: &Vec<char>,
    default_path: &Option<Vec<char>>,
)
    ensures
        final(region)@ == opcode_applied(
            old(region)@,
            key@,
            value@,
            base_dir@,
            opt_chars(*default_path),
        ),
{
    if spells(key, "sample") {
        region.sample = text_of(&resolve_sample(value, base_dir, default_path));
    } else if spells(key, "lokey") {
        if let Some(n) = note_of(value) {
            region.lokey = n;
        }
    } else if spells(key, "hikey") {
        if let Some(n) = note_of(value) {
            region.hikey = n;
        }
    } else if spells(key, "key") {
        if let Some(n) = note_of(value) {
            region.lokey = n;
            region.hikey = n;
            region.pitch_keycenter = n;
        }
    } else if spells(key, "pitch_keycenter") {
        if let Some(n) = note_of(value) {
            region.pitch_keycenter = n;
        }
    } else if spells(key, "lovel") {
        if let Some(n) = parse_u8(value) {
            region.lovel = if n > 127 {
                127
            } else {
                n
            };
        }
    } else if spells(key, "hivel") {
        if let Some(n) = parse_u8(value) {
            region.hivel = if n > 127 {
                127
            } else {
                n
            };
        }
    } else if spells(key, "volume") {
        if reads_as_real(value) {
            region.volume_db = Some(text_of(value));
        }
    } else if spells(key, "pan") {
        if reads_as_real(value) {
            region.pan = Some(text_of(value));
        }
    } else if spells(key, "tune") {
        if reads_as_real(value) {
            region.tune_cents = Some(text_of(value));
        }
    } else if spells(key, "transpose") {
        if let Some(t) = parse_i8(value) {
            region.transpose_semitones = t;
        }
    } else if spells(key, "ampeg_attack") {
        if reads_as_real(value) {
            region.ampeg_attack_secs = Some(text_of(value));
        }
    } else if spells(key, "ampeg_decay") {
        if reads_as_real(value) {
            region.ampeg_decay_secs = Some(text_of(value));
        }
    } else if spells(key, "ampeg_sustain") {
        if reads_as_real(value) {
            region.ampeg_sustain = Some(text_of(value));
        }
    } else if spells(key, "ampeg_release") {
        if reads_as_real(value) {
            region.ampeg_release_secs = Some(text_of(value));
        }
    } else if spells(key, "loop_mode") {
        let mode = lower(value);
        region.loop_mode = if spells(&mode, "loop_continuous") {
            LoopMode::LoopContinuous
        } else if spells(&mode, "one_shot") {
            LoopMode::OneShot
        } else {
            LoopMode::NoLoop
        };
    } else if spells(key, "loop_start") {
        if let Some(n) = parse_u64(value) {
            region.loop_start = n;
        }
    } else if spells(key, "loop_end") {
        if let Some(n) = parse_u64(value) {
            region.loop_end = n;
        }
    }
}

fn apply_bag(bag: &Vec<Entry>, base_dir: &Vec<char>, default_path: &Option<Vec<char>>) -> (r: Region)
    ensures
        r@ == bag_applied(bag_model(bag@), base_dir@, opt_chars(*default_path)),
{
    let ghost models = bag_model(bag@);
    let mut out = Region::default();
    let n: usize = bag.len();
    assert(models.take(0) =~= Seq::empty());
    for i in 0..n
        invariant
            n == bag.len(),
            models == bag_model(bag@),
            out@ == bag_applied(models.take(i as int), base_dir@, opt_chars(*default_path)),
    {
        assert(models.take(i + 1).drop_last() =~= models.take(i as int));
        assert(models[i as int] == (bag@[i as int].0@, bag@[i as int].1@));
        apply_opcode(&mut out, &bag[i].0, &bag[i].1, base_dir, default_path);
    }
    assert(models.take(n as int) =~= models);
    out
}

// ---------------------------------------------------------------------------
// Sections
// ---------------------------------------------------------------------------

/// The section that is being read.
#[derive(Debug, Clone, Copy, PartialEq, Eq, Structural)]
pub enum Section {
    /// None yet.
    Outside,
    Control,
    Global,
    Master,
    Group,
    Region,
    /// One that means nothing here.
    Unknown,
}

/// Where reading has got to.
pub ghost struct ParserModel {
    pub control: Bag,
    pub global: Bag,
    pub master: Bag,
    pub group: Bag,
    pub region: Bag,
    pub section: Section,
    pub regions: Seq<RegionModel>,
}

/// Where reading begins.
pub open spec fn parser_start() -> ParserModel {
    ParserModel {
        control: Seq::empty(),
        global: Seq::empty(),
        master: Seq::empty(),
        group: Seq::empty(),
        region: Seq::empty(),
        section: Section::Outside,
        regions: Seq::empty(),
    }
}

/// The opcodes of a region with those that it inherits.
pub open spec fn inherited(global: Bag, master: Bag, group: Bag, region: Bag) -> Bag {
    overlaid(overlaid(overlaid(overlaid(Seq::empty(), global), master), group), region)
}

/// The region that is being read, resolved.
pub open spec fn region_resolved(p: ParserModel, base: Seq<char>) -> RegionModel {
    bag_applied(
        inherited(p.global, p.master, p.group, p.region),
        base,
        lookup(p.control, "default_path"@),
    )
}

/// What is known once the current section has ended. A region without a
/// sample is dropped.
pub open spec fn section_ended(p: ParserModel, base: Seq<char>) -> ParserModel {
    if p.section is Region {
        let r = region_resolved(p, base);
        ParserModel {
            region: Seq::empty(),
            regions: if r.sample.len() > 0 {
                p.regions.push(r)
            } else {
                p.regions
            },
            ..p
        }
    } else {
        p
    }
}

/// A section is entered: one that opcodes are inherited from starts anew, and
/// so do the narrower ones.
pub open spec fn section_entered(p: ParserModel, name: Seq<char>) -> ParserModel {
    if name == "control"@ {
        ParserModel { section: Section::Control, ..p }
    } else if name == "global"@ {
        ParserModel {
            global: Seq::empty(),
            master: Seq::empty(),
            group: Seq::empty(),
            section: Section::Global,
            ..p
        }
    } else if name == "master"@ {
        ParserModel {
            master: Seq::empty(),
            group: Seq::empty(),
            section: Section::Master,
            ..p
        }
    } else if name == "group"@ {
        ParserModel { group: Seq::empty(), section: Section::Group, ..p }
    } else if name == "region"@ {
        ParserModel { section: Section::Region, ..p }
    } else {
        ParserModel { section: Section::Unknown, ..p }
    }
}

/// An opcode is set in the current section.
pub open spec fn opcode_stored(p: ParserModel, key: Seq<char>, value: Seq<char>) -> ParserModel {
    match p.section {
        Section::Control => ParserModel { control: put(p.control, key, value), ..p },
        Section::Global => ParserModel { global: put(p.global, key, value), ..p },
        Section::Master => ParserModel { master: put(p.master, key, value), ..p },
        Section::Group => ParserModel { group: put(p.group, key, value), ..p },
        Section::Region => ParserModel { region: put(p.region, key, value), ..p },
        Section::Outside | Section::Unknown => p,
    }
}

/// One token is read.
pub open spec fn token_read(p: ParserModel, token: Seq<char>, base: Seq<char>) -> ParserModel {
    match lexer::header_name(token) {
        Some(name) => section_entered(section_ended(p, base), name),
        None => match lexer::split_equals(token) {
            Some((k, v)) => opcode_stored(
                p,
                lexer::lowered(lexer::trimmed(k)),
                lexer::trimmed(v),
            ),
            None => p,
        },
    }
}

/// Tokens are read, in order.
pub open spec fn tokens_read(tokens: Seq<Seq<char>>, base: Seq<char>) -> ParserModel
    decreases tokens.len(),
{
    if tokens.len() == 0 {
        parser_start()
    } else {
        token_read(tokens_read(tokens.drop_last(), base), tokens.last(), base)
    }
}

/// The tokens of one line. A line that holds nothing but block comments has
/// none.
pub open spec fn tokens_of_line(line: Seq<char>) -> Seq<Seq<char>> {
    let code = lexer::uncommented(line);
    if lexer::only_comments(line) || lexer::only_comments(code) {
        Seq::empty()
    } else {
        lexer::line_tokens(code)
    }
}

/// The tokens of several lines.
pub open spec fn tokens_of_lines(lines: Seq<Seq<char>>) -> Seq<Seq<char>>
    decreases lines.len(),
{
    if lines.len() == 0 {
        Seq::empty()
    } else {
        tokens_of_lines(lines.drop_last()) + tokens_of_line(lines.last())
    }
}

/// The regions that an SFZ text describes.
pub open spec fn sfz_regions(s: Seq<char>, base: Seq<char>) -> Seq<RegionModel> {
    section_ended(tokens_read(tokens_of_lines(lexer::lines(s)), base), base).regions
}

/// Where reading has got to.
struct Parser {
    control: Vec<Entry>,
    global: Vec<Entry>,
    master: Vec<Entry>,
    group: Vec<Entry>,
    region: Vec<Entry>,
    section: Section,
    regions: Vec<Region>,
}

impl View for Parser {
    type V = ParserModel;

    closed spec fn view(&self) -> ParserModel {
        ParserModel {
            control: bag_model(self.control@),
            global: bag_model(self.global@),
            master: bag_model(self.master@),
            group: bag_model(self.group@),
            region: bag_model(self.region@),
            section: self.section,
            regions: regions_model(self.regions@),
        }
    }
}

fn empty_bag() -> (r: Vec<Entry>)
    ensures
        bag_model(r@) == Seq::<(Seq<char>, Seq<char>)>::empty(),
{
    let r: Vec<Entry> = Vec::new();
    assert(bag_model(r@) =~= Seq::empty());
    r
}

impl Parser {
    fn start() -> (r: Parser)
        ensures
            r@ == parser_start(),
    {
        let regions: Vec<Region> = Vec::new();
        assert(regions_model(regions@) =~= Seq::empty());
        Parser {
            control: empty_bag(),
            global: empty_bag(),
            master: empty_bag(),
            group: empty_bag(),
            region: empty_bag(),
            section: Section::Outside,
            regions,
        }
    }

    /// Ends the current section: a region is resolved and kept.
    fn flush_region(self, base_dir: &Vec<char>) -> (r: Parser)
        ensures
            r@ == section_ended(self@, base_dir@),
    {
        if self.section != Section::Region {
            return self;
        }
        let merged = overlay(
            overlay(overlay(overlay(empty_bag(), &self.global), &self.master), &self.group),
            &self.region,
        );
        let default_path = find_opcode(&self.control, "default_path");
        let out = apply_bag(&merged, base_dir, &default_path);
        let ghost before = regions_model(self.regions@);
        let mut regions = self.regions;
        assert(out@ == region_resolved(self@, base_dir@));
        if !out.sample.as_str().is_empty() {
            regions.push(out);
            assert(regions_model(regions@) =~= before.push(out@));
        }
        Parser {
            control: self.control,
            global: self.global,
            master: self.master,
            group: self.group,
            region: empty_bag(),
            section: self.section,
            regions,
        }
    }

    /// Enters a section.
    fn enter(self, name: &Vec<char>) -> (r: Parser)
        ensures
            r@ == section_entered(self@, name@),
    {
        let mut p = self;
        if spells(name, "control") {
            p.section = Section::Control;
        } else if spells(name, "global") {
            p.global = empty_bag();
            p.master = empty_bag();
            p.group = empty_bag();
            p.section = Section::Global;
        } else if spells(name, "master") {
            p.master = empty_bag();
            p.group = empty_bag();
            p.section = Section::Master;
        } else if spells(name, "group") {
            p.group = empty_bag();
            p.section = Section::Group;
        } else if spells(name, "region") {
            p.section = Section::Region;
        } else {
            p.section = Section::Unknown;
        }
        p
    }

    /// Sets an opcode in the current section.
    fn store(self, key: Vec<char>, value: Vec<char>) -> (r: Parser)
        ensures
            r@ == opcode_stored(self@, key@, value@),
    {
        let mut p = self;
        match p.section {
            Section::Control => {
                p.control = set_opcode(p.control, key, value);
            },
            Section::Global => {
                p.global = set_opcode(p.global, key, value);
            },
            Section::Master => {
                p.master = set_opcode(p.master, key, value);
            },
            Section::Group => {
                p.group = set_opcode(p.group, key, value);
            },
            Section::Region => {
                p.region = set_opcode(p.region, key, value);
            },
            Section::Outside | Section::Unknown => {},
        }
        p
    }

    /// Reads one token.
    fn read(self, token: &Vec<char>, base_dir: &Vec<char>) -> (r: Parser)
        ensures
            r@ == token_read(self@, token@, base_dir@),
    {
        match parse_header(token) {
            Some(name) => self.flush_region(base_dir).enter(&name),
            None => match split_at_equals(token) {
                Some((k, v)) => self.store(lower(&trim(&k)), trim(&v)),
                None => self,
            },
        }
    }
}

/// The tokens of one line.
fn read_line(line: &Vec<char>) -> (r: Vec<Vec<char>>)
    ensures
        text::texts(r@) == tokens_of_line(line@),
{
    let code = strip_line_comment(line);
    if is_only_comments(line) || is_only_comments(&code) {
        let none: Vec<Vec<char>> = Vec::new();
        assert(text::texts(none@) =~= Seq::empty());
        none
    } else {
        split_sfz_tokens(&code)
    }
}

impl SfzFile {
    /// Reads an SFZ text. Sample paths are taken from `base_dir`, and from the
    /// `default_path` of the file's `<control>` section where it has one.
    pub fn parse(text: &str, base_dir: &str) -> (r: SfzFile)
        ensures
            regions_model(r.regions@) == sfz_regions(text@, base_dir@),
    {
        let base = chars_of(base_dir);
        let rows = split_lines(&chars_of(text));
        let ghost models = text::texts(rows@);
        let mut p = Parser::start();
        let n: usize = rows.len();
        assert(models.take(0) =~= Seq::empty());
        for i in 0..n
            invariant
                n == rows.len(),
                models == text::texts(rows@),
                base@ == base_dir@,
                p@ == tokens_read(tokens_of_lines(models.take(i as int)), base@),
        {
            let tokens = read_line(&rows[i]);
            let ghost done = tokens_of_lines(models.take(i as int));
            let ghost here = text::texts(tokens@);
            assert(models.take(i + 1).drop_last() =~= models.take(i as int));
            assert(models[i as int] == rows@[i as int]@);
            let m: usize = tokens.len();
            assert(done + here.take(0) =~= done);
            for j in 0..m
                invariant
                    m == tokens.len(),
                    here == text::texts(tokens@),
                    p@ == tokens_read(done + here.take(j as int), base@),
            {
                assert((done + here.take(j + 1)).drop_last() =~= done + here.take(j as int));
                assert((done + here.take(j + 1)).last() == tokens@[j as int]@);
                p = p.read(&tokens[j], &base);
            }
            assert(here.take(m as int) =~= here);
        }
        assert(models.take(n as int) =~= models);
        let end = p.flush_region(&base);
        SfzFile { regions: end.regions }
    }
}

// ---------------------------------------------------------------------------
// Laws
// ---------------------------------------------------------------------------

proof fn lemma_lookup_without(bag: Bag, gone: Seq<char>, key: Seq<char>)
    ensures
        lookup(without(bag, gone), key) == if key == gone {
            None
        } else {
            lookup(bag, key)
        },
    decreases bag.len(),
{
    if bag.len() > 0 {
        lemma_lookup_without(bag.drop_last(), gone, key);
        let rest = without(bag.drop_last(), gone);
        assert(rest.push(bag.last()).drop_last() =~= rest);
    }
}

/// Setting an opcode gives it its value, and leaves the others alone.
pub proof fn law_put_sets_one_opcode(bag: Bag, set: Seq<char>, value: Seq<char>, key: Seq<char>)
    ensures
        lookup(put(bag, set, value), key) == if key == set {
            Some(value)
        } else {
            lookup(bag, key)
        },
{
    lemma_lookup_without(bag, set, key);
    let rest = without(bag, set);
    assert(rest.push((set, value)).drop_last() =~= rest);
}

/// What is laid over a bag goes before what the bag holds.
pub proof fn law_overlay_overrides(bag: Bag, more: Bag, key: Seq<char>)
    ensures
        lookup(overlaid(bag, more), key) == match lookup(more, key) {
            Some(v) => Some(v),
            None => lookup(bag, key),
        },
    decreases more.len(),
{
    if more.len() > 0 {
        law_overlay_overrides(bag, more.drop_last(), key);
        law_put_sets_one_opcode(
            overlaid(bag, more.drop_last()),
            more.last().0,
            more.last().1,
            key,
        );
    }
}

/// An opcode of a region is what the narrowest section that sets it gives:
/// the region itself, else its group, else its master, else the global
/// section.
pub proof fn law_narrowest_section_wins(
    global: Bag,
    master: Bag,
    group: Bag,
    region: Bag,
    key: Seq<char>,
)
    ensures
        lookup(inherited(global, master, group, region), key) == match lookup(region, key) {
            Some(v) => Some(v),
            None => match lookup(group, key) {
                Some(v) => Some(v),
                None => match lookup(master, key) {
                    Some(v) => Some(v),
                    None => lookup(global, key),
                },
            },
        },
{
    law_overlay_overrides(Seq::empty(), global, key);
    law_overlay_overrides(overlaid(Seq::empty(), global), master, key);
    law_overlay_overrides(overlaid(overlaid(Seq::empty(), global), master), group, key);
    law_overlay_overrides(
        overlaid(overlaid(overlaid(Seq::empty(), global), master), group),
        region,
        key,
    );
}

/// An opcode that is none of the known ones leaves a region as it is.
pub proof fn law_unknown_opcode_is_dropped(
    r: RegionModel,
    key: Seq<char>,
    value: Seq<char>,
    base: Seq<char>,
    default_path: Option<Seq<char>>,
)
    requires
        key != "sample"@ && key != "key"@ && key != "lokey"@ && key != "hikey"@,
        key != "pitch_keycenter"@ && key != "lovel"@ && key != "hivel"@,
        key != "volume"@ && key != "pan"@ && key != "tune"@ && key != "transpose"@,
        key != "ampeg_attack"@ && key != "ampeg_decay"@ && key != "ampeg_sustain"@,
        key != "ampeg_release"@ && key != "loop_mode"@ && key != "loop_start"@,
        key != "loop_end"@,
    ensures
        opcode_applied(r, key, value, base, default_path) == r,
{
}

/// Whether an opcode is one of those that give a real number.
pub open spec fn is_real_opcode(key: Seq<char>) -> bool {
    ||| key == "volume"@
    ||| key == "pan"@
    ||| key == "tune"@
    ||| key == "ampeg_attack"@
    ||| key == "ampeg_decay"@
    ||| key == "ampeg_sustain"@
    ||| key == "ampeg_release"@
}

/// Whether a value can be read as what an opcode asks for. Every text is a
/// sample and names a loop mode.
pub open spec fn is_readable(key: Seq<char>, value: Seq<char>) -> bool {
    ||| key == "sample"@ || key == "loop_mode"@
    ||| (key == "key"@ || key == "lokey"@ || key == "hikey"@ || key == "pitch_keycenter"@)
        && values::note_value(value) is Some
    ||| (key == "lovel"@ || key == "hivel"@) && values::u8_value(value) is Some
    ||| key == "transpose"@ && values::i8_value(value) is Some
    ||| (key == "loop_start"@ || key == "loop_end"@) && values::u64_value(value) is Some
    ||| is_real_opcode(key) && values::is_real(value)
}

/// A value that cannot be read, or one of an unknown opcode, leaves a region as
/// it is.
pub proof fn law_unreadable_value_changes_nothing(
    r: RegionModel,
    key: Seq<char>,
    value: Seq<char>,
    base: Seq<char>,
    default_path: Option<Seq<char>>,
)
    requires
        !is_readable(key, value),
    ensures
        opcode_applied(r, key, value, base, default_path) == r,
{
}

/// Whether keys and velocities lie in the range of MIDI.
pub open spec fn region_in_range(r: RegionModel) -> bool {
    &&& r.lokey <= 127
    &&& r.hikey <= 127
    &&& r.pitch_keycenter <= 127
    &&& r.lovel <= 127
    &&& r.hivel <= 127
}

/// Whether a text stands for a real number, where there is one.
#[verifier::opaque]
pub open spec fn real_if_given(s: Option<Seq<char>>) -> bool {
    s matches Some(t) ==> values::is_real(t)
}

/// Whether every level and time that a region holds stands for a real number.
pub open spec fn region_reals(r: RegionModel) -> bool {
    &&& real_if_given(r.volume_db)
    &&& real_if_given(r.pan)
    &&& real_if_given(r.tune_cents)
    &&& real_if_given(r.ampeg_attack_secs)
    &&& real_if_given(r.ampeg_decay_secs)
    &&& real_if_given(r.ampeg_sustain)
    &&& real_if_given(r.ampeg_release_secs)
}

/// Whatever the opcode and its value, keys and velocities stay in range, and
/// levels and times stay real numbers.
pub proof fn law_opcodes_keep_the_ranges(
    r: RegionModel,
    key: Seq<char>,
    value: Seq<char>,
    base: Seq<char>,
    default_path: Option<Seq<char>>,
)
    requires
        region_in_range(r),
        region_reals(r),
    ensures
        region_in_range(opcode_applied(r, key, value, base, default_path)),
        region_reals(opcode_applied(r, key, value, base, default_path)),
{
    lemma_opcode_keeps_range(r, key, value, base, default_path);
    lemma_opcode_keeps_reals(r, key, value, base, default_path);
}

proof fn lemma_opcode_keeps_range(
    r: RegionModel,
    key: Seq<char>,
    value: Seq<char>,
    base: Seq<char>,
    default_path: Option<Seq<char>>,
)
    requires
        region_in_range(r),
    ensures
        region_in_range(opcode_applied(r, key, value, base, default_path)),
{
}

proof fn lemma_real_or_keep(value: Seq<char>, old_value: Option<Seq<char>>)
    requires
        real_if_given(old_value),
    ensures
        real_if_given(real_or_keep(value, old_value)),
{
    reveal(real_if_given);
}

proof fn lemma_opcode_keeps_reals(
    r: RegionModel,
    key: Seq<char>,
    value: Seq<char>,
    base: Seq<char>,
    default_path: Option<Seq<char>>,
)
    requires
        region_reals(r),
    ensures
        region_reals(opcode_applied(r, key, value, base, default_path)),
{
    lemma_real_or_keep(value, r.volume_db);
    lemma_real_or_keep(value, r.pan);
    lemma_real_or_keep(value, r.tune_cents);
    lemma_real_or_keep(value, r.ampeg_attack_secs);
    lemma_real_or_keep(value, r.ampeg_decay_secs);
    lemma_real_or_keep(value, r.ampeg_sustain);
    lemma_real_or_keep(value, r.ampeg_release_secs);
}

proof fn lemma_bag_applied_in_range(bag: Bag, base: Seq<char>, default_path: Option<Seq<char>>)
    ensures
        region_in_range(bag_applied(bag, base, default_path)),
        region_reals(bag_applied(bag, base, default_path)),
    decreases bag.len(),
{
    reveal(real_if_given);
    if bag.len() > 0 {
        lemma_bag_applied_in_range(bag.drop_last(), base, default_path);
        law_opcodes_keep_the_ranges(
            bag_applied(bag.drop_last(), base, default_path),
            bag.last().0,
            bag.last().1,
            base,
            default_path,
        );
    }
}

/// Whether a region can be played: it has a sample, its keys and velocities are
/// in range, and its levels and times are real numbers.
pub open spec fn region_playable(r: RegionModel) -> bool {
    r.sample.len() > 0 && region_in_range(r) && region_reals(r)
}

proof fn lemma_section_ended_playable(p: ParserModel, base: Seq<char>)
    requires
        forall|i: int| 0 <= i < p.regions.len() ==> region_playable(#[trigger] p.regions[i]),
    ensures
        forall|i: int|
            0 <= i < section_ended(p, base).regions.len() ==> region_playable(
                #[trigger] section_ended(p, base).regions[i],
            ),
{
    lemma_bag_applied_in_range(
        inherited(p.global, p.master, p.group, p.region),
        base,
        lookup(p.control, "default_path"@),
    );
}

proof fn lemma_tokens_read_playable(tokens: Seq<Seq<char>>, base: Seq<char>)
    ensures
        forall|i: int|
            0 <= i < tokens_read(tokens, base).regions.len() ==> region_playable(
                #[trigger] tokens_read(tokens, base).regions[i],
            ),
    decreases tokens.len(),
{
    if tokens.len() > 0 {
        lemma_tokens_read_playable(tokens.drop_last(), base);
        lemma_section_ended_playable(tokens_read(tokens.drop_last(), base), base);
    }
}

/// Every region of a file has a sample, its keys and velocities lie in the
/// range of MIDI, and its levels and times stand for real numbers.
pub proof fn law_parsed_regions_are_playable(s: Seq<char>, base: Seq<char>)
    ensures
        forall|i: int|
            0 <= i < sfz_regions(s, base).len() ==> region_playable(
                #[trigger] sfz_regions(s, base)[i],
            ),
{
    let tokens = tokens_of_lines(lexer::lines(s));
    lemma_tokens_read_playable(tokens, base);
    lemma_section_ended_playable(tokens_read(tokens, base), base);
}

/// Reading further keeps the regions that were read, in their order.
pub proof fn law_regions_keep_their_order(tokens: Seq<Seq<char>>, base: Seq<char>, n: int)
    requires
        0 <= n <= tokens.len(),
    ensures
        tokens_read(tokens.take(n), base).regions.is_prefix_of(tokens_read(tokens, base).regions),
    decreases tokens.len() - n,
{
    if n < tokens.len() {
        law_regions_keep_their_order(tokens, base, n + 1);
        let before = tokens_read(tokens.take(n), base);
        assert(tokens.take(n + 1).drop_last() =~= tokens.take(n));
        assert(before.regions.is_prefix_of(tokens_read(tokens.take(n + 1), base).regions));
        let a = before.regions;
        let b = tokens_read(tokens.take(n + 1), base).regions;
        let c = tokens_read(tokens, base).regions;
        assert(a =~= c.subrange(0, a.len() as int)) by {
            assert(b == c.subrange(0, b.len() as int));
            assert(a == b.subrange(0, a.len() as int));
        }
    } else {
        assert(tokens.take(n) =~= tokens);
    }
}

/// A line that holds nothing but block comments says nothing.
pub proof fn law_comment_line_says_nothing(line: Seq<char>)
    requires
        lexer::only_comments(line),
    ensures
        tokens_of_line(line).len() == 0,
{
}

} // verus!
