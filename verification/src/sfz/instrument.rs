//! Instruments: the regions of an SFZ file with the samples they play.
//!
//! Several regions may play one sample. Each sample is loaded once, and every
//! region holds an index into the bank of samples. What a sample is, and how
//! it is decoded, is up to the caller.
//!
//! Two limits guard the memory: one on a single sample, one on all of them.
//! A sample over a limit is left out, with the regions that play it, and the
//! report says so.

use vstd::prelude::*;
use vstd::string::*;

use crate::paths;
use crate::paths::{parent_of, same_path};
use crate::sfz::file;
use crate::sfz::file::{Region, RegionModel, SfzFile};
use crate::text;
use crate::text::{copy_text, decimal};

verus! {

/// The limits under which samples are loaded.
#[derive(Debug, Clone, Copy, PartialEq, Eq, Structural)]
pub struct LoadLimits {
    /// The greatest size of one sample, in bytes.
    pub max_sample_bytes: usize,
    /// The greatest size of all samples together, in bytes.
    pub max_total_bytes: usize,
}

impl Default for LoadLimits {
    fn default() -> (r: LoadLimits)
        ensures
            r.max_sample_bytes == 64 * 1024 * 1024,
            r.max_total_bytes == 512 * 1024 * 1024,
    {
        LoadLimits { max_sample_bytes: 64 * 1024 * 1024, max_total_bytes: 512 * 1024 * 1024 }
    }
}

/// A region with the index of its sample.
#[derive(Debug, Clone)]
pub struct InstrumentRegion {
    pub region: Region,
    /// The index of the sample in the instrument's bank.
    pub sample_index: usize,
}

/// A loaded instrument.
#[derive(Debug, Clone)]
pub struct Instrument<S> {
    /// The regions in the order of the file.
    pub regions: Vec<InstrumentRegion>,
    /// The samples, each of which some region plays.
    pub samples: Vec<S>,
}

/// What was loaded, and what was not.
#[derive(Debug)]
pub struct LoadReport<S> {
    pub instrument: Instrument<S>,
    /// The samples that could not be loaded, with the reason. The regions that
    /// play them are left out.
    pub errors: Vec<(String, String)>,
    /// The size of all loaded samples, in bytes.
    pub bytes_loaded: usize,
}

/// What is told before a sample is loaded.
#[derive(Debug, Clone)]
pub struct LoadProgress {
    /// The path of the sample.
    pub path: String,
    /// The number of the sample, counted from 1.
    pub index: usize,
    /// How many samples there are.
    pub total: usize,
    /// The size of the samples loaded so far, in bytes.
    pub bytes_loaded: usize,
}

/// A decoded sample.
#[derive(Debug)]
pub struct Decoded<S> {
    pub sample: S,
    /// How many single-precision numbers the sample holds.
    pub numbers: usize,
}

// ---------------------------------------------------------------------------
// What loading makes of the regions
// ---------------------------------------------------------------------------

/// The bytes that a sample takes.
pub open spec fn sample_bytes(numbers: nat) -> nat {
    numbers * 4
}

/// Whole mebibytes.
pub open spec fn mebibytes(bytes: nat) -> nat {
    bytes / 0x10_0000
}

/// The complaint about a sample over the limit on one.
pub open spec fn sample_too_large(bytes: nat, limits: LoadLimits) -> Seq<char> {
    "sample is "@ + text::decimal_text(mebibytes(bytes))
        + " MiB; over max_sample_bytes cap of "@ + text::decimal_text(
        mebibytes(limits.max_sample_bytes as nat),
    ) + " MiB"@
}

/// The complaint about a sample that would exceed the limit on all.
pub open spec fn total_too_large(bytes: nat, loaded: nat, limits: LoadLimits) -> Seq<char> {
    "would exceed max_total_bytes cap of "@ + text::decimal_text(
        mebibytes(limits.max_total_bytes as nat),
    ) + " MiB (currently "@ + text::decimal_text(mebibytes(loaded)) + " MiB loaded, +"@
        + text::decimal_text(mebibytes(bytes)) + " MiB requested)"@
}

/// What is told before a sample is loaded.
pub ghost struct Asked {
    pub path: Seq<char>,
    pub bytes_loaded: nat,
}

/// How far loading has come.
pub ghost struct LoadState<S> {
    /// The samples that were asked for, in order.
    pub asked: Seq<Asked>,
    /// For each of them its index in the bank, where it was loaded.
    pub placed: Seq<Option<nat>>,
    pub samples: Seq<S>,
    pub regions: Seq<InstrumentRegion>,
    pub errors: Seq<(Seq<char>, Seq<char>)>,
    pub bytes: nat,
}

/// Where loading begins.
pub open spec fn load_start<S>() -> LoadState<S> {
    LoadState {
        asked: Seq::empty(),
        placed: Seq::empty(),
        samples: Seq::empty(),
        regions: Seq::empty(),
        errors: Seq::empty(),
        bytes: 0,
    }
}

/// The index of the sample that was asked for under a path, where it was.
pub open spec fn asked_index(asked: Seq<Asked>, path: Seq<char>) -> Option<int>
    decreases asked.len(),
{
    if asked.len() == 0 {
        None
    } else if paths::path_key(asked.last().path) == paths::path_key(path) {
        Some(asked.len() - 1)
    } else {
        asked_index(asked.drop_last(), path)
    }
}

/// A sample that is asked for is left out.
pub open spec fn left_out<S>(st: LoadState<S>, path: Seq<char>, reason: Seq<char>) -> LoadState<
    S,
> {
    LoadState {
        asked: st.asked.push(Asked { path, bytes_loaded: st.bytes }),
        placed: st.placed.push(None),
        errors: st.errors.push((path, reason)),
        ..st
    }
}

/// A sample is asked for, and this comes back.
pub open spec fn sample_answered<S>(
    st: LoadState<S>,
    path: Seq<char>,
    answer: Result<Decoded<S>, String>,
    limits: LoadLimits,
) -> LoadState<S> {
    match answer {
        Err(reason) => left_out(st, path, reason@),
        Ok(decoded) => {
            let bytes = sample_bytes(decoded.numbers as nat);
            if bytes > limits.max_sample_bytes {
                left_out(st, path, sample_too_large(bytes, limits))
            } else if st.bytes + bytes > limits.max_total_bytes {
                left_out(st, path, total_too_large(bytes, st.bytes, limits))
            } else {
                LoadState {
                    asked: st.asked.push(Asked { path, bytes_loaded: st.bytes }),
                    placed: st.placed.push(Some(st.samples.len())),
                    samples: st.samples.push(decoded.sample),
                    bytes: st.bytes + bytes,
                    ..st
                }
            }
        },
    }
}

/// A region is kept where its sample was loaded.
pub open spec fn region_placed<S>(st: LoadState<S>, region: Region) -> LoadState<S> {
    match asked_index(st.asked, region.sample@) {
        Some(k) => match st.placed[k] {
            Some(i) => LoadState {
                regions: st.regions.push(InstrumentRegion { region, sample_index: i as usize }),
                ..st
            },
            None => st,
        },
        None => st,
    }
}

/// One region is dealt with. Its sample is asked for where that was not done
/// before; the `n`-th of the answers belongs to the `n`-th sample.
pub open spec fn region_loaded<S>(
    st: LoadState<S>,
    region: Region,
    limits: LoadLimits,
    answers: Seq<Result<Decoded<S>, String>>,
) -> LoadState<S> {
    let known = if asked_index(st.asked, region.sample@) is Some {
        st
    } else {
        sample_answered(st, region.sample@, answers[st.asked.len() as int], limits)
    };
    region_placed(known, region)
}

/// The regions of a file are dealt with, in order.
pub open spec fn regions_loaded<S>(
    regions: Seq<Region>,
    limits: LoadLimits,
    answers: Seq<Result<Decoded<S>, String>>,
) -> LoadState<S>
    decreases regions.len(),
{
    if regions.len() == 0 {
        load_start()
    } else {
        region_loaded(
            regions_loaded(regions.drop_last(), limits, answers),
            regions.last(),
            limits,
            answers,
        )
    }
}

/// The paths that regions give for their samples.
pub open spec fn given_paths(regions: Seq<Region>) -> Seq<Seq<char>> {
    regions.map_values(|r: Region| r.sample@)
}

/// The samples that regions play, each once, in the order in which they first
/// occur.
pub open spec fn sample_paths(regions: Seq<Region>) -> Seq<Seq<char>> {
    paths::deduped(given_paths(regions))
}

/// Whether this may be told before one of the samples is loaded: its path, its
/// number from 1 on, how many there are, and no more bytes than may be loaded.
pub open spec fn progress_due(
    samples: Seq<Seq<char>>,
    limits: LoadLimits,
    p: LoadProgress,
) -> bool {
    &&& p.total == samples.len()
    &&& 1 <= p.index <= p.total
    &&& p.path@ == samples[p.index - 1]
    &&& p.bytes_loaded <= limits.max_total_bytes
}

/// What a list of errors says.
pub open spec fn errors_model(errors: Seq<(String, String)>) -> Seq<(Seq<char>, Seq<char>)> {
    errors.map_values(|e: (String, String)| (e.0@, e.1@))
}

/// Whether a report says what loading came to.
pub open spec fn report_is<S>(r: LoadReport<S>, st: LoadState<S>) -> bool {
    &&& r.instrument.regions@ == st.regions
    &&& r.instrument.samples@ == st.samples
    &&& errors_model(r.errors@) == st.errors
    &&& r.bytes_loaded == st.bytes
}

/// Whether what was told before a sample was loaded is what was asked.
pub open spec fn told(p: LoadProgress, asked: Seq<Asked>, n: int, total: nat) -> bool {
    &&& p.path@ == asked[n].path
    &&& p.index == n + 1
    &&& p.total == total
    &&& p.bytes_loaded == asked[n].bytes_loaded
}

// ---------------------------------------------------------------------------
// Loading
// ---------------------------------------------------------------------------

/// More answers than were asked for change nothing.
proof fn lemma_more_answers<S>(
    regions: Seq<Region>,
    limits: LoadLimits,
    a: Seq<Result<Decoded<S>, String>>,
    b: Seq<Result<Decoded<S>, String>>,
)
    requires
        regions_loaded(regions, limits, a).asked.len() <= a.len() <= b.len(),
        forall|i: int| 0 <= i < a.len() ==> a[i] == b[i],
    ensures
        regions_loaded(regions, limits, a) == regions_loaded(regions, limits, b),
    decreases regions.len(),
{
    if regions.len() > 0 {
        lemma_more_answers(regions.drop_last(), limits, a, b);
    }
}

proof fn lemma_asked_index(asked: Seq<Asked>, path: Seq<char>)
    ensures
        (match asked_index(asked, path) {
            Some(k) => 0 <= k < asked.len() && paths::path_key(asked[k].path) == paths::path_key(
                path,
            ),
            None => forall|k: int|
                0 <= k < asked.len() ==> paths::path_key((#[trigger] asked[k]).path)
                    != paths::path_key(path),
        }),
    decreases asked.len(),
{
    if asked.len() > 0 {
        lemma_asked_index(asked.drop_last(), path);
        if asked_index(asked, path) is None {
            assert forall|k: int| 0 <= k < asked.len() implies paths::path_key(
                (#[trigger] asked[k]).path,
            ) != paths::path_key(path) by {
                if k < asked.len() - 1 {
                    assert(asked.drop_last()[k] == asked[k]);
                }
            }
        }
    }
}

/// How many samples the regions play.
fn count_samples(regions: &Vec<Region>) -> (r: usize)
    ensures
        r == sample_paths(regions@).len(),
{
    let ghost all = given_paths(regions@);
    let mut count: usize = 0;
    let n: usize = regions.len();
    assert(all.take(0) =~= Seq::empty());
    for i in 0..n
        invariant
            n == regions.len(),
            all == given_paths(regions@),
            count == paths::deduped(all.take(i as int)).len(),
            count <= i,
    {
        let ghost before = all.take(i as int);
        let mut seen = false;
        for j in 0..i
            invariant
                i < n == regions.len(),
                all == given_paths(regions@),
                seen == exists|k: int|
                    0 <= k < j && paths::path_key(#[trigger] all[k]) == paths::path_key(
                        all[i as int],
                    ),
        {
            if same_path(regions[j].sample.as_str(), regions[i].sample.as_str()) {
                assert(paths::path_key(all[j as int]) == paths::path_key(all[i as int]));
                seen = true;
            }
        }
        proof {
            assert(all.take(i + 1).drop_last() =~= before);
            if seen {
                let k = choose|k: int|
                    0 <= k < i && paths::path_key(#[trigger] all[k]) == paths::path_key(
                        all[i as int],
                    );
                assert(before[k] == all[k]);
            }
            if paths::path_seen(before, all[i as int]) {
                let k = choose|k: int|
                    0 <= k < before.len() && paths::path_key(#[trigger] before[k])
                        == paths::path_key(all[i as int]);
                assert(all[k] == before[k]);
            }
        }
        if !seen {
            count = count + 1;
        }
    }
    assert(all.take(n as int) =~= all);
    count
}

/// What was asked for is found among it by the paths of the regions so far.
proof fn lemma_asked_is_seen(asked: Seq<Asked>, path: Seq<char>)
    ensures
        asked_index(asked, path) is Some == paths::path_seen(asked_paths(asked), path),
{
    let all = asked_paths(asked);
    lemma_asked_index(asked, path);
    if let Some(k) = asked_index(asked, path) {
        assert(all[k] == asked[k].path);
    }
    if paths::path_seen(all, path) {
        let k = choose|k: int|
            0 <= k < all.len() && paths::path_key(#[trigger] all[k]) == paths::path_key(path);
        assert(asked[k].path == all[k]);
    }
}

/// The first samples are those of the first regions.
proof fn lemma_samples_of_first(all: Seq<Seq<char>>, n: int)
    requires
        0 <= n <= all.len(),
    ensures
        paths::deduped(all.take(n)).is_prefix_of(paths::deduped(all)),
    decreases all.len() - n,
{
    if n == all.len() {
        assert(all.take(n) =~= all);
    } else {
        lemma_samples_of_first(all, n + 1);
        assert(all.take(n + 1).drop_last() =~= all.take(n));
        let a = paths::deduped(all.take(n));
        let b = paths::deduped(all.take(n + 1));
        let c = paths::deduped(all);
        assert(a.is_prefix_of(b));
        assert(a =~= c.subrange(0, a.len() as int)) by {
            assert(b =~= c.subrange(0, b.len() as int));
            assert(a =~= b.subrange(0, a.len() as int));
        }
    }
}

/// The number of a byte count's whole mebibytes, in decimal.
fn mebibytes_text(bytes: u128) -> (r: String)
    requires
        bytes <= 0x4_0000_0000_0000_0000,
    ensures
        r@ == text::decimal_text(mebibytes(bytes as nat)),
{
    decimal((bytes / 0x10_0000) as u64)
}

fn say_sample_too_large(bytes: u128, limits: &LoadLimits) -> (r: String)
    requires
        bytes <= 0x4_0000_0000_0000_0000,
    ensures
        r@ == sample_too_large(bytes as nat, *limits),
{
    "sample is ".to_owned().concat(mebibytes_text(bytes).as_str()).concat(
        " MiB; over max_sample_bytes cap of ",
    ).concat(mebibytes_text(limits.max_sample_bytes as u128).as_str()).concat(" MiB")
}

fn say_total_too_large(bytes: u128, loaded: usize, limits: &LoadLimits) -> (r: String)
    requires
        bytes <= 0x4_0000_0000_0000_0000,
    ensures
        r@ == total_too_large(bytes as nat, loaded as nat, *limits),
{
    "would exceed max_total_bytes cap of ".to_owned().concat(
        mebibytes_text(limits.max_total_bytes as u128).as_str(),
    ).concat(" MiB (currently ").concat(mebibytes_text(loaded as u128).as_str()).concat(
        " MiB loaded, +",
    ).concat(mebibytes_text(bytes).as_str()).concat(" MiB requested)")
}

/// A sample that was asked for.
struct Placed {
    path: String,
    index: Option<usize>,
}

/// How far loading has come.
struct Loading<S> {
    placed: Vec<Placed>,
    samples: Vec<S>,
    regions: Vec<InstrumentRegion>,
    errors: Vec<(String, String)>,
    bytes: usize,
}

spec fn loading_is<S>(l: Loading<S>, st: LoadState<S>) -> bool {
    &&& l.placed.len() == st.asked.len() == st.placed.len()
    &&& forall|i: int|
        0 <= i < l.placed.len() ==> (#[trigger] l.placed@[i]).path@ == st.asked[i].path && (
        match l.placed@[i].index {
            Some(k) => st.placed[i] == Some(k as nat),
            None => st.placed[i] is None,
        })
    &&& l.samples@ == st.samples
    &&& l.regions@ == st.regions
    &&& errors_model(l.errors@) == st.errors
    &&& l.bytes == st.bytes
}

impl<S> Loading<S> {
    /// The index of the sample that was asked for under a path.
    fn find(&self, path: &String, Ghost(st): Ghost<LoadState<S>>) -> (r: Option<usize>)
        requires
            loading_is(*self, st),
        ensures
            (match r {
                Some(k) => asked_index(st.asked, path@) == Some(k as int),
                None => asked_index(st.asked, path@) is None,
            }),
            r matches Some(k) ==> k < self.placed.len(),
    {
        let n: usize = self.placed.len();
        let mut found: Option<usize> = None;
        assert(st.asked.take(0) =~= Seq::empty());
        for i in 0..n
            invariant
                loading_is(*self, st),
                n == self.placed.len(),
                (match found {
                    Some(k) => asked_index(st.asked.take(i as int), path@) == Some(k as int) && k
                        < n,
                    None => asked_index(st.asked.take(i as int), path@) is None,
                }),
        {
            assert(st.asked.take(i + 1).drop_last() =~= st.asked.take(i as int));
            assert(self.placed@[i as int].path@ == st.asked[i as int].path);
            if same_path(self.placed[i].path.as_str(), path.as_str()) {
                found = Some(i);
            }
        }
        assert(st.asked.take(n as int) =~= st.asked);
        found
    }

    /// Notes that a sample is left out.
    fn leave_out(self, path: &String, reason: String, Ghost(st): Ghost<LoadState<S>>) -> (r:
        Loading<S>)
        requires
            loading_is(self, st),
        ensures
            loading_is(r, left_out(st, path@, reason@)),
    {
        let mut l = self;
        let ghost before = l.errors@;
        l.placed.push(Placed { path: copy_text(path), index: None });
        l.errors.push((copy_text(path), reason));
        assert(errors_model(l.errors@) =~= errors_model(before).push((path@, reason@)));
        l
    }

    /// Takes the answer for a sample in.
    fn answer(
        self,
        path: &String,
        answer: Result<Decoded<S>, String>,
        limits: &LoadLimits,
        Ghost(st): Ghost<LoadState<S>>,
    ) -> (r: Loading<S>)
        requires
            loading_is(self, st),
        ensures
            loading_is(r, sample_answered(st, path@, answer, *limits)),
    {
        match answer {
            Err(reason) => self.leave_out(path, reason, Ghost(st)),
            Ok(decoded) => {
                let bytes: u128 = decoded.numbers as u128 * 4;
                if bytes > limits.max_sample_bytes as u128 {
                    self.leave_out(path, say_sample_too_large(bytes, limits), Ghost(st))
                } else if self.bytes as u128 + bytes > limits.max_total_bytes as u128 {
                    let reason = say_total_too_large(bytes, self.bytes, limits);
                    self.leave_out(path, reason, Ghost(st))
                } else {
                    let mut l = self;
                    let i: usize = l.samples.len();
                    l.placed.push(Placed { path: copy_text(path), index: Some(i) });
                    l.samples.push(decoded.sample);
                    l.bytes = l.bytes + bytes as usize;
                    l
                }
            },
        }
    }
}

/// Whether `answers` are what `load` gave back when it was called with
/// `calls`, and the calls told what was asked.
pub open spec fn calls_made<S, F: Fn(LoadProgress) -> Result<Decoded<S>, String>>(
    load: F,
    calls: Seq<LoadProgress>,
    answers: Seq<Result<Decoded<S>, String>>,
    asked: Seq<Asked>,
    total: nat,
) -> bool {
    &&& calls.len() == answers.len() == asked.len()
    &&& forall|n: int|
        0 <= n < answers.len() ==> #[trigger] call_ensures(load, (calls[n],), answers[n])
    &&& forall|n: int| 0 <= n < answers.len() ==> told(#[trigger] calls[n], asked, n, total)
}

/// One more call of `load` joins those that were made.
proof fn lemma_one_more_call<S, F: Fn(LoadProgress) -> Result<Decoded<S>, String>>(
    load: F,
    calls: Seq<LoadProgress>,
    answers: Seq<Result<Decoded<S>, String>>,
    asked: Seq<Asked>,
    total: nat,
    call: LoadProgress,
    answer: Result<Decoded<S>, String>,
    ask: Asked,
)
    requires
        calls_made(load, calls, answers, asked, total),
        call_ensures(load, (call,), answer),
        told(call, asked.push(ask), asked.len() as int, total),
    ensures
        calls_made(load, calls.push(call), answers.push(answer), asked.push(ask), total),
{
    let calls2 = calls.push(call);
    let answers2 = answers.push(answer);
    assert forall|n: int| 0 <= n < answers2.len() implies #[trigger] call_ensures(
        load,
        (calls2[n],),
        answers2[n],
    ) by {
        if n < answers.len() {
            assert(call_ensures(load, (calls[n],), answers[n]));
        }
    }
    assert forall|n: int| 0 <= n < answers2.len() implies told(
        #[trigger] calls2[n],
        asked.push(ask),
        n,
        total,
    ) by {
        if n < answers.len() {
            assert(told(calls[n], asked, n, total));
        }
    }
}

/// What is told of a sample that was not asked for before may be told.
proof fn lemma_next_is_due<S>(
    regions: Seq<Region>,
    limits: LoadLimits,
    answers: Seq<Result<Decoded<S>, String>>,
    i: int,
    p: LoadProgress,
)
    requires
        regions.len() <= usize::MAX,
        0 <= i < regions.len(),
        ({
            let st = regions_loaded(regions.take(i), limits, answers);
            &&& asked_index(st.asked, regions[i].sample@) is None
            &&& p.path@ == regions[i].sample@
            &&& p.index == st.asked.len() + 1
            &&& p.total == sample_paths(regions).len()
            &&& p.bytes_loaded == st.bytes
        }),
    ensures
        progress_due(sample_paths(regions), limits, p),
{
    let now = regions.take(i);
    let st = regions_loaded(now, limits, answers);
    let all = given_paths(regions);
    law_samples_are_asked_in_order(now, limits, answers);
    law_loading_is_sound(now, limits, answers);
    lemma_asked_is_seen(st.asked, regions[i].sample@);
    assert(given_paths(now) =~= all.take(i));
    paths::law_deduped_paths_are_distinct(all.take(i));
    lemma_samples_of_first(all, i + 1);
    let next = all.take(i + 1);
    assert(next.drop_last() =~= all.take(i));
    assert(next.last() == regions[i].sample@);
    let first = paths::deduped(next);
    assert(first == sample_paths(now).push(p.path@));
    assert(first[st.asked.len() as int] == p.path@);
    assert(sample_paths(regions)[st.asked.len() as int] == first[st.asked.len() as int]);
}

/// Loads the samples that a parsed file needs, each once, by calls of `load`,
/// which is told how far loading has come. For some answers of `load`, one for
/// each sample, the report is what loading makes of them.
pub fn build_load_report_with_progress<S, F: Fn(LoadProgress) -> Result<Decoded<S>, String>>(
    parsed: SfzFile,
    limits: LoadLimits,
    load: F,
) -> (r: LoadReport<S>)
    requires
        forall|p: LoadProgress|
            progress_due(sample_paths(parsed.regions@), limits, p) ==> #[trigger] call_requires(
                load,
                (p,),
            ),
    ensures
        exists|
            calls: Seq<LoadProgress>,
            answers: Seq<Result<Decoded<S>, String>>,
        |
            report_is(r, regions_loaded(parsed.regions@, limits, answers)) && #[trigger] calls_made(
                load,
                calls,
                answers,
                regions_loaded(parsed.regions@, limits, answers).asked,
                sample_paths(parsed.regions@).len(),
            ),
{
    let total = count_samples(&parsed.regions);
    let ghost all = parsed.regions@;
    let ghost mut calls: Seq<LoadProgress> = Seq::empty();
    let ghost mut answers: Seq<Result<Decoded<S>, String>> = Seq::empty();
    let ghost mut st: LoadState<S> = load_start();
    let errors: Vec<(String, String)> = Vec::new();
    assert(errors_model(errors@) =~= Seq::empty());
    let mut l: Loading<S> = Loading {
        placed: Vec::new(),
        samples: Vec::new(),
        regions: Vec::new(),
        errors,
        bytes: 0,
    };
    assert(all.take(0) =~= Seq::empty());
    let regions = parsed.regions;
    let count: usize = regions.len();
    for region in iter: regions
        invariant
            iter.seq() == all,
            count == all.len(),
            total == sample_paths(all).len(),
            forall|p: LoadProgress|
                progress_due(sample_paths(all), limits, p) ==> #[trigger] call_requires(
                    load,
                    (p,),
                ),
            st == regions_loaded(all.take(iter.index() as int), limits, answers),
            loading_is(l, st),
            calls_made(load, calls, answers, st.asked, total as nat),
            st.asked.len() <= iter.index(),
    {
        let ghost i = iter.index() as int;
        assert(all.take(i + 1).drop_last() =~= all.take(i));
        assert(all[i] == region);
        let ghost before = st;
        let mut at: Option<usize> = l.find(&region.sample, Ghost(st));
        if at.is_none() {
            let k: usize = l.placed.len();
            let p = LoadProgress {
                path: copy_text(&region.sample),
                index: k + 1,
                total,
                bytes_loaded: l.bytes,
            };
            let ghost q = p;
            proof {
                lemma_next_is_due(all, limits, answers, i, q);
            }
            let answer = load(p);
            let ghost more = answers.push(answer);
            proof {
                lemma_more_answers(all.take(i), limits, answers, more);
                let ask = Asked { path: region.sample@, bytes_loaded: st.bytes };
                lemma_one_more_call(load, calls, answers, st.asked, total as nat, q, answer, ask);
                st = sample_answered(st, region.sample@, answer, limits);
                calls = calls.push(q);
                answers = more;
                assert(st.asked.drop_last() =~= before.asked);
                assert(asked_index(st.asked, region.sample@) == Some(k as int));
            }
            l = l.answer(&region.sample, answer, &limits, Ghost(before));
            at = Some(k);
        }
        proof {
            assert(loading_is(l, st));
            st = region_placed(st, region);
            assert(st == regions_loaded(all.take(i + 1), limits, answers));
        }
        if let Some(k) = at {
            if let Some(sample_index) = l.placed[k].index {
                l.regions.push(InstrumentRegion { region, sample_index });
            }
        }
    }
    assert(all.take(all.len() as int) =~= all);
    LoadReport {
        instrument: Instrument { regions: l.regions, samples: l.samples },
        errors: l.errors,
        bytes_loaded: l.bytes,
    }
}

/// Loads the samples that a parsed file needs, as
/// `build_load_report_with_progress` does, by calls of `load` with their
/// paths.
pub fn build_load_report<S, F: Fn(String) -> Result<Decoded<S>, String>>(
    parsed: SfzFile,
    limits: LoadLimits,
    load: F,
) -> (r: LoadReport<S>)
    requires
        forall|path: String|
            sample_paths(parsed.regions@).contains(path@) ==> #[trigger] call_requires(
                load,
                (path,),
            ),
    ensures
        exists|
            paths: Seq<String>,
            answers: Seq<Result<Decoded<S>, String>>,
        |
            report_is(r, regions_loaded(parsed.regions@, limits, answers)) && #[trigger] paths_loaded(
                load,
                paths,
                answers,
                regions_loaded(parsed.regions@, limits, answers).asked,
            ),
{
    let by_path = &load;
    let quiet = |p: LoadProgress| -> (answer: Result<Decoded<S>, String>)
        requires
            by_path.requires((p.path,)),
        ensures
            by_path.ensures((p.path,), answer),
        { by_path(p.path) };
    let r = build_load_report_with_progress(parsed, limits, quiet);
    proof {
        let (calls, answers) = choose|
            calls: Seq<LoadProgress>,
            answers: Seq<Result<Decoded<S>, String>>,
        |
            report_is(r, regions_loaded(parsed.regions@, limits, answers)) && #[trigger] calls_made(
                quiet,
                calls,
                answers,
                regions_loaded(parsed.regions@, limits, answers).asked,
                sample_paths(parsed.regions@).len(),
            );
        let st = regions_loaded(parsed.regions@, limits, answers);
        let called = calls.map_values(|p: LoadProgress| p.path);
        assert forall|n: int| 0 <= n < answers.len() implies #[trigger] call_ensures(
            load,
            (called[n],),
            answers[n],
        ) by {
            assert(call_ensures(quiet, (calls[n],), answers[n]));
        }
        assert forall|n: int| 0 <= n < answers.len() implies (#[trigger] called[n])@
            == st.asked[n].path by {
            assert(told(calls[n], st.asked, n, sample_paths(parsed.regions@).len()));
        }
        assert(paths_loaded(load, called, answers, st.asked));
    }
    r
}

/// Whether `answers` are what `load` gave back when it was called with
/// `paths`, and the paths are those that were asked for.
pub open spec fn paths_loaded<S, F: Fn(String) -> Result<Decoded<S>, String>>(
    load: F,
    paths: Seq<String>,
    answers: Seq<Result<Decoded<S>, String>>,
    asked: Seq<Asked>,
) -> bool {
    &&& paths.len() == answers.len() == asked.len()
    &&& forall|n: int|
        0 <= n < answers.len() ==> #[trigger] call_ensures(load, (paths[n],), answers[n])
    &&& forall|n: int| 0 <= n < answers.len() ==> (#[trigger] paths[n])@ == asked[n].path
}

/// The instrument that a parsed file describes, loaded under the usual
/// limits.
pub fn build_instrument<S, F: Fn(String) -> Result<Decoded<S>, String>>(
    parsed: SfzFile,
    load: F,
) -> (r: Instrument<S>)
    requires
        forall|path: String|
            sample_paths(parsed.regions@).contains(path@) ==> #[trigger] call_requires(
                load,
                (path,),
            ),
    ensures
        exists|
            limits: LoadLimits,
            paths: Seq<String>,
            answers: Seq<Result<Decoded<S>, String>>,
        |
            {
                let st = regions_loaded(parsed.regions@, limits, answers);
                &&& limits.max_sample_bytes == 64 * 1024 * 1024
                &&& limits.max_total_bytes == 512 * 1024 * 1024
                &&& r.regions@ == st.regions
                &&& r.samples@ == st.samples
                &&& #[trigger] paths_loaded(
                    load,
                    paths,
                    answers,
                    regions_loaded(parsed.regions@, limits, answers).asked,
                )
            },
{
    build_load_report(parsed, LoadLimits::default(), load).instrument
}

/// The directory from which the samples of an SFZ file are taken: the one that
/// the file is in.
pub open spec fn base_dir(path: Seq<char>) -> Seq<char> {
    match paths::parent(path) {
        Some(dir) => dir,
        None => "."@,
    }
}

/// The samples that an SFZ file plays, each once, in the order in which they
/// first occur.
pub open spec fn sfz_samples(path: Seq<char>, text: Seq<char>) -> Seq<Seq<char>> {
    paths::deduped(
        file::sfz_regions(text, base_dir(path)).map_values(|r: RegionModel| r.sample),
    )
}

/// Parses the text of an SFZ file that was read from `path`.
fn parse_at(path: &str, text: &str) -> (r: SfzFile)
    ensures
        file::regions_model(r.regions@) == file::sfz_regions(text@, base_dir(path@)),
        sample_paths(r.regions@) == sfz_samples(path@, text@),
{
    let base = match parent_of(path) {
        Some(dir) => dir,
        None => ".".to_owned(),
    };
    let parsed = SfzFile::parse(text, base.as_str());
    assert(given_paths(parsed.regions@) =~= file::regions_model(parsed.regions@).map_values(
        |r: RegionModel| r.sample,
    ));
    parsed
}

/// Parses the text of an SFZ file that was read from `path`, and loads its
/// samples by calls of `load`, which is told how far loading has come.
pub fn load_sfz_with_progress<S, F: Fn(LoadProgress) -> Result<Decoded<S>, String>>(
    path: &str,
    text: &str,
    limits: LoadLimits,
    load: F,
) -> (r: LoadReport<S>)
    requires
        forall|p: LoadProgress|
            progress_due(sfz_samples(path@, text@), limits, p) ==> #[trigger] call_requires(
                load,
                (p,),
            ),
    ensures
        exists|
            regions: Seq<Region>,
            calls: Seq<LoadProgress>,
            answers: Seq<Result<Decoded<S>, String>>,
        |
            {
                &&& file::regions_model(regions) == file::sfz_regions(text@, base_dir(path@))
                &&& report_is(r, regions_loaded(regions, limits, answers))
                &&& #[trigger] calls_made(
                    load,
                    calls,
                    answers,
                    regions_loaded(regions, limits, answers).asked,
                    sample_paths(regions).len(),
                )
            },
{
    build_load_report_with_progress(parse_at(path, text), limits, load)
}

/// Parses the text of an SFZ file that was read from `path`, and loads its
/// samples by calls of `load` with their paths.
pub fn load_sfz_with_limits<S, F: Fn(String) -> Result<Decoded<S>, String>>(
    path: &str,
    text: &str,
    limits: LoadLimits,
    load: F,
) -> (r: LoadReport<S>)
    requires
        forall|p: String|
            sfz_samples(path@, text@).contains(p@) ==> #[trigger] call_requires(load, (p,)),
    ensures
        sfz_loaded(load, path@, text@, limits, r),
{
    build_load_report(parse_at(path, text), limits, load)
}

/// Parses the text of an SFZ file that was read from `path`, and loads its
/// samples under the usual limits.
pub fn load_sfz<S, F: Fn(String) -> Result<Decoded<S>, String>>(
    path: &str,
    text: &str,
    load: F,
) -> (r: LoadReport<S>)
    requires
        forall|p: String|
            sfz_samples(path@, text@).contains(p@) ==> #[trigger] call_requires(load, (p,)),
    ensures
        exists|limits: LoadLimits|
            limits.max_sample_bytes == 64 * 1024 * 1024 && limits.max_total_bytes == 512 * 1024
                * 1024 && #[trigger] sfz_loaded(load, path@, text@, limits, r),
{
    load_sfz_with_limits(path, text, LoadLimits::default(), load)
}

/// Whether a report may be that of loading the samples of an SFZ file.
pub open spec fn sfz_loaded<S, F: Fn(String) -> Result<Decoded<S>, String>>(
    load: F,
    path: Seq<char>,
    text: Seq<char>,
    limits: LoadLimits,
    r: LoadReport<S>,
) -> bool {
    exists|
        regions: Seq<Region>,
        called: Seq<String>,
        answers: Seq<Result<Decoded<S>, String>>,
    |
        {
            &&& file::regions_model(regions) == file::sfz_regions(text, base_dir(path))
            &&& report_is(r, regions_loaded(regions, limits, answers))
            &&& #[trigger] paths_loaded(
                load,
                called,
                answers,
                regions_loaded(regions, limits, answers).asked,
            )
        }
}

// ---------------------------------------------------------------------------
// Laws
// ---------------------------------------------------------------------------

/// What holds at every point of loading.
pub open spec fn load_sound<S>(st: LoadState<S>, regions: Seq<Region>, limits: LoadLimits) -> bool {
    &&& st.bytes <= limits.max_total_bytes
    &&& st.placed.len() == st.asked.len()
    &&& st.samples.len() + st.errors.len() == st.asked.len()
    &&& st.asked.len() <= regions.len()
    &&& forall|i: int| 0 <= i < st.placed.len() ==> (#[trigger] st.placed[i] matches Some(k) ==> k
        < st.samples.len())
    &&& forall|i: int|
        0 <= i < st.regions.len() ==> (#[trigger] st.regions[i]).sample_index < st.samples.len()
}

/// Every region of a loaded instrument plays a sample of its bank, and the
/// samples together stay within the limit. Of the samples that were asked for,
/// each was loaded or is among the errors.
pub proof fn law_loading_is_sound<S>(
    regions: Seq<Region>,
    limits: LoadLimits,
    answers: Seq<Result<Decoded<S>, String>>,
)
    requires
        regions.len() <= usize::MAX,
    ensures
        load_sound(regions_loaded(regions, limits, answers), regions, limits),
    decreases regions.len(),
{
    if regions.len() > 0 {
        let rest = regions.drop_last();
        let region = regions.last();
        law_loading_is_sound(rest, limits, answers);
        let st = regions_loaded(rest, limits, answers);
        lemma_asked_index(st.asked, region.sample@);
        let known = if asked_index(st.asked, region.sample@) is Some {
            st
        } else {
            sample_answered(st, region.sample@, answers[st.asked.len() as int], limits)
        };
        lemma_asked_index(known.asked, region.sample@);
        let end = regions_loaded(regions, limits, answers);
        assert forall|i: int| 0 <= i < known.placed.len() implies (
        #[trigger] known.placed[i] matches Some(k) ==> k < known.samples.len()) by {
            if i < st.placed.len() {
                assert(known.placed[i] == st.placed[i]);
            }
        }
        assert forall|i: int| 0 <= i < end.regions.len() implies (
        #[trigger] end.regions[i]).sample_index < end.samples.len() by {
            if i < st.regions.len() {
                assert(end.regions[i] == st.regions[i]);
            } else {
                let k = asked_index(known.asked, region.sample@)->0;
                assert(known.placed[k] is Some);
            }
        }
    }
}

/// Every sample in the bank is played by some region, so there are no more
/// samples than regions.
pub proof fn law_every_sample_is_played<S>(
    regions: Seq<Region>,
    limits: LoadLimits,
    answers: Seq<Result<Decoded<S>, String>>,
)
    requires
        regions.len() <= usize::MAX,
    ensures
        ({
            let st = regions_loaded(regions, limits, answers);
            &&& st.samples.len() <= st.regions.len()
            &&& forall|k: int|
                0 <= k < st.samples.len() ==> #[trigger] sample_played(st.regions, k)
        }),
    decreases regions.len(),
{
    if regions.len() > 0 {
        let rest = regions.drop_last();
        let region = regions.last();
        law_every_sample_is_played(rest, limits, answers);
        law_loading_is_sound(rest, limits, answers);
        let st = regions_loaded(rest, limits, answers);
        let end = regions_loaded(regions, limits, answers);
        let known = if asked_index(st.asked, region.sample@) is Some {
            st
        } else {
            sample_answered(st, region.sample@, answers[st.asked.len() as int], limits)
        };
        assert(known.samples.len() > st.samples.len() ==> end.regions == st.regions.push(
            InstrumentRegion { region, sample_index: st.samples.len() as usize },
        )) by {
            if known.samples.len() > st.samples.len() {
                assert(known.asked.last().path == region.sample@);
                assert(asked_index(known.asked, region.sample@) == Some(known.asked.len() - 1));
            }
        }
        assert forall|k: int| 0 <= k < end.samples.len() implies #[trigger] sample_played(
            end.regions,
            k,
        ) by {
            if k < st.samples.len() {
                assert(sample_played(st.regions, k));
                let i = choose|i: int|
                    0 <= i < st.regions.len() && (#[trigger] st.regions[i]).sample_index == k;
                assert(end.regions[i].sample_index == k);
            } else {
                assert(end.regions[st.regions.len() as int].sample_index == k);
            }
        }
    }
}

/// Whether some region plays the sample at index `k`.
pub open spec fn sample_played(regions: Seq<InstrumentRegion>, k: int) -> bool {
    exists|i: int| 0 <= i < regions.len() && (#[trigger] regions[i]).sample_index == k
}

/// The paths that were asked for.
pub open spec fn asked_paths(asked: Seq<Asked>) -> Seq<Seq<char>> {
    asked.map_values(|a: Asked| a.path)
}

/// Each sample that the regions play is asked for once, whether it can be
/// loaded or not, in the order in which the samples first occur, and no other
/// is.
pub proof fn law_samples_are_asked_in_order<S>(
    regions: Seq<Region>,
    limits: LoadLimits,
    answers: Seq<Result<Decoded<S>, String>>,
)
    ensures
        asked_paths(regions_loaded(regions, limits, answers).asked) == sample_paths(regions),
    decreases regions.len(),
{
    let all = given_paths(regions);
    let st = regions_loaded(regions, limits, answers);
    if regions.len() == 0 {
        assert(all =~= Seq::empty());
        assert(asked_paths(st.asked) =~= Seq::empty());
    } else {
        let rest = regions.drop_last();
        let path = regions.last().sample@;
        let before = regions_loaded(rest, limits, answers);
        law_samples_are_asked_in_order(rest, limits, answers);
        assert(all.drop_last() =~= given_paths(rest));
        lemma_asked_is_seen(before.asked, path);
        paths::law_deduped_paths_are_distinct(given_paths(rest));
        if asked_index(before.asked, path) is None {
            assert(asked_paths(st.asked) =~= asked_paths(before.asked).push(path));
        }
    }
}

/// No sample is asked for twice, whether it could be loaded or not.
pub proof fn law_each_sample_is_asked_once<S>(
    regions: Seq<Region>,
    limits: LoadLimits,
    answers: Seq<Result<Decoded<S>, String>>,
)
    ensures
        ({
            let asked = regions_loaded(regions, limits, answers).asked;
            forall|i: int, j: int|
                0 <= i < j < asked.len() ==> paths::path_key((#[trigger] asked[i]).path)
                    != paths::path_key((#[trigger] asked[j]).path)
        }),
    decreases regions.len(),
{
    if regions.len() > 0 {
        law_each_sample_is_asked_once(regions.drop_last(), limits, answers);
        let st = regions_loaded(regions.drop_last(), limits, answers);
        lemma_asked_index(st.asked, regions.last().sample@);
    }
}

/// The errors name no sample twice, and only samples that were asked for.
pub proof fn law_errors_name_each_sample_once<S>(
    regions: Seq<Region>,
    limits: LoadLimits,
    answers: Seq<Result<Decoded<S>, String>>,
)
    ensures
        ({
            let st = regions_loaded(regions, limits, answers);
            &&& forall|i: int, j: int|
                0 <= i < j < st.errors.len() ==> paths::path_key((#[trigger] st.errors[i]).0)
                    != paths::path_key((#[trigger] st.errors[j]).0)
            &&& forall|i: int|
                0 <= i < st.errors.len() ==> asked_index(
                    st.asked,
                    (#[trigger] st.errors[i]).0,
                ) is Some
        }),
    decreases regions.len(),
{
    if regions.len() > 0 {
        law_errors_name_each_sample_once(regions.drop_last(), limits, answers);
        let before = regions_loaded(regions.drop_last(), limits, answers);
        let st = regions_loaded(regions, limits, answers);
        let path = regions.last().sample@;
        lemma_asked_index(before.asked, path);
        if asked_index(before.asked, path) is None {
            assert(st.asked.drop_last() =~= before.asked);
            assert forall|i: int| 0 <= i < before.errors.len() implies paths::path_key(
                (#[trigger] before.errors[i]).0,
            ) != paths::path_key(path) by {
                lemma_asked_index(before.asked, before.errors[i].0);
            }
            assert forall|i: int| 0 <= i < st.errors.len() implies asked_index(
                st.asked,
                (#[trigger] st.errors[i]).0,
            ) is Some by {
                if i < before.errors.len() {
                    assert(st.errors[i] == before.errors[i]);
                }
            }
        }
    }
}

/// The regions of a loaded instrument are regions of the file, in its order.
pub proof fn law_regions_keep_their_order<S>(
    regions: Seq<Region>,
    limits: LoadLimits,
    answers: Seq<Result<Decoded<S>, String>>,
)
    ensures
        in_order(regions_loaded(regions, limits, answers).regions, regions),
    decreases regions.len(),
{
    if regions.len() > 0 {
        law_regions_keep_their_order(regions.drop_last(), limits, answers);
        let kept = regions_loaded(regions, limits, answers).regions;
        if kept.len() > regions_loaded(regions.drop_last(), limits, answers).regions.len() {
            assert(kept.drop_last() =~= regions_loaded(
                regions.drop_last(),
                limits,
                answers,
            ).regions);
        }
    }
}

/// Whether the regions that were kept are some of all regions, in their order.
pub open spec fn in_order(kept: Seq<InstrumentRegion>, all: Seq<Region>) -> bool
    decreases all.len(),
{
    if all.len() == 0 {
        kept.len() == 0
    } else {
        in_order(kept, all.drop_last()) || (kept.len() > 0 && kept.last().region == all.last()
            && in_order(kept.drop_last(), all.drop_last()))
    }
}

/// A sample is kept exactly where it came back, its bytes (four for each number) are
/// within the limit on one, and together with what is loaded within the limit on all.
/// One that is left out is told, with its path, and takes no bytes.
pub proof fn law_limits_decide_on_a_sample<S>(
    st: LoadState<S>,
    path: Seq<char>,
    answer: Result<Decoded<S>, String>,
    limits: LoadLimits,
)
    ensures
        ({
            let after = sample_answered(st, path, answer, limits);
            let fits = match answer {
                Ok(d) => 4 * d.numbers <= limits.max_sample_bytes && st.bytes + 4 * d.numbers
                    <= limits.max_total_bytes,
                Err(_) => false,
            };
            &&& after.asked == st.asked.push(Asked { path, bytes_loaded: st.bytes })
            &&& after.regions == st.regions
            &&& fits ==> match answer {
                Ok(d) => {
                    &&& after.samples == st.samples.push(d.sample)
                    &&& after.bytes == st.bytes + 4 * d.numbers
                    &&& after.errors == st.errors
                    &&& after.placed.last() == Some(st.samples.len())
                },
                Err(_) => false,
            }
            &&& !fits ==> {
                &&& after.samples == st.samples
                &&& after.bytes == st.bytes
                &&& after.errors.len() == st.errors.len() + 1
                &&& after.errors.last().0 == path
                &&& after.placed.last() is None
                &&& answer matches Err(reason) ==> after.errors.last().1 == reason@
            }
        }),
{
}

/// Whether a sample of the bank is what came back for a path.
pub open spec fn came_back_for<S>(
    st: LoadState<S>,
    answers: Seq<Result<Decoded<S>, String>>,
    path: Seq<char>,
    k: int,
) -> bool {
    exists|n: int|
        0 <= n < st.asked.len() && paths::path_key((#[trigger] st.asked[n]).path)
            == paths::path_key(path) && (answers[n] matches Ok(d) && 0 <= k < st.samples.len()
            && st.samples[k] == d.sample)
}

/// What holds between what was asked for and what is in the bank.
spec fn bank_in_order<S>(st: LoadState<S>, answers: Seq<Result<Decoded<S>, String>>) -> bool {
    &&& st.placed.len() == st.asked.len()
    &&& forall|n: int|
        0 <= n < st.placed.len() ==> (#[trigger] st.placed[n] matches Some(k) ==> k
            < st.samples.len() && (answers[n] matches Ok(d) && d.sample == st.samples[k as int]))
}

proof fn lemma_bank_in_order<S>(
    regions: Seq<Region>,
    limits: LoadLimits,
    answers: Seq<Result<Decoded<S>, String>>,
)
    ensures
        bank_in_order(regions_loaded(regions, limits, answers), answers),
    decreases regions.len(),
{
    if regions.len() > 0 {
        let st = regions_loaded(regions.drop_last(), limits, answers);
        lemma_bank_in_order(regions.drop_last(), limits, answers);
        let end = regions_loaded(regions, limits, answers);
        assert forall|n: int| 0 <= n < end.placed.len() implies (
        #[trigger] end.placed[n] matches Some(k) ==> k < end.samples.len() && (
        answers[n] matches Ok(d) && d.sample == end.samples[k as int])) by {
            if n < st.placed.len() {
                assert(end.placed[n] == st.placed[n]);
            }
        }
    }
}

/// Every region of a loaded instrument plays the sample that came back for its own
/// path.
pub proof fn law_region_plays_its_own_sample<S>(
    regions: Seq<Region>,
    limits: LoadLimits,
    answers: Seq<Result<Decoded<S>, String>>,
)
    requires
        regions.len() <= usize::MAX,
    ensures
        ({
            let st = regions_loaded(regions, limits, answers);
            forall|i: int|
                0 <= i < st.regions.len() ==> came_back_for(
                    st,
                    answers,
                    (#[trigger] st.regions[i]).region.sample@,
                    st.regions[i].sample_index as int,
                )
        }),
    decreases regions.len(),
{
    if regions.len() > 0 {
        let rest = regions.drop_last();
        let region = regions.last();
        let st = regions_loaded(rest, limits, answers);
        let end = regions_loaded(regions, limits, answers);
        law_region_plays_its_own_sample(rest, limits, answers);
        law_loading_is_sound(regions, limits, answers);
        law_loading_is_sound(rest, limits, answers);
        lemma_bank_in_order(regions, limits, answers);
        assert forall|i: int| 0 <= i < end.regions.len() implies came_back_for(
            end,
            answers,
            (#[trigger] end.regions[i]).region.sample@,
            end.regions[i].sample_index as int,
        ) by {
            if i < st.regions.len() {
                assert(end.regions[i] == st.regions[i]);
                let path = st.regions[i].region.sample@;
                let k = st.regions[i].sample_index as int;
                let n = choose|n: int|
                    0 <= n < st.asked.len() && paths::path_key((#[trigger] st.asked[n]).path)
                        == paths::path_key(path) && (answers[n] matches Ok(d) && 0 <= k
                        < st.samples.len() && st.samples[k] == d.sample);
                assert(end.asked[n] == st.asked[n]);
                assert(end.samples[k] == st.samples[k]);
            } else {
                lemma_asked_index(end.asked, region.sample@);
                let n = asked_index(end.asked, region.sample@)->0;
                assert(end.placed[n] is Some);
                assert(end.asked[n].path == end.asked[n].path);
            }
        }
    }
}

/// Whether a region is among those of an instrument.
pub open spec fn is_kept<S>(st: LoadState<S>, region: Region) -> bool {
    exists|j: int| 0 <= j < st.regions.len() && (#[trigger] st.regions[j]).region == region
}

/// A region is left out only where its sample is: where the path of its sample is among
/// the errors.
pub proof fn law_no_other_region_is_left_out<S>(
    regions: Seq<Region>,
    limits: LoadLimits,
    answers: Seq<Result<Decoded<S>, String>>,
    i: int,
)
    requires
        0 <= i < regions.len() <= usize::MAX,
    ensures
        ({
            let st = regions_loaded(regions, limits, answers);
            is_kept(st, regions[i]) || exists|e: int|
                0 <= e < st.errors.len() && paths::path_key((#[trigger] st.errors[e]).0)
                    == paths::path_key(regions[i].sample@)
        }),
    decreases regions.len(),
{
    let rest = regions.drop_last();
    let st = regions_loaded(rest, limits, answers);
    let end = regions_loaded(regions, limits, answers);
    let last = regions.last();
    lemma_left_out_is_told(regions, limits, answers);
    if i < rest.len() {
        law_no_other_region_is_left_out(rest, limits, answers, i);
        assert(rest[i] == regions[i]);
        if is_kept(st, regions[i]) {
            let j = choose|j: int|
                0 <= j < st.regions.len() && (#[trigger] st.regions[j]).region == regions[i];
            assert(end.regions[j] == st.regions[j]);
        } else {
            let e = choose|e: int|
                0 <= e < st.errors.len() && paths::path_key((#[trigger] st.errors[e]).0)
                    == paths::path_key(regions[i].sample@);
            assert(end.errors[e] == st.errors[e]);
        }
    } else {
        let known = if asked_index(st.asked, last.sample@) is Some {
            st
        } else {
            sample_answered(st, last.sample@, answers[st.asked.len() as int], limits)
        };
        lemma_asked_index(st.asked, last.sample@);
        lemma_asked_index(known.asked, last.sample@);
        if asked_index(st.asked, last.sample@) is None {
            assert(known.asked.last().path == last.sample@);
            assert(asked_index(known.asked, last.sample@) is Some);
        }
        let n = asked_index(known.asked, last.sample@)->0;
        assert(end.placed == known.placed);
        match known.placed[n] {
            Some(k) => {
                assert(end.regions[st.regions.len() as int].region == last);
            },
            None => {
                assert(end.placed[n] is None);
                let e = choose|e: int|
                    0 <= e < end.errors.len() && (#[trigger] end.errors[e]).0
                        == end.asked[n].path;
                assert(paths::path_key(end.errors[e].0) == paths::path_key(last.sample@));
            },
        }
    }
}

proof fn lemma_left_out_is_told<S>(
    regions: Seq<Region>,
    limits: LoadLimits,
    answers: Seq<Result<Decoded<S>, String>>,
)
    ensures
        ({
            let st = regions_loaded(regions, limits, answers);
            &&& st.placed.len() == st.asked.len()
            &&& forall|n: int|
                0 <= n < st.placed.len() && (#[trigger] st.placed[n]) is None ==> exists|e: int|
                    0 <= e < st.errors.len() && (#[trigger] st.errors[e]).0 == st.asked[n].path
        }),
    decreases regions.len(),
{
    if regions.len() > 0 {
        let st = regions_loaded(regions.drop_last(), limits, answers);
        let end = regions_loaded(regions, limits, answers);
        lemma_left_out_is_told(regions.drop_last(), limits, answers);
        assert forall|n: int| 0 <= n < end.placed.len() && (
        #[trigger] end.placed[n]) is None implies exists|e: int|
            0 <= e < end.errors.len() && (#[trigger] end.errors[e]).0 == end.asked[n].path by {
            if n < st.placed.len() {
                assert(end.placed[n] == st.placed[n]);
                let e = choose|e: int|
                    0 <= e < st.errors.len() && (#[trigger] st.errors[e]).0 == st.asked[n].path;
                assert(end.errors[e] == st.errors[e]);
            } else {
                assert(end.errors[end.errors.len() - 1].0 == end.asked[n].path);
            }
        }
    }
}

/// The path of an SFZ file tells where its samples are looked for: in its directory.
pub proof fn law_samples_are_looked_for_beside_the_file(dirs: Seq<Seq<char>>, name: Seq<char>)
    requires
        forall|i: int| 0 <= i < dirs.len() ==> paths::is_plain_part(#[trigger] dirs[i]),
        paths::is_plain_part(name),
        name != seq!['.', '.'],
    ensures
        paths::path_parts(base_dir(paths::each_behind_a_slash(dirs.push(name)))) == dirs,
        paths::is_absolute(base_dir(paths::each_behind_a_slash(dirs.push(name)))),
{
    paths::law_path_leads_from_its_directory_to_its_file(dirs, name);
}

/// How many bytes loading grows by where this comes back: none where the sample failed
/// or goes over a limit.
pub open spec fn bytes_gained<S>(
    answer: Result<Decoded<S>, String>,
    loaded: int,
    limits: LoadLimits,
) -> int {
    match answer {
        Ok(d) => if 4 * d.numbers <= limits.max_sample_bytes && loaded + 4 * d.numbers
            <= limits.max_total_bytes {
            4 * d.numbers
        } else {
            0
        },
        Err(_) => 0,
    }
}

/// How many bytes were loaded when the sample number `n` was asked for; behind the last
/// one, how many were loaded in all.
spec fn bytes_before<S>(st: LoadState<S>, n: int) -> int {
    if n < st.asked.len() {
        st.asked[n].bytes_loaded as int
    } else {
        st.bytes as int
    }
}

/// Whether the samples that were asked for tell how loading grew.
spec fn grows<S>(
    st: LoadState<S>,
    limits: LoadLimits,
    answers: Seq<Result<Decoded<S>, String>>,
) -> bool {
    &&& bytes_before(st, 0) == 0
    &&& forall|n: int|
        0 <= n < st.asked.len() ==> #[trigger] bytes_before(st, n + 1) == st.asked[n].bytes_loaded
            + bytes_gained(answers[n], st.asked[n].bytes_loaded as int, limits)
}

proof fn lemma_loading_grows<S>(
    regions: Seq<Region>,
    limits: LoadLimits,
    answers: Seq<Result<Decoded<S>, String>>,
)
    ensures
        grows(regions_loaded(regions, limits, answers), limits, answers),
    decreases regions.len(),
{
    let end = regions_loaded(regions, limits, answers);
    if regions.len() > 0 {
        let rest = regions.drop_last();
        let path = regions.last().sample@;
        let st = regions_loaded(rest, limits, answers);
        lemma_loading_grows(rest, limits, answers);
        if asked_index(st.asked, path) is Some {
            assert(end.asked == st.asked && end.bytes == st.bytes);
            assert forall|n: int| 0 <= n < end.asked.len() implies #[trigger] bytes_before(
                end,
                n + 1,
            ) == end.asked[n].bytes_loaded + bytes_gained(
                answers[n],
                end.asked[n].bytes_loaded as int,
                limits,
            ) by {
                assert(bytes_before(end, n + 1) == bytes_before(st, n + 1));
            }
        } else {
            let m = st.asked.len() as int;
            assert(end.asked == st.asked.push(Asked { path, bytes_loaded: st.bytes }));
            assert(end.bytes == st.bytes + bytes_gained(answers[m], st.bytes as int, limits));
            assert forall|n: int| 0 <= n < end.asked.len() implies #[trigger] bytes_before(
                end,
                n + 1,
            ) == end.asked[n].bytes_loaded + bytes_gained(
                answers[n],
                end.asked[n].bytes_loaded as int,
                limits,
            ) by {
                if n < m {
                    assert(end.asked[n] == st.asked[n]);
                    assert(bytes_before(end, n + 1) == bytes_before(st, n + 1));
                }
            }
            assert(bytes_before(end, 0) == bytes_before(st, 0));
        }
    }
}

/// Whether some region plays the sample under a path.
pub open spec fn some_region_plays(regions: Seq<Region>, path: Seq<char>) -> bool {
    exists|i: int| 0 <= i < regions.len() && (#[trigger] regions[i]).sample@ == path
}

/// Whoever loads the samples is told of each one its path, its number from 1 on, how many
/// there are, and how many bytes were loaded until then. That number starts at nothing,
/// grows by the size of each sample that is kept, and ends as what the report tells.
pub proof fn law_progress_tells_how_far_loading_is<
    S,
    F: Fn(LoadProgress) -> Result<Decoded<S>, String>,
>(
    load: F,
    calls: Seq<LoadProgress>,
    answers: Seq<Result<Decoded<S>, String>>,
    regions: Seq<Region>,
    limits: LoadLimits,
    r: LoadReport<S>,
)
    requires
        report_is(r, regions_loaded(regions, limits, answers)),
        calls_made(
            load,
            calls,
            answers,
            regions_loaded(regions, limits, answers).asked,
            sample_paths(regions).len(),
        ),
    ensures
        calls.len() == answers.len(),
        forall|n: int|
            0 <= n < calls.len() ==> (#[trigger] calls[n]).index == n + 1 && calls[n].total
                == calls.len() && some_region_plays(regions, calls[n].path@) && call_ensures(
                load,
                (calls[n],),
                answers[n],
            ),
        forall|m: int, n: int|
            0 <= m < n < calls.len() ==> paths::path_key((#[trigger] calls[m]).path@)
                != paths::path_key((#[trigger] calls[n]).path@),
        calls.len() == 0 ==> r.bytes_loaded == 0,
        calls.len() > 0 ==> calls[0].bytes_loaded == 0,
        forall|n: int|
            0 <= n < calls.len() ==> (if n + 1 < calls.len() {
                calls[n + 1].bytes_loaded
            } else {
                r.bytes_loaded
            }) == (#[trigger] calls[n]).bytes_loaded + bytes_gained(
                answers[n],
                calls[n].bytes_loaded as int,
                limits,
            ),
{
    let st = regions_loaded(regions, limits, answers);
    let total = sample_paths(regions).len();
    law_samples_are_asked_in_order(regions, limits, answers);
    law_each_sample_is_asked_once(regions, limits, answers);
    lemma_loading_grows(regions, limits, answers);
    assert(asked_paths(st.asked).len() == st.asked.len());
    let from = paths::law_first_of_each_path_is_kept(given_paths(regions));
    assert forall|n: int| 0 <= n < calls.len() implies (#[trigger] calls[n]).index == n + 1
        && calls[n].total == calls.len() && some_region_plays(regions, calls[n].path@)
        && call_ensures(load, (calls[n],), answers[n]) by {
        assert(told(calls[n], st.asked, n, total));
        assert(call_ensures(load, (calls[n],), answers[n]));
        assert(asked_paths(st.asked)[n] == st.asked[n].path);
        assert(given_paths(regions)[from[n]] == regions[from[n]].sample@);
    }
    assert forall|m: int, n: int| 0 <= m < n < calls.len() implies paths::path_key(
        (#[trigger] calls[m]).path@,
    ) != paths::path_key((#[trigger] calls[n]).path@) by {
        assert(told(calls[m], st.asked, m, total));
        assert(told(calls[n], st.asked, n, total));
        assert(paths::path_key(st.asked[m].path) != paths::path_key(st.asked[n].path));
    }
    if calls.len() > 0 {
        assert(told(calls[0], st.asked, 0, total));
    }
    assert forall|n: int| 0 <= n < calls.len() implies (if n + 1 < calls.len() {
        calls[n + 1].bytes_loaded
    } else {
        r.bytes_loaded
    }) == (#[trigger] calls[n]).bytes_loaded + bytes_gained(
        answers[n],
        calls[n].bytes_loaded as int,
        limits,
    ) by {
        assert(told(calls[n], st.asked, n, total));
        if n + 1 < calls.len() {
            assert(told(calls[n + 1], st.asked, n + 1, total));
        }
        assert(bytes_before(st, n + 1) == st.asked[n].bytes_loaded + bytes_gained(
            answers[n],
            st.asked[n].bytes_loaded as int,
            limits,
        ));
    }
}

/// Whoever loads the samples by their paths is asked for those that regions play, for
/// none twice.
pub proof fn law_samples_are_loaded_by_their_paths<S, F: Fn(String) -> Result<Decoded<S>, String>>(
    load: F,
    called: Seq<String>,
    answers: Seq<Result<Decoded<S>, String>>,
    regions: Seq<Region>,
    limits: LoadLimits,
)
    requires
        paths_loaded(load, called, answers, regions_loaded(regions, limits, answers).asked),
    ensures
        called.len() == answers.len(),
        forall|n: int|
            0 <= n < called.len() ==> some_region_plays(regions, (#[trigger] called[n])@)
                && call_ensures(load, (called[n],), answers[n]),
        forall|m: int, n: int|
            0 <= m < n < called.len() ==> paths::path_key((#[trigger] called[m])@)
                != paths::path_key((#[trigger] called[n])@),
        forall|i: int| 0 <= i < regions.len() ==> is_called(called, (#[trigger] regions[i]).sample@),
{
    let st = regions_loaded(regions, limits, answers);
    law_samples_are_asked_in_order(regions, limits, answers);
    law_each_sample_is_asked_once(regions, limits, answers);
    assert(asked_paths(st.asked).len() == st.asked.len());
    let given = given_paths(regions);
    let from = paths::law_first_of_each_path_is_kept(given);
    assert forall|n: int| 0 <= n < called.len() implies some_region_plays(
        regions,
        (#[trigger] called[n])@,
    ) && call_ensures(load, (called[n],), answers[n]) by {
        assert(call_ensures(load, (called[n],), answers[n]));
        assert(asked_paths(st.asked)[n] == st.asked[n].path);
        assert(given[from[n]] == regions[from[n]].sample@);
    }
    assert forall|m: int, n: int| 0 <= m < n < called.len() implies paths::path_key(
        (#[trigger] called[m])@,
    ) != paths::path_key((#[trigger] called[n])@) by {
        assert(called[m]@ == st.asked[m].path);
        assert(called[n]@ == st.asked[n].path);
    }
    assert forall|i: int| 0 <= i < regions.len() implies is_called(
        called,
        (#[trigger] regions[i]).sample@,
    ) by {
        let path = regions[i].sample@;
        assert(given[i] == path);
        paths::lemma_deduped_sees(given, path);
        assert(paths::path_seen(given, path));
        assert(paths::path_seen(paths::deduped(given), path));
        let n = choose|n: int|
            0 <= n < paths::deduped(given).len() && paths::path_key(
                #[trigger] paths::deduped(given)[n],
            ) == paths::path_key(path);
        assert(asked_paths(st.asked)[n] == st.asked[n].path);
        assert(called[n]@ == st.asked[n].path);
    }
}

/// Whether a sample was asked for under this path or one that means the same.
pub open spec fn is_called(called: Seq<String>, path: Seq<char>) -> bool {
    exists|n: int|
        0 <= n < called.len() && paths::path_key((#[trigger] called[n])@) == paths::path_key(path)
}

/// A report holds regions of the file in their order and samples that came back, and for
/// each sample that was asked for the sample or a complaint, which names its path.
pub proof fn law_report_tells_what_came_back<S>(
    r: LoadReport<S>,
    regions: Seq<Region>,
    limits: LoadLimits,
    answers: Seq<Result<Decoded<S>, String>>,
)
    requires
        regions.len() <= usize::MAX,
        report_is(r, regions_loaded(regions, limits, answers)),
    ensures
        in_order(r.instrument.regions@, regions),
        r.instrument.samples@.len() + r.errors@.len() == sample_paths(regions).len(),
        r.bytes_loaded <= limits.max_total_bytes,
        forall|i: int|
            0 <= i < r.instrument.regions@.len() ==> (#[trigger] r.instrument.regions@[i])
                .sample_index < r.instrument.samples@.len() && holds_answer(
                answers,
                r.instrument.samples@[r.instrument.regions@[i].sample_index as int],
            ),
        forall|e: int|
            0 <= e < r.errors@.len() ==> some_region_plays(regions, (#[trigger] r.errors@[e]).0@),
{
    let st = regions_loaded(regions, limits, answers);
    law_regions_keep_their_order(regions, limits, answers);
    law_loading_is_sound(regions, limits, answers);
    law_samples_are_asked_in_order(regions, limits, answers);
    law_region_plays_its_own_sample(regions, limits, answers);
    assert(asked_paths(st.asked).len() == st.asked.len());
    assert(errors_model(r.errors@).len() == r.errors@.len());
    assert forall|i: int| 0 <= i < r.instrument.regions@.len() implies (
    #[trigger] r.instrument.regions@[i]).sample_index < r.instrument.samples@.len() && holds_answer(
        answers,
        r.instrument.samples@[r.instrument.regions@[i].sample_index as int],
    ) by {
        assert(came_back_for(
            st,
            answers,
            st.regions[i].region.sample@,
            st.regions[i].sample_index as int,
        ));
    }
    assert forall|e: int| 0 <= e < r.errors@.len() implies some_region_plays(
        regions,
        (#[trigger] r.errors@[e]).0@,
    ) by {
        assert(errors_model(r.errors@)[e].0 == r.errors@[e].0@);
        lemma_errors_are_played(regions, limits, answers, e);
    }
}

/// Whether a sample is one that came back.
pub open spec fn holds_answer<S>(answers: Seq<Result<Decoded<S>, String>>, sample: S) -> bool {
    exists|n: int| #[trigger] answers[n] is Ok && answers[n]->Ok_0.sample == sample
}

proof fn lemma_errors_are_played<S>(
    regions: Seq<Region>,
    limits: LoadLimits,
    answers: Seq<Result<Decoded<S>, String>>,
    e: int,
)
    requires
        0 <= e < regions_loaded(regions, limits, answers).errors.len(),
    ensures
        some_region_plays(regions, regions_loaded(regions, limits, answers).errors[e].0),
    decreases regions.len(),
{
    let rest = regions.drop_last();
    let st = regions_loaded(rest, limits, answers);
    let end = regions_loaded(regions, limits, answers);
    if e < st.errors.len() {
        lemma_errors_are_played(rest, limits, answers, e);
        let path = st.errors[e].0;
        let i = choose|i: int| 0 <= i < rest.len() && (#[trigger] rest[i]).sample@ == path;
        assert(regions[i].sample@ == path);
        assert(end.errors[e] == st.errors[e]);
    } else {
        assert(regions[regions.len() - 1].sample@ == end.errors[e].0);
    }
}

/// Whether this is said of a sample for which that came back, when so many bytes were
/// loaded already: what the loader said where it failed, else the limit that was passed,
/// with the sizes in mebibytes.
pub open spec fn is_complaint<S>(
    answer: Result<Decoded<S>, String>,
    loaded: nat,
    limits: LoadLimits,
    said: Seq<char>,
) -> bool {
    match answer {
        Err(reason) => said == reason@,
        Ok(d) => {
            let of_sample = text::decimal_text((4 * d.numbers / 1048576) as nat);
            let of_one = text::decimal_text((limits.max_sample_bytes / 1048576) as nat);
            let of_all = text::decimal_text((limits.max_total_bytes / 1048576) as nat);
            let of_loaded = text::decimal_text(loaded / 1048576);
            if 4 * d.numbers > limits.max_sample_bytes {
                said == "sample is "@ + of_sample + " MiB; over max_sample_bytes cap of "@ + of_one
                    + " MiB"@
            } else {
                &&& loaded + 4 * d.numbers > limits.max_total_bytes
                &&& said == "would exceed max_total_bytes cap of "@ + of_all
                    + " MiB (currently "@ + of_loaded + " MiB loaded, +"@ + of_sample
                    + " MiB requested)"@
            }
        },
    }
}

/// Whether a complaint is about the sample number `n` that was asked for.
pub open spec fn complains_of<S>(
    st: LoadState<S>,
    answers: Seq<Result<Decoded<S>, String>>,
    limits: LoadLimits,
    complaint: (Seq<char>, Seq<char>),
    n: int,
) -> bool {
    &&& 0 <= n < st.asked.len()
    &&& complaint.0 == st.asked[n].path
    &&& is_complaint(answers[n], st.asked[n].bytes_loaded, limits, complaint.1)
}

/// Each complaint is about a sample that was asked for: it names its path, and says why
/// it is left out.
pub proof fn law_complaints_say_why<S>(
    regions: Seq<Region>,
    limits: LoadLimits,
    answers: Seq<Result<Decoded<S>, String>>,
    e: int,
) -> (n: int)
    requires
        0 <= e < regions_loaded(regions, limits, answers).errors.len(),
    ensures
        complains_of(
            regions_loaded(regions, limits, answers),
            answers,
            limits,
            regions_loaded(regions, limits, answers).errors[e],
            n,
        ),
    decreases regions.len(),
{
    let rest = regions.drop_last();
    let st = regions_loaded(rest, limits, answers);
    let end = regions_loaded(regions, limits, answers);
    if e < st.errors.len() {
        let n = law_complaints_say_why(rest, limits, answers, e);
        assert(end.errors[e] == st.errors[e]);
        assert(end.asked[n] == st.asked[n]);
        n
    } else {
        st.asked.len() as int
    }
}

/// The same holds of a path that does not start at the root. Where a path has no parts,
/// samples are looked for where the program runs.
pub proof fn law_samples_are_looked_for_beside_a_relative_file(
    dirs: Seq<Seq<char>>,
    name: Seq<char>,
    path: Seq<char>,
)
    requires
        forall|i: int| 0 <= i < dirs.len() ==> paths::is_plain_part(#[trigger] dirs[i]),
        paths::is_plain_part(name),
        paths::path_parts(path).len() == 0,
    ensures
        base_dir(paths::slash_between(dirs.push(name))) == paths::slash_between(dirs),
        base_dir(path) == "."@,
{
    paths::law_relative_path_leads_from_its_directory_to_its_file(dirs, name);
}

} // verus!
