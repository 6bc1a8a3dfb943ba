//! The scan cache: what was found in each bundle, and when the bundle had last
//! changed.
//!
//! Loading a bundle is expensive, so a scan loads only those that have changed
//! since. The time of a bundle is the latest of all files in it, links
//! followed: that of the bundle itself need not change when a file inside
//! does. Failures are kept too; a bundle that does not load is not tried again
//! until it changes. A cache file of another schema is not used.

use vstd::prelude::*;
use vstd::string::*;

use crate::paths;
use crate::paths::same_path;
use crate::plugin::bundle;
use crate::plugin::bundle::{
    copy_descriptors, ClapError, DescriptorModel, PluginDescriptor, ScannedBundle,
};
use crate::plugin::discover;
use crate::plugin::discover::{discover_paths, DirEntry, ScanResult};
use crate::plugin::times;
use crate::plugin::times::{bundle_mtime, FileStat};
use crate::text;
use crate::text::copy_text;

verus! {

/// The schema of cache files that this build writes and reads.
pub const CACHE_SCHEMA_VERSION: u32 = 1;

/// A bundle as it was scanned.
#[derive(Debug)]
pub struct CacheEntry {
    pub path: String,
    /// When the bundle had last changed: seconds and nanoseconds.
    pub mtime: (u64, u32),
    /// What the bundle says of its plugins; nothing where it did not load.
    pub descriptors: Vec<PluginDescriptor>,
    /// Why the bundle did not load, where it did not.
    pub error: Option<String>,
}

/// What an entry says.
pub ghost struct EntryModel {
    pub path: Seq<char>,
    pub mtime: (u64, u32),
    pub descriptors: Seq<DescriptorModel>,
    pub error: Option<Seq<char>>,
}

impl View for CacheEntry {
    type V = EntryModel;

    open spec fn view(&self) -> EntryModel {
        EntryModel {
            path: self.path@,
            mtime: self.mtime,
            descriptors: bundle::descriptor_views(self.descriptors@),
            error: match self.error {
                Some(e) => Some(e@),
                None => None,
            },
        }
    }
}

/// What several entries say.
pub open spec fn entry_views(v: Seq<CacheEntry>) -> Seq<EntryModel> {
    v.map_values(|e: CacheEntry| e@)
}

/// A cache file.
#[derive(Debug)]
pub struct CacheFile {
    pub schema_version: u32,
    pub entries: Vec<CacheEntry>,
}

/// What a scan with the cache did.
#[derive(Debug)]
pub struct CachedScanOutcome {
    /// The bundles, from the cache and freshly loaded.
    pub result: ScanResult,
    /// How many bundles came from the cache.
    pub cache_hits: usize,
    /// How many bundles were loaded.
    pub loaded: usize,
}

impl Default for CachedScanOutcome {
    fn default() -> (r: CachedScanOutcome)
        ensures
            r.result.bundles@.len() == 0,
            r.result.errors@.len() == 0,
            r.cache_hits == 0,
            r.loaded == 0,
    {
        CachedScanOutcome { result: ScanResult::default(), cache_hits: 0, loaded: 0 }
    }
}

// ---------------------------------------------------------------------------
// The cache
// ---------------------------------------------------------------------------

/// The entry for a path, where there is one: the last.
pub open spec fn cached_entry(cached: Seq<EntryModel>, path: Seq<char>) -> Option<EntryModel>
    decreases cached.len(),
{
    if cached.len() == 0 {
        None
    } else if paths::path_key(cached.last().path) == paths::path_key(path) {
        Some(cached.last())
    } else {
        cached_entry(cached.drop_last(), path)
    }
}

/// The entry that spares loading a bundle: the one for its path, where it is
/// of the same time.
pub open spec fn cache_hit(cached: Seq<EntryModel>, path: Seq<char>, mtime: (u64, u32)) -> Option<
    EntryModel,
> {
    match cached_entry(cached, path) {
        Some(e) => if e.mtime == mtime {
            Some(e)
        } else {
            None
        },
        None => None,
    }
}

/// The entry for a bundle that was loaded, or was not.
pub open spec fn loaded_entry(
    path: Seq<char>,
    mtime: (u64, u32),
    answer: Result<ScannedBundle, ClapError>,
) -> EntryModel {
    match answer {
        Ok(b) => EntryModel {
            path,
            mtime,
            descriptors: bundle::descriptor_views(b.descriptors@),
            error: None,
        },
        Err(e) => EntryModel {
            path,
            mtime,
            descriptors: Seq::empty(),
            error: Some(bundle::error_words(e)),
        },
    }
}

/// Whether `entry` may be the one for a bundle after a scan: from the cache
/// where that spares loading, else from what `loader` gives back.
pub open spec fn entry_made<L: Fn(String) -> Result<ScannedBundle, ClapError>>(
    cached: Seq<EntryModel>,
    loader: L,
    path: Seq<char>,
    mtime: (u64, u32),
    entry: EntryModel,
) -> bool {
    match cache_hit(cached, path, mtime) {
        Some(e) => entry == e,
        None => exists|answer: Result<ScannedBundle, ClapError>| #[trigger]
            discover::load_made(loader, path, answer) && entry == loaded_entry(
                path,
                mtime,
                answer,
            ),
    }
}

/// Whether `entries` may be those for bundles found at `found`, with the times
/// `times`.
pub open spec fn entries_made<L: Fn(String) -> Result<ScannedBundle, ClapError>>(
    cached: Seq<EntryModel>,
    loader: L,
    found: Seq<Seq<char>>,
    times: Seq<(u64, u32)>,
    entries: Seq<EntryModel>,
) -> bool {
    &&& entries.len() == found.len() == times.len()
    &&& forall|i: int|
        0 <= i < found.len() ==> entry_made(
            cached,
            loader,
            found[i],
            times[i],
            #[trigger] entries[i],
        )
}

/// How many bundles the cache spares loading.
pub open spec fn hit_count(
    cached: Seq<EntryModel>,
    found: Seq<Seq<char>>,
    times: Seq<(u64, u32)>,
) -> nat
    decreases found.len(),
{
    if found.len() == 0 {
        0
    } else {
        hit_count(cached, found.drop_last(), times) + if cache_hit(
            cached,
            found.last(),
            times[found.len() - 1],
        ) is Some {
            1nat
        } else {
            0nat
        }
    }
}

/// Whether `times` may be those of bundles.
pub open spec fn bundles_timed<T: Fn(String) -> Option<FileStat>>(
    stat: T,
    found: Seq<Seq<char>>,
    times: Seq<(u64, u32)>,
) -> bool {
    &&& times.len() == found.len()
    &&& forall|i: int|
        0 <= i < found.len() ==> times::bundle_timed(stat, found[i], #[trigger] times[i])
}

/// A bundle with what it says of its plugins.
pub ghost struct BundleModel {
    pub path: Seq<char>,
    pub descriptors: Seq<DescriptorModel>,
}

/// What several bundles say.
pub open spec fn bundle_views(v: Seq<ScannedBundle>) -> Seq<BundleModel> {
    v.map_values(
        |b: ScannedBundle|
            BundleModel { path: b.path@, descriptors: bundle::descriptor_views(b.descriptors@) },
    )
}

/// The bundles among entries that describe a plugin at least.
pub open spec fn entry_bundles(entries: Seq<EntryModel>) -> Seq<BundleModel>
    decreases entries.len(),
{
    if entries.len() == 0 {
        Seq::empty()
    } else if entries.last().error is None && entries.last().descriptors.len() > 0 {
        entry_bundles(entries.drop_last()).push(
            BundleModel { path: entries.last().path, descriptors: entries.last().descriptors },
        )
    } else {
        entry_bundles(entries.drop_last())
    }
}

/// Every bundle that a scan with a cache gives describes a plugin at least.
pub proof fn law_cached_bundles_describe_plugins(entries: Seq<EntryModel>)
    ensures
        forall|i: int|
            0 <= i < entry_bundles(entries).len() ==> (
            #[trigger] entry_bundles(entries)[i]).descriptors.len() > 0,
    decreases entries.len(),
{
    if entries.len() > 0 {
        let rest = entry_bundles(entries.drop_last());
        law_cached_bundles_describe_plugins(entries.drop_last());
        assert forall|i: int| 0 <= i < entry_bundles(entries).len() implies (
        #[trigger] entry_bundles(entries)[i]).descriptors.len() > 0 by {
            if i < rest.len() {
                assert(entry_bundles(entries)[i] == rest[i]);
            }
        }
    }
}

/// The errors among entries.
pub open spec fn entry_errors(entries: Seq<EntryModel>) -> Seq<(Seq<char>, Seq<char>)>
    decreases entries.len(),
{
    if entries.len() == 0 {
        Seq::empty()
    } else {
        match entries.last().error {
            Some(e) => entry_errors(entries.drop_last()).push((entries.last().path, e)),
            None => entry_errors(entries.drop_last()),
        }
    }
}

/// Whether an outcome says what a scan with a cache did.
pub open spec fn outcome_of(
    outcome: CachedScanOutcome,
    cached: Seq<EntryModel>,
    found: Seq<Seq<char>>,
    times: Seq<(u64, u32)>,
    entries: Seq<EntryModel>,
) -> bool {
    &&& outcome.cache_hits == hit_count(cached, found, times)
    &&& outcome.cache_hits + outcome.loaded == found.len()
    &&& bundle_views(outcome.result.bundles@) == entry_bundles(entries)
    &&& discover::error_views(outcome.result.errors@) == entry_errors(entries)
}

impl Clone for CacheEntry {
    fn clone(&self) -> (r: CacheEntry)
        ensures
            r@ == self@,
    {
        CacheEntry {
            path: copy_text(&self.path),
            mtime: self.mtime,
            descriptors: copy_descriptors(&self.descriptors),
            error: match &self.error {
                Some(e) => Some(copy_text(e)),
                None => None,
            },
        }
    }
}

/// The entry that spares loading a bundle.
fn find_hit(cached: &Vec<CacheEntry>, path: &String, mtime: (u64, u32)) -> (r: Option<CacheEntry>)
    ensures
        (match r {
            Some(e) => cache_hit(entry_views(cached@), path@, mtime) == Some(e@),
            None => cache_hit(entry_views(cached@), path@, mtime) is None,
        }),
{
    let ghost models = entry_views(cached@);
    let mut i: usize = cached.len();
    assert(models.take(i as int) =~= models);
    while i > 0
        invariant
            i <= cached.len(),
            models == entry_views(cached@),
            cached_entry(models.take(i as int), path@) == cached_entry(models, path@),
        decreases i,
    {
        assert(models.take(i as int).drop_last() =~= models.take(i - 1));
        i = i - 1;
        assert(models[i as int] == cached@[i as int]@);
        if same_path(cached[i].path.as_str(), path.as_str()) {
            let e = &cached[i];
            return if e.mtime.0 == mtime.0 && e.mtime.1 == mtime.1 {
                Some(e.clone())
            } else {
                None
            };
        }
    }
    None
}

/// What the entries after a scan say of the bundles.
fn collect_result(entries: &Vec<CacheEntry>) -> (r: ScanResult)
    ensures
        bundle_views(r.bundles@) == entry_bundles(entry_views(entries@)),
        discover::error_views(r.errors@) == entry_errors(entry_views(entries@)),
        discover::all_describe(r.bundles@),
{
    let ghost models = entry_views(entries@);
    let mut bundles: Vec<ScannedBundle> = Vec::new();
    let mut errors: Vec<(String, String)> = Vec::new();
    let n: usize = entries.len();
    assert(models.take(0) =~= Seq::empty());
    assert(bundle_views(bundles@) =~= Seq::empty());
    assert(discover::error_views(errors@) =~= Seq::empty());
    for i in 0..n
        invariant
            n == entries.len(),
            models == entry_views(entries@),
            bundle_views(bundles@) == entry_bundles(models.take(i as int)),
            discover::error_views(errors@) == entry_errors(models.take(i as int)),
    {
        let e = &entries[i];
        assert(models.take(i + 1).drop_last() =~= models.take(i as int));
        assert(models[i as int] == e@);
        let ghost had_bundles = bundle_views(bundles@);
        let ghost had_errors = discover::error_views(errors@);
        match &e.error {
            None => {
                assert(e@.descriptors.len() == e.descriptors.len());
                if e.descriptors.len() > 0 {
                    let b = ScannedBundle {
                        path: copy_text(&e.path),
                        descriptors: copy_descriptors(&e.descriptors),
                    };
                    bundles.push(b);
                    assert(bundle_views(bundles@) =~= had_bundles.push(
                        BundleModel { path: e@.path, descriptors: e@.descriptors },
                    ));
                }
            },
            Some(message) => {
                errors.push((copy_text(&e.path), copy_text(message)));
                assert(discover::error_views(errors@) =~= had_errors.push((e@.path, message@)));
            },
        }
    }
    assert(models.take(n as int) =~= models);
    proof {
        law_cached_bundles_describe_plugins(models);
        let shown = bundle_views(bundles@);
        assert forall|i: int| 0 <= i < bundles@.len() implies (
        #[trigger] bundles@[i]).descriptors@.len() > 0 by {
            assert(shown[i].descriptors.len() == bundles@[i].descriptors@.len());
        }
    }
    ScanResult { bundles, errors }
}

/// Whether an outcome and the entries to keep may be those of a scan of
/// directories with a cache.
pub open spec fn scanned_with_cache<
    F: Fn(String) -> Vec<DirEntry>,
    T: Fn(String) -> Option<FileStat>,
    L: Fn(String) -> Result<ScannedBundle, ClapError>,
>(
    list: F,
    stat: T,
    loader: L,
    dirs: Seq<String>,
    cached: Seq<EntryModel>,
    outcome: CachedScanOutcome,
    entries: Seq<EntryModel>,
) -> bool {
    exists|found: Seq<Seq<char>>, times: Seq<(u64, u32)>|
        discover::paths_discovered(list, dirs, found) && #[trigger] bundles_timed(
            stat,
            found,
            times,
        ) && entries_made(cached, loader, found, times, entries) && outcome_of(
            outcome,
            cached,
            found,
            times,
            entries,
        )
}

/// Whether a scan of directories may ask what a file is: only one in a bundle
/// that is found there.
pub open spec fn may_be_looked_at<
    F: Fn(String) -> Vec<DirEntry>,
    T: Fn(String) -> Option<FileStat>,
>(list: F, stat: T, dirs: Seq<String>, path: Seq<char>) -> bool {
    exists|bundle: Seq<char>| #[trigger]
        discover::may_be_found(list, dirs, bundle) && times::may_be_asked(
            stat,
            bundle,
            Seq::empty(),
            path,
        )
}

/// Whether a scan of directories may load a bundle: only one that is found
/// there, and that no entry of its time spares loading.
pub open spec fn may_be_loaded<
    F: Fn(String) -> Vec<DirEntry>,
    T: Fn(String) -> Option<FileStat>,
>(list: F, stat: T, dirs: Seq<String>, cached: Seq<EntryModel>, path: Seq<char>) -> bool {
    discover::may_be_found(list, dirs, path) && exists|t: (u64, u32)| #[trigger]
        times::bundle_timed(stat, path, t) && cache_hit(cached, path, t) is None
}

/// Scans directories with the entries of a cache: a bundle is loaded only
/// where it is new or has changed, and `loader` need take no other. Gives the outcome, and the entries to keep:
/// one for each bundle that is there.
pub fn scan_paths_cached_with<
    F: Fn(String) -> Vec<DirEntry>,
    T: Fn(String) -> Option<FileStat>,
    L: Fn(String) -> Result<ScannedBundle, ClapError>,
>(dirs: &Vec<String>, cached: &Vec<CacheEntry>, list: F, stat: T, loader: L) -> (r: (
    CachedScanOutcome,
    Vec<CacheEntry>,
))
    requires
        forall|d: String|
            discover::may_be_listed_in_any(list, dirs@, d@) ==> #[trigger] call_requires(
                list,
                (d,),
            ),
        forall|p: String|
            may_be_looked_at(list, stat, dirs@, p@) ==> #[trigger] call_requires(stat, (p,)),
        forall|p: String|
            may_be_loaded(list, stat, dirs@, entry_views(cached@), p@) ==> #[trigger] call_requires(
                loader,
                (p,),
            ),
    ensures
        scanned_with_cache(
            list,
            stat,
            loader,
            dirs@,
            entry_views(cached@),
            r.0,
            entry_views(r.1@),
        ),
        discover::all_describe(r.0.result.bundles@),
{
    let ghost lister = list;
    let found = discover_paths(dirs, list);
    let ghost all = found@;
    let ghost models = text::string_views(all);
    let ghost known = entry_views(cached@);
    let ghost mut times: Seq<(u64, u32)> = Seq::empty();
    let mut fresh: Vec<CacheEntry> = Vec::new();
    let mut cache_hits: usize = 0;
    let mut loaded: usize = 0;
    let count: usize = found.len();
    assert(models.take(0) =~= Seq::empty());
    for path in iter: found
        invariant
            iter.seq() == all,
            count == all.len(),
            models == text::string_views(all),
            known == entry_views(cached@),
            forall|p: String|
                may_be_looked_at(lister, stat, dirs@, p@) ==> #[trigger] call_requires(stat, (p,)),
            discover::paths_discovered(lister, dirs@, models),
            forall|p: String|
                may_be_loaded(lister, stat, dirs@, known, p@) ==> #[trigger] call_requires(
                    loader,
                    (p,),
                ),
            times.len() == iter.index() == fresh.len(),
            forall|i: int|
                0 <= i < times.len() ==> times::bundle_timed(stat, models[i], #[trigger] times[i]),
            forall|i: int|
                0 <= i < fresh.len() ==> entry_made(
                    known,
                    loader,
                    models[i],
                    times[i],
                    (#[trigger] fresh@[i])@,
                ),
            cache_hits == hit_count(known, models.take(iter.index() as int), times),
            cache_hits + loaded == iter.index(),
    {
        let ghost i = iter.index() as int;
        assert(models[i] == path@);
        assert(models.take(i + 1).drop_last() =~= models.take(i));
        assert(discover::may_be_found(lister, dirs@, path@)) by {
            assert(models.contains(path@));
        }
        assert forall|p: String|
            times::may_be_asked(stat, path@, Seq::empty(), p@) implies #[trigger] call_requires(
            stat,
            (p,),
        ) by {
            assert(may_be_looked_at(lister, stat, dirs@, p@));
        }
        let mtime = bundle_mtime(path.as_str(), &stat);
        let ghost before = times;
        let ghost kept = fresh@;
        proof {
            times = times.push(mtime);
            lemma_hit_count_prefix(known, models.take(i), before, times);
            assert forall|k: int| 0 <= k < times.len() implies times::bundle_timed(
                stat,
                models[k],
                #[trigger] times[k],
            ) by {
                if k < i {
                    assert(times[k] == before[k]);
                }
            }
        }
        let entry = match find_hit(cached, &path, mtime) {
            Some(e) => {
                cache_hits = cache_hits + 1;
                e
            },
            None => {
                loaded = loaded + 1;
                let asked = copy_text(&path);
                let ghost p = asked;
                assert(may_be_loaded(lister, stat, dirs@, known, p@)) by {
                    assert(models.contains(p@));
                    assert(times::bundle_timed(stat, p@, mtime));
                }
                let answer = loader(asked);
                let ghost given = answer;
                assert(discover::load_made(loader, path@, given)) by {
                    assert(call_ensures(loader, (p,), given));
                }
                match answer {
                    Ok(b) => CacheEntry { path, mtime, descriptors: b.descriptors, error: None },
                    Err(e) => {
                        let none: Vec<PluginDescriptor> = Vec::new();
                        assert(bundle::descriptor_views(none@) =~= Seq::empty());
                        CacheEntry { path, mtime, descriptors: none, error: Some(e.message()) }
                    },
                }
            },
        };
        assert(entry_made(known, loader, models[i], mtime, entry@));
        fresh.push(entry);
        assert forall|k: int| 0 <= k < fresh@.len() implies entry_made(
            known,
            loader,
            models[k],
            times[k],
            (#[trigger] fresh@[k])@,
        ) by {
            if k < i {
                assert(fresh@[k] == kept[k]);
                assert(times[k] == before[k]);
                assert(entry_made(known, loader, models[k], before[k], kept[k]@));
            }
        }
    }
    assert(models.take(all.len() as int) =~= models);
    let result = collect_result(&fresh);
    let outcome = CachedScanOutcome { result, cache_hits, loaded };
    proof {
        let entries = entry_views(fresh@);
        assert forall|i: int| 0 <= i < models.len() implies entry_made(
            known,
            loader,
            models[i],
            times[i],
            #[trigger] entries[i],
        ) by {
            assert(entries[i] == fresh@[i]@);
        }
        assert(bundles_timed(stat, models, times));
    }
    (outcome, fresh)
}

pub(crate) proof fn lemma_hit_count_prefix(
    cached: Seq<EntryModel>,
    found: Seq<Seq<char>>,
    a: Seq<(u64, u32)>,
    b: Seq<(u64, u32)>,
)
    requires
        found.len() <= a.len(),
        found.len() <= b.len(),
        forall|i: int| 0 <= i < found.len() ==> a[i] == b[i],
    ensures
        hit_count(cached, found, a) == hit_count(cached, found, b),
    decreases found.len(),
{
    if found.len() > 0 {
        lemma_hit_count_prefix(cached, found.drop_last(), a, b);
    }
}

/// The entries of a cache file that can be used: none where there is no file,
/// or it is of another schema.
pub open spec fn usable_entries(file: Option<CacheFile>) -> Seq<EntryModel> {
    match file {
        Some(f) => if f.schema_version == CACHE_SCHEMA_VERSION {
            entry_views(f.entries@)
        } else {
            Seq::empty()
        },
        None => Seq::empty(),
    }
}

/// The entries of a cache file that can be used.
pub fn read_cache(file: Option<CacheFile>) -> (r: Vec<CacheEntry>)
    ensures
        entry_views(r@) == usable_entries(file),
{
    match file {
        Some(f) => if f.schema_version == CACHE_SCHEMA_VERSION {
            f.entries
        } else {
            let none: Vec<CacheEntry> = Vec::new();
            assert(entry_views(none@) =~= Seq::empty());
            none
        },
        None => {
            let none: Vec<CacheEntry> = Vec::new();
            assert(entry_views(none@) =~= Seq::empty());
            none
        },
    }
}

/// Scans directories with a cache file, where there is one, and gives the file
/// to write in its place. Only bundles that the file does not spare are loaded.
pub fn scan_paths_cached<
    F: Fn(String) -> Vec<DirEntry>,
    T: Fn(String) -> Option<FileStat>,
    L: Fn(String) -> Result<ScannedBundle, ClapError>,
>(dirs: &Vec<String>, file: Option<CacheFile>, list: F, stat: T, loader: L) -> (r: (
    CachedScanOutcome,
    CacheFile,
))
    requires
        forall|d: String|
            discover::may_be_listed_in_any(list, dirs@, d@) ==> #[trigger] call_requires(
                list,
                (d,),
            ),
        forall|p: String|
            may_be_looked_at(list, stat, dirs@, p@) ==> #[trigger] call_requires(stat, (p,)),
        forall|p: String|
            may_be_loaded(list, stat, dirs@, usable_entries(file), p@) ==> #[trigger] call_requires(
                loader,
                (p,),
            ),
    ensures
        r.1.schema_version == CACHE_SCHEMA_VERSION,
        scanned_with_cache(
            list,
            stat,
            loader,
            dirs@,
            usable_entries(file),
            r.0,
            entry_views(r.1.entries@),
        ),
        discover::all_describe(r.0.result.bundles@),
{
    let cached = read_cache(file);
    let (outcome, entries) = scan_paths_cached_with(dirs, &cached, list, stat, loader);
    (outcome, CacheFile { schema_version: CACHE_SCHEMA_VERSION, entries })
}

// ---------------------------------------------------------------------------
// Laws
// ---------------------------------------------------------------------------

/// Whether no two paths name the same file.
pub open spec fn paths_distinct(found: Seq<Seq<char>>) -> bool {
    forall|i: int, j: int|
        0 <= i < j < found.len() ==> paths::path_key(#[trigger] found[i]) != paths::path_key(
            #[trigger] found[j],
        )
}

proof fn lemma_cached_entry(cached: Seq<EntryModel>, path: Seq<char>)
    ensures
        cached_entry(cached, path) matches Some(e) ==> paths::path_key(e.path) == paths::path_key(
            path,
        ),
    decreases cached.len(),
{
    if cached.len() > 0 {
        lemma_cached_entry(cached.drop_last(), path);
    }
}

/// After a scan there is one entry for each bundle that was found, with its
/// path and its time. Bundles that are gone have none.
pub proof fn law_entries_are_of_found_bundles<L: Fn(String) -> Result<ScannedBundle, ClapError>>(
    cached: Seq<EntryModel>,
    loader: L,
    found: Seq<Seq<char>>,
    times: Seq<(u64, u32)>,
    entries: Seq<EntryModel>,
)
    requires
        entries_made(cached, loader, found, times, entries),
    ensures
        entries.len() == found.len(),
        forall|i: int|
            0 <= i < found.len() ==> paths::path_key((#[trigger] entries[i]).path)
                == paths::path_key(found[i]) && entries[i].mtime == times[i],
{
    assert forall|i: int| 0 <= i < found.len() implies paths::path_key(
        (#[trigger] entries[i]).path,
    ) == paths::path_key(found[i]) && entries[i].mtime == times[i] by {
        assert(entry_made(cached, loader, found[i], times[i], entries[i]));
        lemma_cached_entry(cached, found[i]);
    }
}

proof fn lemma_entry_at(entries: Seq<EntryModel>, found: Seq<Seq<char>>, i: int, n: int)
    requires
        0 <= i < n <= entries.len() == found.len(),
        paths_distinct(found),
        forall|k: int|
            0 <= k < found.len() ==> paths::path_key((#[trigger] entries[k]).path)
                == paths::path_key(found[k]),
    ensures
        cached_entry(entries.take(n), found[i]) == Some(entries[i]),
    decreases n,
{
    let seen = entries.take(n);
    assert(seen.last() == entries[n - 1]);
    assert(paths::path_key(entries[n - 1].path) == paths::path_key(found[n - 1]));
    if n - 1 > i {
        assert(seen.drop_last() =~= entries.take(n - 1));
        lemma_entry_at(entries, found, i, n - 1);
    }
}

/// The entries of one scan spare loading a bundle in the next exactly where
/// its time is still the same, whether it had loaded or not. What they give
/// is what the first scan gave.
pub proof fn law_unchanged_bundle_is_a_hit<L: Fn(String) -> Result<ScannedBundle, ClapError>>(
    cached: Seq<EntryModel>,
    loader: L,
    found: Seq<Seq<char>>,
    times: Seq<(u64, u32)>,
    entries: Seq<EntryModel>,
    i: int,
    now: (u64, u32),
)
    requires
        entries_made(cached, loader, found, times, entries),
        paths_distinct(found),
        0 <= i < found.len(),
    ensures
        cache_hit(entries, found[i], now) == if now == times[i] {
            Some(entries[i])
        } else {
            None
        },
{
    law_entries_are_of_found_bundles(cached, loader, found, times, entries);
    lemma_entry_at(entries, found, i, entries.len() as int);
    assert(entries.take(entries.len() as int) =~= entries);
}

/// A second scan of the same bundles at the same times finds an entry for each
/// of them, and keeps it.
pub proof fn law_second_scan_is_all_hits<
    L: Fn(String) -> Result<ScannedBundle, ClapError>,
    M: Fn(String) -> Result<ScannedBundle, ClapError>,
>(
    cached: Seq<EntryModel>,
    loader: L,
    other: M,
    found: Seq<Seq<char>>,
    times: Seq<(u64, u32)>,
    entries: Seq<EntryModel>,
    again: Seq<EntryModel>,
)
    requires
        entries_made(cached, loader, found, times, entries),
        entries_made(entries, other, found, times, again),
        paths_distinct(found),
    ensures
        hit_count(entries, found, times) == found.len(),
        again == entries,
{
    assert forall|i: int| 0 <= i < found.len() implies cache_hit(
        entries,
        #[trigger] found[i],
        times[i],
    ) == Some(entries[i]) by {
        law_unchanged_bundle_is_a_hit(cached, loader, found, times, entries, i, times[i]);
    }
    assert forall|i: int| 0 <= i < found.len() implies #[trigger] again[i] == entries[i] by {
        assert(entry_made(entries, other, found[i], times[i], again[i]));
    }
    assert(again =~= entries);
    lemma_all_hits(entries, found, times, found.len() as int);
    assert(found.take(found.len() as int) =~= found);
}

proof fn lemma_all_hits(
    cached: Seq<EntryModel>,
    found: Seq<Seq<char>>,
    times: Seq<(u64, u32)>,
    n: int,
)
    requires
        0 <= n <= found.len(),
        forall|i: int|
            0 <= i < found.len() ==> cache_hit(cached, #[trigger] found[i], times[i]) is Some,
    ensures
        hit_count(cached, found.take(n), times) == n,
    decreases n,
{
    if n > 0 {
        assert(found.take(n).drop_last() =~= found.take(n - 1));
        assert(found.take(n).last() == found[n - 1]);
        lemma_all_hits(cached, found, times, n - 1);
    }
}

/// With no cache file, or one of another schema, every bundle is loaded.
pub proof fn law_other_schema_is_not_used(
    file: Option<CacheFile>,
    found: Seq<Seq<char>>,
    times: Seq<(u64, u32)>,
)
    requires
        file matches Some(f) ==> f.schema_version != CACHE_SCHEMA_VERSION,
    ensures
        hit_count(usable_entries(file), found, times) == 0,
    decreases found.len(),
{
    if found.len() > 0 {
        law_other_schema_is_not_used(file, found.drop_last(), times);
    }
}

} // verus!
