//! Finding plugin bundles in directories, and scanning what was found.
//!
//! Directories are listed and bundles loaded by functions that the caller
//! gives. What they answer is not known beforehand; the contracts say what is
//! made of the answers.

use vstd::prelude::*;
use vstd::string::*;

use crate::paths;
use crate::paths::{join_path, path_has_extension, same_path, slash_form, Platform};
use crate::plugin::bundle;
use crate::plugin::bundle::{ClapError, ScannedBundle};
use crate::text;
use crate::text::{chars_of, copy_text, text_of};

verus! {

/// How many directories deep a search goes below its root.
pub const MAX_SCAN_DEPTH: usize = 4;

/// An entry of a directory.
#[derive(Debug, Clone, PartialEq, Eq)]
pub struct DirEntry {
    pub path: String,
    /// Whether the entry is a directory, or a link that may lead to one.
    pub is_dir: bool,
}

// ---------------------------------------------------------------------------
// Walking directories
// ---------------------------------------------------------------------------

/// Whether a path is that of a bundle: a file on most systems, a directory on
/// some.
pub open spec fn is_bundle(path: Seq<char>) -> bool {
    paths::has_extension(path, "clap"@)
}

/// Whether a sequence is made up of two, one behind the other.
pub open spec fn is_concat(whole: Seq<Seq<char>>, a: Seq<Seq<char>>, b: Seq<Seq<char>>) -> bool {
    whole == a + b
}

/// Whether `found` may be what a walk through a directory finds, `depth`
/// directories below the root: there are no more than the deepest, and its
/// entries are as `list` says. A directory that `list` cannot read has none.
pub open spec fn dir_walked<F: Fn(String) -> Vec<DirEntry>>(
    list: F,
    dir: Seq<char>,
    depth: nat,
    found: Seq<Seq<char>>,
) -> bool
    decreases 2 * (MAX_SCAN_DEPTH + 1 - depth) + 1, 0nat,
{
    if depth > MAX_SCAN_DEPTH {
        found.len() == 0
    } else {
        exists|d: String, entries: Vec<DirEntry>|
            d@ == dir && #[trigger] call_ensures(list, (d,), entries) && entries_walked(
                list,
                entries@,
                depth,
                found,
            )
    }
}

/// Whether `found` may be what a walk through entries finds, one by one: a
/// bundle itself, and what a walk through another directory finds.
pub open spec fn entries_walked<F: Fn(String) -> Vec<DirEntry>>(
    list: F,
    entries: Seq<DirEntry>,
    depth: nat,
    found: Seq<Seq<char>>,
) -> bool
    decreases 2 * (MAX_SCAN_DEPTH + 1 - depth), entries.len(),
{
    if depth > MAX_SCAN_DEPTH {
        false
    } else if entries.len() == 0 {
        found.len() == 0
    } else {
        let last = entries.last();
        exists|a: Seq<Seq<char>>, b: Seq<Seq<char>>| #[trigger]
            is_concat(found, a, b) && entries_walked(list, entries.drop_last(), depth, a) && (
            if is_bundle(last.path@) {
                b == seq![last.path@]
            } else if last.is_dir {
                dir_walked(list, last.path@, depth + 1, b)
            } else {
                b.len() == 0
            })
    }
}

/// Whether two lists of entries say the same.
pub open spec fn same_entries(a: Seq<DirEntry>, b: Seq<DirEntry>) -> bool {
    &&& a.len() == b.len()
    &&& forall|i: int|
        0 <= i < a.len() ==> (#[trigger] a[i]).path@ == b[i].path@ && a[i].is_dir == b[i].is_dir
}

/// Whether `list` says the same whenever it is asked for the same directory.
pub open spec fn lists_alike<F: Fn(String) -> Vec<DirEntry>>(list: F) -> bool {
    forall|d: String, e: String, a: Vec<DirEntry>, b: Vec<DirEntry>|
        d@ == e@ && #[trigger] call_ensures(list, (d,), a) && #[trigger] call_ensures(
            list,
            (e,),
            b,
        ) ==> same_entries(a@, b@)
}

/// Where the directories stay as they are, a walk finds the same each time.
pub proof fn law_walk_is_repeatable<F: Fn(String) -> Vec<DirEntry>>(
    list: F,
    dir: Seq<char>,
    depth: nat,
    one: Seq<Seq<char>>,
    two: Seq<Seq<char>>,
)
    requires
        lists_alike(list),
        dir_walked(list, dir, depth, one),
        dir_walked(list, dir, depth, two),
    ensures
        one == two,
    decreases 2 * (MAX_SCAN_DEPTH + 1 - depth) + 1, 0nat,
{
    if depth > MAX_SCAN_DEPTH {
        assert(one =~= two);
    } else {
        let (d, a) = choose|d: String, a: Vec<DirEntry>|
            d@ == dir && #[trigger] call_ensures(list, (d,), a) && entries_walked(
                list,
                a@,
                depth,
                one,
            );
        let (e, b) = choose|e: String, b: Vec<DirEntry>|
            e@ == dir && #[trigger] call_ensures(list, (e,), b) && entries_walked(
                list,
                b@,
                depth,
                two,
            );
        assert(same_entries(a@, b@));
        lemma_entries_walk_is_repeatable(list, a@, b@, depth, one, two);
    }
}

proof fn lemma_entries_walk_is_repeatable<F: Fn(String) -> Vec<DirEntry>>(
    list: F,
    a: Seq<DirEntry>,
    b: Seq<DirEntry>,
    depth: nat,
    one: Seq<Seq<char>>,
    two: Seq<Seq<char>>,
)
    requires
        lists_alike(list),
        same_entries(a, b),
        entries_walked(list, a, depth, one),
        entries_walked(list, b, depth, two),
    ensures
        one == two,
    decreases 2 * (MAX_SCAN_DEPTH + 1 - depth), a.len(),
{
    if a.len() == 0 {
        assert(one =~= two);
    } else {
        let n = a.len() - 1;
        let x = a[n];
        let y = b[n];
        assert(x.path@ == y.path@ && x.is_dir == y.is_dir);
        let (p, q) = choose|p: Seq<Seq<char>>, q: Seq<Seq<char>>| #[trigger]
            is_concat(one, p, q) && entries_walked(list, a.drop_last(), depth, p) && (
            if is_bundle(x.path@) {
                q == seq![x.path@]
            } else if x.is_dir {
                dir_walked(list, x.path@, depth + 1, q)
            } else {
                q.len() == 0
            });
        let (s, t) = choose|s: Seq<Seq<char>>, t: Seq<Seq<char>>| #[trigger]
            is_concat(two, s, t) && entries_walked(list, b.drop_last(), depth, s) && (
            if is_bundle(y.path@) {
                t == seq![y.path@]
            } else if y.is_dir {
                dir_walked(list, y.path@, depth + 1, t)
            } else {
                t.len() == 0
            });
        assert forall|i: int| 0 <= i < n implies (#[trigger] a.drop_last()[i]).path@
            == b.drop_last()[i].path@ && a.drop_last()[i].is_dir == b.drop_last()[i].is_dir by {
            assert(a[i].path@ == b[i].path@);
        }
        lemma_entries_walk_is_repeatable(list, a.drop_last(), b.drop_last(), depth, p, s);
        if is_bundle(x.path@) {
        } else if x.is_dir {
            law_walk_is_repeatable(list, x.path@, depth + 1, q, t);
        } else {
            assert(q =~= t);
        }
    }
}

/// Whether an entry is a directory that a walk goes into. A bundle is not.
pub open spec fn walked_into(entries: Seq<DirEntry>, i: int) -> bool {
    0 <= i < entries.len() && entries[i].is_dir && !is_bundle(entries[i].path@)
}

/// Whether a walk through `dir`, `depth` directories below the root, may ask
/// for the entries of `target`.
pub open spec fn may_be_listed<F: Fn(String) -> Vec<DirEntry>>(
    list: F,
    dir: Seq<char>,
    depth: nat,
    target: Seq<char>,
) -> bool
    decreases MAX_SCAN_DEPTH + 1 - depth,
{
    depth <= MAX_SCAN_DEPTH && (target == dir || exists|
        d: String,
        entries: Vec<DirEntry>,
        i: int,
    |
        d@ == dir && #[trigger] call_ensures(list, (d,), entries) && #[trigger] walked_into(
            entries@,
            i,
        ) && may_be_listed(list, entries@[i].path@, depth + 1, target))
}

/// Whether a walk through one of several directories may ask for the entries of
/// `target`.
pub open spec fn may_be_listed_in_any<F: Fn(String) -> Vec<DirEntry>>(
    list: F,
    dirs: Seq<String>,
    target: Seq<char>,
) -> bool {
    exists|i: int| 0 <= i < dirs.len() && may_be_listed(list, (#[trigger] dirs[i])@, 0, target)
}

/// Adds what a walk through a directory finds.
fn discover_dir_recursive<F: Fn(String) -> Vec<DirEntry>>(
    dir: &str,
    depth: usize,
    list: &F,
    out: &mut Vec<String>,
) -> (found: Ghost<Seq<Seq<char>>>)
    requires
        forall|d: String|
            may_be_listed(*list, dir@, depth as nat, d@) ==> #[trigger] call_requires(*list, (d,)),
        depth <= MAX_SCAN_DEPTH + 1,
    ensures
        dir_walked(*list, dir@, depth as nat, found@),
        text::string_views(final(out)@) == text::string_views(old(out)@) + found@,
    decreases MAX_SCAN_DEPTH + 1 - depth,
{
    let ghost start = text::string_views(out@);
    let ghost mut found: Seq<Seq<char>> = Seq::empty();
    assert(start + found =~= start);
    if depth > MAX_SCAN_DEPTH {
        return Ghost(found);
    }
    let d = dir.to_owned();
    let ghost asked = d;
    let entries = list(d);
    let n: usize = entries.len();
    assert(entries@.take(0) =~= Seq::empty());
    for i in 0..n
        invariant
            n == entries.len(),
            depth <= MAX_SCAN_DEPTH,
            asked@ == dir@,
            call_ensures(*list, (asked,), entries),
            forall|d: String|
                may_be_listed(*list, dir@, depth as nat, d@) ==> #[trigger] call_requires(
                    *list,
                    (d,),
                ),
            entries_walked(*list, entries@.take(i as int), depth as nat, found),
            text::string_views(out@) == start + found,
    {
        let entry = &entries[i];
        let ghost before = found;
        let ghost ways = entries@.take(i + 1);
        assert(ways.drop_last() =~= entries@.take(i as int));
        assert(ways.last() == *entry);
        if path_has_extension(entry.path.as_str(), "clap") {
            let path = copy_text(&entry.path);
            let ghost held = text::string_views(out@);
            out.push(path);
            proof {
                found = before + seq![entry.path@];
                assert(text::string_views(out@) =~= held.push(path@));
                assert(text::string_views(out@) =~= start + found);
                assert(is_concat(found, before, seq![entry.path@]));
            }
        } else if entry.is_dir {
            assert(walked_into(entries@, i as int));
            let more = discover_dir_recursive(entry.path.as_str(), depth + 1, list, out);
            proof {
                found = before + more@;
                assert(text::string_views(out@) =~= start + found);
                assert(is_concat(found, before, more@));
            }
        } else {
            proof {
                assert(is_concat(found, before, Seq::empty())) by {
                    assert(before + Seq::<Seq<char>>::empty() =~= before);
                }
            }
        }
    }
    proof {
        assert(entries@.take(n as int) =~= entries@);
        assert(call_ensures(*list, (asked,), entries));
    }
    Ghost(found)
}

/// Finds the bundles in a directory and in those below it. A bundle that is a
/// directory is not searched.
pub fn discover_dir<F: Fn(String) -> Vec<DirEntry>>(dir: &str, list: F) -> (r: Vec<String>)
    requires
        forall|d: String|
            may_be_listed(list, dir@, 0, d@) ==> #[trigger] call_requires(list, (d,)),
    ensures
        dir_walked(list, dir@, 0, text::string_views(r@)),
{
    let mut out: Vec<String> = Vec::new();
    let found = discover_dir_recursive(dir, 0, &list, &mut out);
    assert(text::string_views(out@) =~= found@);
    out
}

// ---------------------------------------------------------------------------
// Each path once
// ---------------------------------------------------------------------------

/// Whether a path is among those given.
fn is_seen(seen: &Vec<String>, path: &String) -> (r: bool)
    ensures
        r == paths::path_seen(text::string_views(seen@), path@),
{
    let n: usize = seen.len();
    let ghost models = text::string_views(seen@);
    for i in 0..n
        invariant
            n == seen.len(),
            models == text::string_views(seen@),
            forall|j: int|
                0 <= j < i ==> paths::path_key(#[trigger] models[j]) != paths::path_key(path@),
    {
        assert(models[i as int] == seen@[i as int]@);
        if same_path(seen[i].as_str(), path.as_str()) {
            return true;
        }
    }
    false
}

/// Paths without those that stand further ahead too.
pub fn dedupe_paths(v: Vec<String>) -> (r: Vec<String>)
    ensures
        text::string_views(r@) == paths::deduped(text::string_views(v@)),
{
    let ghost all = v@;
    let ghost models = text::string_views(all);
    let mut out: Vec<String> = Vec::new();
    assert(models.take(0) =~= Seq::empty());
    assert(text::string_views(out@) =~= Seq::empty());
    for path in iter: v
        invariant
            iter.seq() == all,
            models == text::string_views(all),
            text::string_views(out@) == paths::deduped(models.take(iter.index() as int)),
    {
        let ghost i = iter.index() as int;
        let ghost before = text::string_views(out@);
        assert(models.take(i + 1).drop_last() =~= models.take(i));
        assert(models[i] == path@);
        proof {
            paths::lemma_deduped_sees(models.take(i), path@);
        }
        if !is_seen(&out, &path) {
            out.push(path);
            assert(text::string_views(out@) =~= before.push(path@));
        }
    }
    assert(models.take(all.len() as int) =~= models);
    out
}

/// Several sequences, one behind the other.
pub open spec fn flat(parts: Seq<Seq<Seq<char>>>) -> Seq<Seq<char>>
    decreases parts.len(),
{
    if parts.len() == 0 {
        Seq::empty()
    } else {
        flat(parts.drop_last()) + parts.last()
    }
}

/// Whether `founds` may be what walks through directories find, one after the
/// other.
pub open spec fn dirs_walked<F: Fn(String) -> Vec<DirEntry>>(
    list: F,
    dirs: Seq<String>,
    founds: Seq<Seq<Seq<char>>>,
) -> bool {
    &&& founds.len() == dirs.len()
    &&& forall|i: int| 0 <= i < dirs.len() ==> dir_walked(list, dirs[i]@, 0, #[trigger] founds[i])
}

/// Whether `found` may be the bundles in several directories, each once.
pub open spec fn paths_discovered<F: Fn(String) -> Vec<DirEntry>>(
    list: F,
    dirs: Seq<String>,
    found: Seq<Seq<char>>,
) -> bool {
    exists|founds: Seq<Seq<Seq<char>>>| #[trigger]
        dirs_walked(list, dirs, founds) && found == paths::deduped(flat(founds))
}

/// Where the directories stay as they are, a search through them finds the
/// same each time.
pub proof fn law_discovery_is_repeatable<F: Fn(String) -> Vec<DirEntry>>(
    list: F,
    dirs: Seq<String>,
    one: Seq<Seq<char>>,
    two: Seq<Seq<char>>,
)
    requires
        lists_alike(list),
        paths_discovered(list, dirs, one),
        paths_discovered(list, dirs, two),
    ensures
        one == two,
{
    let a = choose|a: Seq<Seq<Seq<char>>>| #[trigger]
        dirs_walked(list, dirs, a) && one == paths::deduped(flat(a));
    let b = choose|b: Seq<Seq<Seq<char>>>| #[trigger]
        dirs_walked(list, dirs, b) && two == paths::deduped(flat(b));
    assert forall|i: int| 0 <= i < dirs.len() implies a[i] == b[i] by {
        assert(dir_walked(list, dirs[i]@, 0, a[i]));
        assert(dir_walked(list, dirs[i]@, 0, b[i]));
        law_walk_is_repeatable(list, dirs[i]@, 0, a[i], b[i]);
    }
    assert(a =~= b);
}

/// Whether a bundle may be found in a directory under a path.
pub open spec fn may_be_in<F: Fn(String) -> Vec<DirEntry>>(
    list: F,
    dir: Seq<char>,
    path: Seq<char>,
) -> bool {
    exists|found: Seq<Seq<char>>| #[trigger]
        dir_walked(list, dir, 0, found) && found.contains(path)
}

/// Whether a bundle may be found in one of several directories under a path.
pub open spec fn may_be_in_any<F: Fn(String) -> Vec<DirEntry>>(
    list: F,
    dirs: Seq<String>,
    path: Seq<char>,
) -> bool {
    exists|i: int| 0 <= i < dirs.len() && may_be_in(list, (#[trigger] dirs[i])@, path)
}

/// Whether a search through several directories may find a bundle under a path.
pub open spec fn may_be_found<F: Fn(String) -> Vec<DirEntry>>(
    list: F,
    dirs: Seq<String>,
    path: Seq<char>,
) -> bool {
    exists|found: Seq<Seq<char>>| #[trigger]
        paths_discovered(list, dirs, found) && found.contains(path)
}

/// Finds the bundles in several directories. A bundle that is found twice
/// stands where it was found first.
pub fn discover_paths<F: Fn(String) -> Vec<DirEntry>>(dirs: &Vec<String>, list: F) -> (r: Vec<
    String,
>)
    requires
        forall|d: String|
            may_be_listed_in_any(list, dirs@, d@) ==> #[trigger] call_requires(list, (d,)),
    ensures
        paths_discovered(list, dirs@, text::string_views(r@)),
{
    let mut all: Vec<String> = Vec::new();
    let ghost mut founds: Seq<Seq<Seq<char>>> = Seq::empty();
    let n: usize = dirs.len();
    assert(text::string_views(all@) =~= flat(founds));
    for i in 0..n
        invariant
            n == dirs.len(),
            forall|d: String|
                may_be_listed_in_any(list, dirs@, d@) ==> #[trigger] call_requires(list, (d,)),
            founds.len() == i,
            forall|j: int|
                0 <= j < i ==> dir_walked(list, dirs@[j]@, 0, #[trigger] founds[j]),
            text::string_views(all@) == flat(founds),
    {
        assert forall|d: String|
            may_be_listed(list, dirs@[i as int]@, 0, d@) implies #[trigger] call_requires(
            list,
            (d,),
        ) by {
            assert(may_be_listed_in_any(list, dirs@, d@));
        }
        let found = discover_dir_recursive(dirs[i].as_str(), 0, &list, &mut all);
        proof {
            let before = founds;
            founds = founds.push(found@);
            assert(founds.drop_last() =~= before);
            assert forall|j: int| 0 <= j < i + 1 implies dir_walked(
                list,
                dirs@[j]@,
                0,
                #[trigger] founds[j],
            ) by {
                if j < i {
                    assert(founds[j] == before[j]);
                }
            }
        }
    }
    assert(dirs_walked(list, dirs@, founds));
    dedupe_paths(all)
}

// ---------------------------------------------------------------------------
// Scanning
// ---------------------------------------------------------------------------

/// What a scan gave: the bundles that were loaded and describe a plugin at
/// least, and those that were not loaded, with the reason.
#[derive(Debug, Clone)]
pub struct ScanResult {
    pub bundles: Vec<ScannedBundle>,
    pub errors: Vec<(String, String)>,
}

impl Default for ScanResult {
    fn default() -> (r: ScanResult)
        ensures
            r.bundles@.len() == 0,
            r.errors@.len() == 0,
    {
        ScanResult { bundles: Vec::new(), errors: Vec::new() }
    }
}

/// What a list of errors says.
pub open spec fn error_views(errors: Seq<(String, String)>) -> Seq<(Seq<char>, Seq<char>)> {
    errors.map_values(|e: (String, String)| (e.0@, e.1@))
}

/// Whether `answers` may be what `load` gives back for the paths `found`.
pub open spec fn loads_made<L: Fn(String) -> Result<ScannedBundle, ClapError>>(
    load: L,
    found: Seq<Seq<char>>,
    answers: Seq<Result<ScannedBundle, ClapError>>,
) -> bool {
    &&& answers.len() == found.len()
    &&& forall|i: int| 0 <= i < found.len() ==> load_made(load, found[i], #[trigger] answers[i])
}

/// Whether `answer` may be what `load` gives back for a path.
pub open spec fn load_made<L: Fn(String) -> Result<ScannedBundle, ClapError>>(
    load: L,
    path: Seq<char>,
    answer: Result<ScannedBundle, ClapError>,
) -> bool {
    exists|p: String| p@ == path && #[trigger] call_ensures(load, (p,), answer)
}

/// The bundles among answers.
pub open spec fn loaded_in(answers: Seq<Result<ScannedBundle, ClapError>>) -> Seq<ScannedBundle>
    decreases answers.len(),
{
    if answers.len() == 0 {
        Seq::empty()
    } else {
        match answers.last() {
            Ok(b) => loaded_in(answers.drop_last()).push(b),
            Err(_) => loaded_in(answers.drop_last()),
        }
    }
}

/// The bundles that describe a plugin at least.
pub open spec fn described(bundles: Seq<ScannedBundle>) -> Seq<ScannedBundle>
    decreases bundles.len(),
{
    if bundles.len() == 0 {
        Seq::empty()
    } else if bundles.last().descriptors@.len() > 0 {
        described(bundles.drop_last()).push(bundles.last())
    } else {
        described(bundles.drop_last())
    }
}

/// Whether every bundle describes a plugin at least.
pub open spec fn all_describe(bundles: Seq<ScannedBundle>) -> bool {
    forall|i: int| 0 <= i < bundles.len() ==> (#[trigger] bundles[i]).descriptors@.len() > 0
}

/// Every bundle that a scan of a directory gives describes a plugin at least.
pub proof fn law_scanned_bundles_describe_plugins(bundles: Seq<ScannedBundle>)
    ensures
        all_describe(described(bundles)),
    decreases bundles.len(),
{
    if bundles.len() > 0 {
        law_scanned_bundles_describe_plugins(bundles.drop_last());
    }
}

/// The errors among answers, each with the path that it is about.
pub open spec fn errors_in(
    found: Seq<Seq<char>>,
    answers: Seq<Result<ScannedBundle, ClapError>>,
) -> Seq<(Seq<char>, Seq<char>)>
    decreases answers.len(),
{
    if answers.len() == 0 {
        Seq::empty()
    } else {
        match answers.last() {
            Ok(_) => errors_in(found, answers.drop_last()),
            Err(e) => errors_in(found, answers.drop_last()).push(
                (found[answers.len() - 1], bundle::error_words(e)),
            ),
        }
    }
}

/// Whether a result says what loading gave.
pub open spec fn result_of(
    r: ScanResult,
    found: Seq<Seq<char>>,
    answers: Seq<Result<ScannedBundle, ClapError>>,
) -> bool {
    &&& r.bundles@ == described(loaded_in(answers))
    &&& error_views(r.errors@) == errors_in(found, answers)
}

/// Whether `r` may be the result of scanning a directory.
pub open spec fn dir_scanned<
    F: Fn(String) -> Vec<DirEntry>,
    L: Fn(String) -> Result<ScannedBundle, ClapError>,
>(list: F, load: L, dir: Seq<char>, r: ScanResult) -> bool {
    exists|found: Seq<Seq<char>>, answers: Seq<Result<ScannedBundle, ClapError>>|
        dir_walked(list, dir, 0, found) && #[trigger] loads_made(load, found, answers) && result_of(
            r,
            found,
            answers,
        )
}

/// Loads the bundles at paths. Gives those that were loaded, and why the others
/// were not.
fn load_found<L: Fn(String) -> Result<ScannedBundle, ClapError>>(
    found: Vec<String>,
    load: &L,
) -> (r: (
    Vec<ScannedBundle>,
    Vec<(String, String)>,
    Ghost<Seq<Result<ScannedBundle, ClapError>>>,
))
    requires
        forall|p: String|
            text::string_views(found@).contains(p@) ==> #[trigger] call_requires(*load, (p,)),
    ensures
        loads_made(*load, text::string_views(found@), r.2@),
        r.0@ == loaded_in(r.2@),
        error_views(r.1@) == errors_in(text::string_views(found@), r.2@),
{
    let ghost all = found@;
    let ghost models = text::string_views(all);
    let ghost mut answers: Seq<Result<ScannedBundle, ClapError>> = Seq::empty();
    let mut bundles: Vec<ScannedBundle> = Vec::new();
    let mut errors: Vec<(String, String)> = Vec::new();
    assert(error_views(errors@) =~= Seq::empty());
    for path in iter: found
        invariant
            iter.seq() == all,
            models == text::string_views(all),
            forall|p: String| models.contains(p@) ==> #[trigger] call_requires(*load, (p,)),
            answers.len() == iter.index(),
            forall|i: int|
                0 <= i < answers.len() ==> load_made(*load, models[i], #[trigger] answers[i]),
            bundles@ == loaded_in(answers),
            error_views(errors@) == errors_in(models, answers),
    {
        let ghost i = iter.index() as int;
        assert(models[i] == path@);
        let asked = copy_text(&path);
        let ghost p = asked;
        let answer = load(asked);
        let ghost before = answers;
        proof {
            answers = answers.push(answer);
            assert(answers.drop_last() =~= before);
            assert(load_made(*load, models[i], answer)) by {
                assert(call_ensures(*load, (p,), answer));
            }
            assert forall|k: int| 0 <= k < answers.len() implies load_made(
                *load,
                models[k],
                #[trigger] answers[k],
            ) by {
                if k < i {
                    assert(answers[k] == before[k]);
                }
            }
        }
        match answer {
            Ok(b) => {
                bundles.push(b);
            },
            Err(e) => {
                let ghost held = error_views(errors@);
                let words = e.message();
                errors.push((path, words));
                assert(error_views(errors@) =~= held.push((path@, words@)));
            },
        }
    }
    (bundles, errors, Ghost(answers))
}

/// Finds the bundles in a directory and loads each.
pub fn scan_dir<
    F: Fn(String) -> Vec<DirEntry>,
    L: Fn(String) -> Result<ScannedBundle, ClapError>,
>(dir: &str, list: &F, load: &L) -> (r: ScanResult)
    requires
        forall|d: String|
            may_be_listed(*list, dir@, 0, d@) ==> #[trigger] call_requires(*list, (d,)),
        forall|p: String|
            may_be_in(*list, dir@, p@) ==> #[trigger] call_requires(*load, (p,)),
    ensures
        dir_scanned(*list, *load, dir@, r),
        all_describe(r.bundles@),
{
    let mut found: Vec<String> = Vec::new();
    let walked = discover_dir_recursive(dir, 0, list, &mut found);
    assert(text::string_views(found@) =~= walked@);
    let (all, errors, answers) = load_found(found, load);
    let ghost loaded = all@;
    let mut bundles: Vec<ScannedBundle> = Vec::new();
    assert(loaded.take(0) =~= Seq::empty());
    for b in iter: all
        invariant
            iter.seq() == loaded,
            bundles@ == described(loaded.take(iter.index() as int)),
    {
        let ghost i = iter.index() as int;
        assert(loaded.take(i + 1).drop_last() =~= loaded.take(i));
        assert(loaded[i] == b);
        if b.descriptors.len() > 0 {
            bundles.push(b);
        }
    }
    assert(loaded.take(loaded.len() as int) =~= loaded);
    proof {
        law_scanned_bundles_describe_plugins(loaded);
        assert(loads_made(*load, walked@, answers@));
    }
    ScanResult { bundles, errors }
}

/// A result of several scans, with all paths that were scanned.
pub ghost struct Merged {
    pub bundles: Seq<ScannedBundle>,
    pub errors: Seq<(Seq<char>, Seq<char>)>,
    pub seen: Seq<Seq<char>>,
}

/// A merged result with the bundles that are new to it. One that describes no
/// plugin is left out, but its path counts as scanned.
pub open spec fn with_bundles(m: Merged, bundles: Seq<ScannedBundle>) -> Merged
    decreases bundles.len(),
{
    if bundles.len() == 0 {
        m
    } else {
        let before = with_bundles(m, bundles.drop_last());
        let b = bundles.last();
        if paths::path_seen(before.seen, b.path@) {
            before
        } else {
            Merged {
                bundles: if b.descriptors@.len() > 0 {
                    before.bundles.push(b)
                } else {
                    before.bundles
                },
                seen: before.seen.push(b.path@),
                ..before
            }
        }
    }
}

/// A merged result with the errors that are new to it.
pub open spec fn with_errors(m: Merged, errors: Seq<(Seq<char>, Seq<char>)>) -> Merged
    decreases errors.len(),
{
    if errors.len() == 0 {
        m
    } else {
        let before = with_errors(m, errors.drop_last());
        let e = errors.last();
        if paths::path_seen(before.seen, e.0) {
            before
        } else {
            Merged { errors: before.errors.push(e), seen: before.seen.push(e.0), ..before }
        }
    }
}

/// What was found in directories, and what loading it gave, merged in order. Of
/// one path the first directory counts.
pub open spec fn merged(
    founds: Seq<Seq<Seq<char>>>,
    answers: Seq<Seq<Result<ScannedBundle, ClapError>>>,
) -> Merged
    decreases answers.len(),
{
    if answers.len() == 0 {
        Merged { bundles: Seq::empty(), errors: Seq::empty(), seen: Seq::empty() }
    } else {
        with_errors(
            with_bundles(
                merged(founds.drop_last(), answers.drop_last()),
                loaded_in(answers.last()),
            ),
            errors_in(founds.last(), answers.last()),
        )
    }
}

/// What a result says, with the paths that were scanned for it.
pub open spec fn merged_model(r: ScanResult, seen: Seq<String>) -> Merged {
    Merged {
        bundles: r.bundles@,
        errors: error_views(r.errors@),
        seen: text::string_views(seen),
    }
}

proof fn lemma_with_bundles_describe(m: Merged, bundles: Seq<ScannedBundle>)
    requires
        all_describe(m.bundles),
    ensures
        all_describe(with_bundles(m, bundles).bundles),
    decreases bundles.len(),
{
    if bundles.len() > 0 {
        lemma_with_bundles_describe(m, bundles.drop_last());
    }
}

proof fn lemma_with_errors_keeps_bundles(m: Merged, errors: Seq<(Seq<char>, Seq<char>)>)
    ensures
        with_errors(m, errors).bundles == m.bundles,
    decreases errors.len(),
{
    if errors.len() > 0 {
        lemma_with_errors_keeps_bundles(m, errors.drop_last());
    }
}

/// Merges in what was loaded from another directory, and what was not.
fn merge_result(
    r: ScanResult,
    seen: &mut Vec<String>,
    bundles: Vec<ScannedBundle>,
    errors: Vec<(String, String)>,
) -> (out: ScanResult)
    ensures
        merged_model(out, final(seen)@) == with_errors(
            with_bundles(merged_model(r, old(seen)@), bundles@),
            error_views(errors@),
        ),
{
    let ghost start = merged_model(r, seen@);
    let mut out = r;
    let ghost bs = bundles@;
    let ghost es = error_views(errors@);
    let ghost raw = errors@;
    assert(bs.take(0) =~= Seq::empty());
    for b in iter: bundles
        invariant
            iter.seq() == bs,
            merged_model(out, seen@) == with_bundles(start, bs.take(iter.index() as int)),
    {
        let ghost i = iter.index() as int;
        let ghost held = text::string_views(seen@);
        assert(bs.take(i + 1).drop_last() =~= bs.take(i));
        assert(bs[i] == b);
        if !is_seen(seen, &b.path) {
            seen.push(copy_text(&b.path));
            assert(text::string_views(seen@) =~= held.push(b.path@));
            if b.descriptors.len() > 0 {
                out.bundles.push(b);
            }
        }
    }
    assert(bs.take(bs.len() as int) =~= bs);
    let ghost middle = merged_model(out, seen@);
    assert(es.take(0) =~= Seq::empty());
    for e in iter: errors
        invariant
            iter.seq() == raw,
            es == error_views(raw),
            merged_model(out, seen@) == with_errors(middle, es.take(iter.index() as int)),
    {
        let ghost i = iter.index() as int;
        let ghost held = text::string_views(seen@);
        assert(es.take(i + 1).drop_last() =~= es.take(i));
        assert(es[i] == (e.0@, e.1@));
        if !is_seen(seen, &e.0) {
            let ghost told = error_views(out.errors@);
            seen.push(copy_text(&e.0));
            assert(text::string_views(seen@) =~= held.push(e.0@));
            out.errors.push(e);
            assert(error_views(out.errors@) =~= told.push((e.0@, e.1@)));
        }
    }
    assert(es.take(es.len() as int) =~= es);
    out
}

/// Whether `answers` may be what `load` gives back for what was found in
/// directories.
pub open spec fn all_loads_made<L: Fn(String) -> Result<ScannedBundle, ClapError>>(
    load: L,
    founds: Seq<Seq<Seq<char>>>,
    answers: Seq<Seq<Result<ScannedBundle, ClapError>>>,
) -> bool {
    &&& answers.len() == founds.len()
    &&& forall|i: int|
        0 <= i < founds.len() ==> loads_made(load, founds[i], #[trigger] answers[i])
}

/// Whether a result says what a merged one says.
pub open spec fn says_merged(r: ScanResult, m: Merged) -> bool {
    &&& r.bundles@ == m.bundles
    &&& error_views(r.errors@) == m.errors
}

/// Whether `r` may be the result of scanning directories, one after the other.
pub open spec fn paths_scanned<
    F: Fn(String) -> Vec<DirEntry>,
    L: Fn(String) -> Result<ScannedBundle, ClapError>,
>(list: F, load: L, dirs: Seq<String>, r: ScanResult) -> bool {
    exists|founds: Seq<Seq<Seq<char>>>, answers: Seq<Seq<Result<ScannedBundle, ClapError>>>|
        dirs_walked(list, dirs, founds) && #[trigger] all_loads_made(load, founds, answers)
            && says_merged(r, merged(founds, answers))
}

/// Scans several directories and merges the results.
pub fn scan_paths<
    F: Fn(String) -> Vec<DirEntry>,
    L: Fn(String) -> Result<ScannedBundle, ClapError>,
>(dirs: &Vec<String>, list: F, load: L) -> (r: ScanResult)
    requires
        forall|d: String|
            may_be_listed_in_any(list, dirs@, d@) ==> #[trigger] call_requires(list, (d,)),
        forall|p: String|
            may_be_in_any(list, dirs@, p@) ==> #[trigger] call_requires(load, (p,)),
    ensures
        paths_scanned(list, load, dirs@, r),
        all_describe(r.bundles@),
{
    let mut out = ScanResult::default();
    let mut seen: Vec<String> = Vec::new();
    let ghost mut founds: Seq<Seq<Seq<char>>> = Seq::empty();
    let ghost mut answers: Seq<Seq<Result<ScannedBundle, ClapError>>> = Seq::empty();
    let n: usize = dirs.len();
    assert(out.bundles@ =~= Seq::empty());
    assert(error_views(out.errors@) =~= Seq::empty());
    assert(text::string_views(seen@) =~= Seq::empty());
    for i in 0..n
        invariant
            n == dirs.len(),
            forall|d: String|
                may_be_listed_in_any(list, dirs@, d@) ==> #[trigger] call_requires(list, (d,)),
            forall|p: String|
                may_be_in_any(list, dirs@, p@) ==> #[trigger] call_requires(load, (p,)),
            founds.len() == i,
            answers.len() == i,
            forall|j: int|
                0 <= j < i ==> dir_walked(list, dirs@[j]@, 0, #[trigger] founds[j]),
            forall|j: int|
                0 <= j < i ==> loads_made(load, founds[j], #[trigger] answers[j]),
            merged_model(out, seen@) == merged(founds, answers),
            all_describe(out.bundles@),
    {
        let mut found: Vec<String> = Vec::new();
        assert forall|d: String|
            may_be_listed(list, dirs@[i as int]@, 0, d@) implies #[trigger] call_requires(
            list,
            (d,),
        ) by {
            assert(may_be_listed_in_any(list, dirs@, d@));
        }
        let walked = discover_dir_recursive(dirs[i].as_str(), 0, &list, &mut found);
        assert(text::string_views(found@) =~= walked@);
        assert forall|p: String|
            text::string_views(found@).contains(p@) implies #[trigger] call_requires(
            load,
            (p,),
        ) by {
            assert(may_be_in(list, dirs@[i as int]@, p@));
        }
        let (bundles, errors, given) = load_found(found, &load);
        let ghost start = merged_model(out, seen@);
        let ghost before = founds;
        let ghost before_answers = answers;
        proof {
            founds = founds.push(walked@);
            answers = answers.push(given@);
            assert(founds.drop_last() =~= before);
            assert(answers.drop_last() =~= before_answers);
            assert forall|j: int| 0 <= j < i + 1 implies dir_walked(
                list,
                dirs@[j]@,
                0,
                #[trigger] founds[j],
            ) by {
                if j < i {
                    assert(founds[j] == before[j]);
                }
            }
            assert forall|j: int| 0 <= j < i + 1 implies loads_made(
                load,
                founds[j],
                #[trigger] answers[j],
            ) by {
                if j < i {
                    assert(answers[j] == before_answers[j]);
                    assert(founds[j] == before[j]);
                }
            }
            lemma_with_bundles_describe(start, bundles@);
            lemma_with_errors_keeps_bundles(
                with_bundles(start, bundles@),
                error_views(errors@),
            );
        }
        out = merge_result(out, &mut seen, bundles, errors);
        assert(merged_model(out, seen@).bundles == out.bundles@);
    }
    proof {
        assert(dirs_walked(list, dirs@, founds));
        assert(all_loads_made(load, founds, answers));
        let m = merged_model(out, seen@);
        assert(m.bundles == out.bundles@ && m.errors == error_views(out.errors@));
    }
    out
}

// ---------------------------------------------------------------------------
// Laws
// ---------------------------------------------------------------------------

/// Everything that a walk finds is a bundle.
pub proof fn law_found_paths_are_bundles<F: Fn(String) -> Vec<DirEntry>>(
    list: F,
    dir: Seq<char>,
    depth: nat,
    found: Seq<Seq<char>>,
)
    requires
        dir_walked(list, dir, depth, found),
    ensures
        forall|i: int| 0 <= i < found.len() ==> is_bundle(#[trigger] found[i]),
    decreases 2 * (MAX_SCAN_DEPTH + 1 - depth) + 1, 0nat,
{
    if depth <= MAX_SCAN_DEPTH {
        let (d, entries) = choose|d: String, entries: Vec<DirEntry>|
            d@ == dir && #[trigger] call_ensures(list, (d,), entries) && entries_walked(
                list,
                entries@,
                depth,
                found,
            );
        lemma_found_entries_are_bundles(list, entries@, depth, found);
    }
}

proof fn lemma_found_entries_are_bundles<F: Fn(String) -> Vec<DirEntry>>(
    list: F,
    entries: Seq<DirEntry>,
    depth: nat,
    found: Seq<Seq<char>>,
)
    requires
        entries_walked(list, entries, depth, found),
    ensures
        forall|i: int| 0 <= i < found.len() ==> is_bundle(#[trigger] found[i]),
    decreases 2 * (MAX_SCAN_DEPTH + 1 - depth), entries.len(),
{
    if depth <= MAX_SCAN_DEPTH && entries.len() > 0 {
        let last = entries.last();
        let (a, b) = choose|a: Seq<Seq<char>>, b: Seq<Seq<char>>| #[trigger]
            is_concat(found, a, b) && entries_walked(list, entries.drop_last(), depth, a) && (
            if is_bundle(last.path@) {
                b == seq![last.path@]
            } else if last.is_dir {
                dir_walked(list, last.path@, depth + 1, b)
            } else {
                b.len() == 0
            });
        lemma_found_entries_are_bundles(list, entries.drop_last(), depth, a);
        if !is_bundle(last.path@) && last.is_dir {
            law_found_paths_are_bundles(list, last.path@, depth + 1, b);
        }
        assert forall|i: int| 0 <= i < found.len() implies is_bundle(#[trigger] found[i]) by {
            if i < a.len() {
                assert(found[i] == a[i]);
            } else {
                assert(found[i] == b[i - a.len()]);
            }
        }
    }
}

/// Whether no path is in a result twice.
pub open spec fn merged_distinct(m: Merged) -> bool {
    &&& forall|i: int, j: int|
        0 <= i < j < m.bundles.len() ==> paths::path_key((#[trigger] m.bundles[i]).path@)
            != paths::path_key((#[trigger] m.bundles[j]).path@)
    &&& forall|i: int, j: int|
        0 <= i < j < m.errors.len() ==> paths::path_key((#[trigger] m.errors[i]).0)
            != paths::path_key((#[trigger] m.errors[j]).0)
    &&& forall|i: int, j: int|
        0 <= i < m.bundles.len() && 0 <= j < m.errors.len() ==> paths::path_key(
            (#[trigger] m.bundles[i]).path@,
        ) != paths::path_key((#[trigger] m.errors[j]).0)
}

/// Whether every path that a merged result tells of was scanned for it.
pub open spec fn tells_seen(m: Merged) -> bool {
    &&& forall|i: int|
        0 <= i < m.bundles.len() ==> paths::path_seen(m.seen, (#[trigger] m.bundles[i]).path@)
    &&& forall|i: int| 0 <= i < m.errors.len() ==> paths::path_seen(m.seen, (#[trigger] m.errors[i]).0)
}

pub(crate) proof fn lemma_with_bundles_distinct(m: Merged, bundles: Seq<ScannedBundle>)
    requires
        merged_distinct(m),
        tells_seen(m),
    ensures
        merged_distinct(with_bundles(m, bundles)),
        tells_seen(with_bundles(m, bundles)),
    decreases bundles.len(),
{
    if bundles.len() > 0 {
        let before = with_bundles(m, bundles.drop_last());
        let after = with_bundles(m, bundles);
        let path = bundles.last().path@;
        lemma_with_bundles_distinct(m, bundles.drop_last());
        if !paths::path_seen(before.seen, path) {
            assert forall|i: int| 0 <= i < before.bundles.len() implies paths::path_key(
                (#[trigger] before.bundles[i]).path@,
            ) != paths::path_key(path) && paths::path_seen(after.seen, before.bundles[i].path@) by {
                paths::lemma_seen_same_key(before.seen, before.bundles[i].path@, path);
                paths::lemma_seen_pushed(before.seen, path, before.bundles[i].path@);
            }
            assert forall|i: int| 0 <= i < before.errors.len() implies paths::path_key(
                (#[trigger] before.errors[i]).0,
            ) != paths::path_key(path) && paths::path_seen(after.seen, before.errors[i].0) by {
                paths::lemma_seen_same_key(before.seen, before.errors[i].0, path);
                paths::lemma_seen_pushed(before.seen, path, before.errors[i].0);
            }
            paths::lemma_seen_pushed(before.seen, path, path);
            assert forall|i: int| 0 <= i < after.bundles.len() implies paths::path_seen(
                after.seen,
                (#[trigger] after.bundles[i]).path@,
            ) by {
                if i < before.bundles.len() {
                    assert(after.bundles[i] == before.bundles[i]);
                }
            }
        }
    }
}

pub(crate) proof fn lemma_with_errors_distinct(m: Merged, errors: Seq<(Seq<char>, Seq<char>)>)
    requires
        merged_distinct(m),
        tells_seen(m),
    ensures
        merged_distinct(with_errors(m, errors)),
        tells_seen(with_errors(m, errors)),
    decreases errors.len(),
{
    if errors.len() > 0 {
        let before = with_errors(m, errors.drop_last());
        let after = with_errors(m, errors);
        let path = errors.last().0;
        lemma_with_errors_distinct(m, errors.drop_last());
        if !paths::path_seen(before.seen, path) {
            assert forall|i: int| 0 <= i < before.bundles.len() implies paths::path_key(
                (#[trigger] before.bundles[i]).path@,
            ) != paths::path_key(path) && paths::path_seen(after.seen, before.bundles[i].path@) by {
                paths::lemma_seen_same_key(before.seen, before.bundles[i].path@, path);
                paths::lemma_seen_pushed(before.seen, path, before.bundles[i].path@);
            }
            assert forall|i: int| 0 <= i < before.errors.len() implies paths::path_key(
                (#[trigger] before.errors[i]).0,
            ) != paths::path_key(path) && paths::path_seen(after.seen, before.errors[i].0) by {
                paths::lemma_seen_same_key(before.seen, before.errors[i].0, path);
                paths::lemma_seen_pushed(before.seen, path, before.errors[i].0);
            }
            paths::lemma_seen_pushed(before.seen, path, path);
            assert forall|i: int| 0 <= i < after.errors.len() implies paths::path_seen(
                after.seen,
                (#[trigger] after.errors[i]).0,
            ) by {
                if i < before.errors.len() {
                    assert(after.errors[i] == before.errors[i]);
                }
            }
        }
    }
}

/// However the directories overlap, a merged result has each path once, among
/// its bundles and its errors together.
pub proof fn law_merged_paths_are_distinct(
    founds: Seq<Seq<Seq<char>>>,
    answers: Seq<Seq<Result<ScannedBundle, ClapError>>>,
)
    ensures
        merged_distinct(merged(founds, answers)),
        tells_seen(merged(founds, answers)),
    decreases answers.len(),
{
    if answers.len() > 0 {
        let start = merged(founds.drop_last(), answers.drop_last());
        law_merged_paths_are_distinct(founds.drop_last(), answers.drop_last());
        lemma_with_bundles_distinct(start, loaded_in(answers.last()));
        lemma_with_errors_distinct(
            with_bundles(start, loaded_in(answers.last())),
            errors_in(founds.last(), answers.last()),
        );
    }
}

// ---------------------------------------------------------------------------
// Where to search
// ---------------------------------------------------------------------------

/// What the environment says of a user's directories.
#[derive(Debug, Clone)]
pub struct Places {
    /// The user's home directory.
    pub home: Option<String>,
    /// The directory of common program files.
    pub common_program_files: Option<String>,
    /// The user's directory of local application data.
    pub local_app_data: Option<String>,
    /// Further directories that the user names.
    pub clap_path: Vec<String>,
}

/// A directory below another, where there is one.
pub open spec fn below(dir: Option<String>, platform: Platform, rest: Seq<char>) -> Seq<
    Seq<char>,
> {
    match dir {
        Some(d) => seq![paths::path_joined(paths::slash_text(d@, platform), rest)],
        None => Seq::empty(),
    }
}

/// The places where a platform keeps plugins.
pub open spec fn platform_paths(platform: Platform, places: Places) -> Seq<Seq<char>> {
    match platform {
        Platform::MacOs => below(places.home, platform, "Library/Audio/Plug-Ins/CLAP"@)
            + seq!["/Library/Audio/Plug-Ins/CLAP"@],
        Platform::Windows => below(places.common_program_files, platform, "CLAP"@) + below(
            places.local_app_data,
            platform,
            "Programs/Common/CLAP"@,
        ),
        Platform::Unix => below(places.home, platform, ".clap"@) + seq![
            "/usr/lib/clap"@,
            "/usr/local/lib/clap"@,
        ],
    }
}

/// The directories that a user names, in slash form.
pub open spec fn named_paths(platform: Platform, places: Places) -> Seq<Seq<char>> {
    text::string_views(places.clap_path@).map_values(
        |p: Seq<char>| paths::slash_text(p, platform),
    )
}

/// Adds a directory below another, where there is one.
fn push_below(out: &mut Vec<String>, dir: &Option<String>, platform: Platform, rest: &str)
    ensures
        text::string_views(final(out)@) == text::string_views(old(out)@) + below(
            *dir,
            platform,
            rest@,
        ),
{
    let ghost start = text::string_views(out@);
    match dir {
        Some(d) => {
            let base = slash_form(d.as_str(), platform);
            let path = text_of(&join_path(&chars_of(base.as_str()), &chars_of(rest)));
            out.push(path);
            assert(text::string_views(out@) =~= start + seq![path@]);
        },
        None => {
            assert(start + Seq::<Seq<char>>::empty() =~= start);
        },
    }
}

/// Adds a path.
fn push_path(out: &mut Vec<String>, path: &str)
    ensures
        text::string_views(final(out)@) == text::string_views(old(out)@) + seq![path@],
{
    let ghost start = text::string_views(out@);
    let p = path.to_owned();
    out.push(p);
    assert(text::string_views(out@) =~= start + seq![p@]);
}

/// The directories in which plugins are searched for: those of the platform,
/// then those that the user names, each once and in slash form. They need not
/// exist.
pub fn default_clap_search_paths(platform: Platform, places: Places) -> (r: Vec<String>)
    ensures
        text::string_views(r@) == paths::deduped(
            platform_paths(platform, places) + named_paths(platform, places),
        ),
{
    let mut out: Vec<String> = Vec::new();
    assert(text::string_views(out@) =~= Seq::empty());
    match platform {
        Platform::MacOs => {
            push_below(&mut out, &places.home, platform, "Library/Audio/Plug-Ins/CLAP");
            push_path(&mut out, "/Library/Audio/Plug-Ins/CLAP");
        },
        Platform::Windows => {
            push_below(&mut out, &places.common_program_files, platform, "CLAP");
            push_below(&mut out, &places.local_app_data, platform, "Programs/Common/CLAP");
        },
        Platform::Unix => {
            push_below(&mut out, &places.home, platform, ".clap");
            push_path(&mut out, "/usr/lib/clap");
            push_path(&mut out, "/usr/local/lib/clap");
        },
    }
    assert(text::string_views(out@) =~= platform_paths(platform, places));
    let ghost own = text::string_views(out@);
    let ghost extra = named_paths(platform, places);
    let n: usize = places.clap_path.len();
    assert(own + extra.take(0) =~= own);
    for i in 0..n
        invariant
            n == places.clap_path.len(),
            extra == named_paths(platform, places),
            text::string_views(out@) == own + extra.take(i as int),
    {
        let path = slash_form(places.clap_path[i].as_str(), platform);
        push_path(&mut out, path.as_str());
        assert(text::string_views(places.clap_path@)[i as int] == places.clap_path@[i as int]@);
        assert(extra[i as int] == path@);
        assert(own + extra.take(i + 1) =~= own + extra.take(i as int) + seq![extra[i as int]]);
    }
    assert(extra.take(n as int) =~= extra);
    dedupe_paths(out)
}

/// Where a directory that stands in a text ends without a slash, what lies below it is
/// written behind a slash.
pub open spec fn slashed(dir: Option<String>, platform: Platform, rest: Seq<char>) -> Seq<
    Seq<char>,
> {
    match dir {
        Some(d) => seq![paths::slash_text(d@, platform) + seq!['/'] + rest],
        None => Seq::empty(),
    }
}

/// Whether a directory, where there is one, is written without a slash at its end.
pub open spec fn ends_plainly(dir: Option<String>, platform: Platform) -> bool {
    match dir {
        Some(d) => d@.len() > 0 && paths::slash_text(d@, platform).last() != '/',
        None => true,
    }
}

proof fn lemma_below_is_slashed(dir: Option<String>, platform: Platform, rest: Seq<char>)
    requires
        ends_plainly(dir, platform),
        !paths::is_absolute(rest),
    ensures
        below(dir, platform, rest) == slashed(dir, platform, rest),
{
    reveal_strlit("/");
    assert("/"@ =~= seq!['/']);
    if let Some(d) = dir {
        assert(paths::slash_text(d@, platform).len() == d@.len());
    }
}

/// Plugins are searched for in the places that each platform keeps them in: the user's
/// own come first, where the user has a home.
pub proof fn law_platforms_keep_plugins_in_their_places(places: Places)
    requires
        ends_plainly(places.home, Platform::Unix),
        ends_plainly(places.common_program_files, Platform::Windows),
        ends_plainly(places.local_app_data, Platform::Windows),
    ensures
        platform_paths(Platform::Unix, places) == slashed(
            places.home,
            Platform::Unix,
            ".clap"@,
        ) + seq!["/usr/lib/clap"@, "/usr/local/lib/clap"@],
        platform_paths(Platform::MacOs, places) == slashed(
            places.home,
            Platform::MacOs,
            "Library/Audio/Plug-Ins/CLAP"@,
        ) + seq!["/Library/Audio/Plug-Ins/CLAP"@],
        platform_paths(Platform::Windows, places) == slashed(
            places.common_program_files,
            Platform::Windows,
            "CLAP"@,
        ) + slashed(places.local_app_data, Platform::Windows, "Programs/Common/CLAP"@),
{
    reveal_strlit(".clap");
    reveal_strlit("CLAP");
    reveal_strlit("Programs/Common/CLAP");
    reveal_strlit("Library/Audio/Plug-Ins/CLAP");
    lemma_below_is_slashed(places.home, Platform::Unix, ".clap"@);
    lemma_below_is_slashed(places.home, Platform::MacOs, "Library/Audio/Plug-Ins/CLAP"@);
    lemma_below_is_slashed(places.common_program_files, Platform::Windows, "CLAP"@);
    lemma_below_is_slashed(places.local_app_data, Platform::Windows, "Programs/Common/CLAP"@);
}

/// The directories that the user names are searched as they are named, in their order;
/// on Windows a backslash counts as a slash.
pub proof fn law_named_directories_are_searched(platform: Platform, places: Places, i: int, j: int)
    requires
        0 <= i < places.clap_path@.len(),
        0 <= j < places.clap_path@[i]@.len(),
    ensures
        ({
            let named = places.clap_path@[i]@;
            let searched = named_paths(platform, places);
            &&& searched.len() == places.clap_path@.len()
            &&& searched[i].len() == named.len()
            &&& searched[i][j] == if platform == Platform::Windows && named[j] == '\\' {
                '/'
            } else {
                named[j]
            }
        }),
{
    assert(text::string_views(places.clap_path@)[i] == places.clap_path@[i]@);
}

} // verus!
