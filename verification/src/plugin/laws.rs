//! What holds of scans with a cache and without one, taken together.

use vstd::prelude::*;

use crate::paths;
use crate::plugin::bundle;
use crate::plugin::bundle::{ClapError, ScannedBundle};
use crate::plugin::cache;
use crate::plugin::cache::{
    BundleModel, CacheEntry, CacheFile, CachedScanOutcome, EntryModel, CACHE_SCHEMA_VERSION,
};
use crate::plugin::discover;
use crate::plugin::discover::{DirEntry, ScanResult};
use crate::plugin::times;
use crate::plugin::times::FileStat;

verus! {

// ---------------------------------------------------------------------------
// One path in several directories
// ---------------------------------------------------------------------------

/// Whether bundles have the paths that they were loaded from.
pub open spec fn named_alike(
    found: Seq<Seq<char>>,
    given: Seq<Result<ScannedBundle, ClapError>>,
) -> bool {
    &&& given.len() == found.len()
    &&& forall|k: int|
        0 <= k < given.len() ==> (#[trigger] given[k] matches Ok(b) ==> b.path@ == found[k])
}

/// The same of several directories.
pub open spec fn all_named_alike(
    founds: Seq<Seq<Seq<char>>>,
    given: Seq<Seq<Result<ScannedBundle, ClapError>>>,
) -> bool {
    &&& given.len() == founds.len()
    &&& forall|i: int| 0 <= i < given.len() ==> named_alike(founds[i], #[trigger] given[i])
}

/// Whether the answer with the number `k` is the one that counts for its path
/// within a directory: the first with which the path loads, or the first where
/// it never does.
pub open spec fn counts(
    found: Seq<Seq<char>>,
    given: Seq<Result<ScannedBundle, ClapError>>,
    k: int,
) -> bool {
    &&& 0 <= k < found.len()
    &&& forall|j: int|
        0 <= j < found.len() && paths::path_key(#[trigger] found[j]) == paths::path_key(found[k])
            ==> if given[k] is Ok {
            j < k ==> given[j] is Err
        } else {
            k <= j && given[j] is Err
        }
}

/// Whether a merged result tells of a path what one answer says, and nothing
/// else: the bundle where it describes a plugin, the reason where the path did
/// not load, and neither where the bundle describes none.
pub open spec fn tells_outcome(
    m: discover::Merged,
    path: Seq<char>,
    answer: Result<ScannedBundle, ClapError>,
) -> bool {
    &&& (answer matches Ok(b) && b.descriptors@.len() > 0) ==> m.bundles.contains(answer->Ok_0)
    &&& answer matches Err(e) ==> m.errors.contains((path, bundle::error_words(e)))
    &&& forall|i: int|
        0 <= i < m.bundles.len() && paths::path_key((#[trigger] m.bundles[i]).path@)
            == paths::path_key(path) ==> answer == Ok::<ScannedBundle, ClapError>(m.bundles[i])
    &&& forall|i: int|
        0 <= i < m.errors.len() && paths::path_key((#[trigger] m.errors[i]).0) == paths::path_key(
            path,
        ) ==> (answer matches Err(e) && m.errors[i] == (path, bundle::error_words(e)))
}

/// Whether a path loads, or does not, with one of the answers.
spec fn answered_so(
    found: Seq<Seq<char>>,
    given: Seq<Result<ScannedBundle, ClapError>>,
    path: Seq<char>,
    ok: bool,
) -> bool {
    exists|j: int|
        0 <= j < given.len() && paths::path_key(#[trigger] found[j]) == paths::path_key(path) && (
        given[j] is Ok) == ok
}

proof fn lemma_answered_so(
    found: Seq<Seq<char>>,
    given: Seq<Result<ScannedBundle, ClapError>>,
    path: Seq<char>,
    ok: bool,
)
    requires
        0 < given.len() <= found.len(),
    ensures
        answered_so(found, given, path, ok) == (answered_so(found, given.drop_last(), path, ok) || (
        paths::path_key(found[given.len() - 1]) == paths::path_key(path) && (given.last() is Ok)
            == ok)),
{
    let rest = given.drop_last();
    if answered_so(found, rest, path, ok) {
        let j = choose|j: int|
            0 <= j < rest.len() && paths::path_key(#[trigger] found[j]) == paths::path_key(path)
                && (rest[j] is Ok) == ok;
        assert(given[j] == rest[j]);
    }
    if answered_so(found, given, path, ok) {
        let j = choose|j: int|
            0 <= j < given.len() && paths::path_key(#[trigger] found[j]) == paths::path_key(path)
                && (given[j] is Ok) == ok;
        if j < rest.len() {
            assert(rest[j] == given[j]);
        }
    }
}

/// Which paths count as scanned once bundles are merged in.
proof fn lemma_bundles_seen(
    m: discover::Merged,
    found: Seq<Seq<char>>,
    given: Seq<Result<ScannedBundle, ClapError>>,
    path: Seq<char>,
)
    requires
        given.len() <= found.len(),
        forall|k: int|
            0 <= k < given.len() ==> (#[trigger] given[k] matches Ok(b) ==> b.path@ == found[k]),
    ensures
        paths::path_seen(
            discover::with_bundles(m, discover::loaded_in(given)).seen,
            path,
        ) == (paths::path_seen(m.seen, path) || answered_so(found, given, path, true)),
    decreases given.len(),
{
    if given.len() > 0 {
        let rest = given.drop_last();
        let n = given.len() - 1;
        assert forall|k: int| 0 <= k < rest.len() implies (#[trigger] rest[k] matches Ok(b)
            ==> b.path@ == found[k]) by {
            assert(rest[k] == given[k]);
        }
        lemma_bundles_seen(m, found, rest, path);
        lemma_answered_so(found, given, path, true);
        let step = discover::with_bundles(m, discover::loaded_in(rest));
        if let Ok(b) = given[n] {
            let list = discover::loaded_in(rest);
            assert(list.push(b).drop_last() =~= list);
            paths::lemma_seen_pushed(step.seen, b.path@, path);
            paths::lemma_seen_same_key(step.seen, b.path@, path);
        }
    }
}

/// Which paths count as scanned once errors are merged in.
proof fn lemma_errors_seen(
    m: discover::Merged,
    found: Seq<Seq<char>>,
    given: Seq<Result<ScannedBundle, ClapError>>,
    path: Seq<char>,
)
    requires
        given.len() <= found.len(),
    ensures
        paths::path_seen(
            discover::with_errors(m, discover::errors_in(found, given)).seen,
            path,
        ) == (paths::path_seen(m.seen, path) || answered_so(found, given, path, false)),
    decreases given.len(),
{
    if given.len() > 0 {
        let rest = given.drop_last();
        let n = given.len() - 1;
        lemma_errors_seen(m, found, rest, path);
        lemma_answered_so(found, given, path, false);
        let step = discover::with_errors(m, discover::errors_in(found, rest));
        if let Err(e) = given[n] {
            let list = discover::errors_in(found, rest);
            let said = (found[n], bundle::error_words(e));
            assert(list.push(said).drop_last() =~= list);
            paths::lemma_seen_pushed(step.seen, found[n], path);
            paths::lemma_seen_same_key(step.seen, found[n], path);
        }
    }
}

/// What a merged result tells of a path that was scanned stays, whatever is
/// merged in.
proof fn lemma_bundles_keep_outcome(
    m: discover::Merged,
    bundles: Seq<ScannedBundle>,
    path: Seq<char>,
    answer: Result<ScannedBundle, ClapError>,
)
    requires
        paths::path_seen(m.seen, path),
        tells_outcome(m, path, answer),
    ensures
        ({
            let out = discover::with_bundles(m, bundles);
            paths::path_seen(out.seen, path) && tells_outcome(out, path, answer)
        }),
    decreases bundles.len(),
{
    if bundles.len() > 0 {
        lemma_bundles_keep_outcome(m, bundles.drop_last(), path, answer);
        let step = discover::with_bundles(m, bundles.drop_last());
        let out = discover::with_bundles(m, bundles);
        let b = bundles.last();
        if !paths::path_seen(step.seen, b.path@) {
            paths::lemma_seen_pushed(step.seen, b.path@, path);
            paths::lemma_seen_same_key(step.seen, b.path@, path);
            lemma_kept_by_push(step.bundles, b, answer);
            assert forall|i: int|
                0 <= i < out.bundles.len() && paths::path_key((#[trigger] out.bundles[i]).path@)
                    == paths::path_key(path) implies answer == Ok::<ScannedBundle, ClapError>(
                out.bundles[i],
            ) by {
                if i < step.bundles.len() {
                    assert(out.bundles[i] == step.bundles[i]);
                }
            }
        }
    }
}

proof fn lemma_kept_by_push(
    bundles: Seq<ScannedBundle>,
    b: ScannedBundle,
    answer: Result<ScannedBundle, ClapError>,
)
    ensures
        bundles.push(b).contains(b),
        answer is Ok && bundles.contains(answer->Ok_0) ==> bundles.push(b).contains(answer->Ok_0),
{
    let more = bundles.push(b);
    assert(more[bundles.len() as int] == b);
    if answer is Ok && bundles.contains(answer->Ok_0) {
        let i = choose|i: int| 0 <= i < bundles.len() && bundles[i] == answer->Ok_0;
        assert(more[i] == answer->Ok_0);
    }
}

proof fn lemma_errors_keep_outcome(
    m: discover::Merged,
    errors: Seq<(Seq<char>, Seq<char>)>,
    path: Seq<char>,
    answer: Result<ScannedBundle, ClapError>,
)
    requires
        paths::path_seen(m.seen, path),
        tells_outcome(m, path, answer),
    ensures
        ({
            let out = discover::with_errors(m, errors);
            paths::path_seen(out.seen, path) && tells_outcome(out, path, answer)
        }),
    decreases errors.len(),
{
    if errors.len() > 0 {
        lemma_errors_keep_outcome(m, errors.drop_last(), path, answer);
        let step = discover::with_errors(m, errors.drop_last());
        let out = discover::with_errors(m, errors);
        let e = errors.last();
        if !paths::path_seen(step.seen, e.0) {
            paths::lemma_seen_pushed(step.seen, e.0, path);
            paths::lemma_seen_same_key(step.seen, e.0, path);
            if let Err(x) = answer {
                let said = (path, bundle::error_words(x));
                let i = choose|i: int| 0 <= i < step.errors.len() && step.errors[i] == said;
                assert(out.errors[i] == said);
            }
            assert forall|i: int|
                0 <= i < out.errors.len() && paths::path_key((#[trigger] out.errors[i]).0)
                    == paths::path_key(path) implies (answer matches Err(x) && out.errors[i] == (
                path,
                bundle::error_words(x),
            )) by {
                if i < step.errors.len() {
                    assert(out.errors[i] == step.errors[i]);
                }
            }
        }
    }
}

/// A path that loads and is new to a merged result is told by the first bundle
/// that has it.
proof fn lemma_new_bundle_is_told(
    m: discover::Merged,
    found: Seq<Seq<char>>,
    given: Seq<Result<ScannedBundle, ClapError>>,
    k: int,
)
    requires
        0 <= k < given.len() <= found.len(),
        forall|j: int|
            0 <= j < given.len() ==> (#[trigger] given[j] matches Ok(b) ==> b.path@ == found[j]),
        discover::tells_seen(m),
        discover::merged_distinct(m),
        !paths::path_seen(m.seen, found[k]),
        given[k] is Ok,
        forall|j: int|
            0 <= j < k && paths::path_key(#[trigger] found[j]) == paths::path_key(found[k])
                ==> given[j] is Err,
    ensures
        ({
            let out = discover::with_bundles(m, discover::loaded_in(given));
            paths::path_seen(out.seen, found[k]) && tells_outcome(out, found[k], given[k])
        }),
    decreases given.len(),
{
    let n = given.len() - 1;
    let rest = given.drop_last();
    let path = found[k];
    let list = discover::loaded_in(rest);
    let step = discover::with_bundles(m, list);
    let out = discover::with_bundles(m, discover::loaded_in(given));
    assert forall|j: int| 0 <= j < rest.len() implies (#[trigger] rest[j] matches Ok(b) ==> b.path@
        == found[j]) by {
        assert(rest[j] == given[j]);
    }
    if k < n {
        assert forall|j: int|
            0 <= j < k && paths::path_key(#[trigger] found[j]) == paths::path_key(
                found[k],
            ) implies rest[j] is Err by {
            assert(rest[j] == given[j]);
        }
        lemma_new_bundle_is_told(m, found, rest, k);
        if let Ok(b) = given[n] {
            assert(list.push(b).drop_last() =~= list);
            let one = seq![b];
            assert(one.drop_last() =~= Seq::empty());
            lemma_bundles_keep_outcome(step, one, path, given[k]);
            assert(discover::with_bundles(step, one.drop_last()) == step);
            assert(out == discover::with_bundles(step, one));
        }
    } else {
        lemma_bundles_seen(m, found, rest, path);
        assert(!answered_so(found, rest, path, true)) by {
            if answered_so(found, rest, path, true) {
                let j = choose|j: int|
                    0 <= j < rest.len() && paths::path_key(#[trigger] found[j])
                        == paths::path_key(path) && (rest[j] is Ok) == true;
                assert(rest[j] == given[j]);
            }
        }
        discover::lemma_with_bundles_distinct(m, list);
        let b = given[n]->Ok_0;
        assert(list.push(b).drop_last() =~= list);
        paths::lemma_seen_pushed(step.seen, path, path);
        lemma_kept_by_push(step.bundles, b, given[k]);
        lemma_unseen_is_untold(step, path);
        assert forall|i: int|
            0 <= i < out.bundles.len() && paths::path_key((#[trigger] out.bundles[i]).path@)
                == paths::path_key(path) implies given[k] == Ok::<ScannedBundle, ClapError>(
            out.bundles[i],
        ) by {
            if i < step.bundles.len() {
                assert(out.bundles[i] == step.bundles[i]);
            }
        }
    }
}

/// A merged result tells nothing of a path that was not scanned for it.
proof fn lemma_unseen_is_untold(m: discover::Merged, path: Seq<char>)
    requires
        discover::tells_seen(m),
        !paths::path_seen(m.seen, path),
    ensures
        forall|i: int|
            0 <= i < m.bundles.len() ==> paths::path_key((#[trigger] m.bundles[i]).path@)
                != paths::path_key(path),
        forall|i: int|
            0 <= i < m.errors.len() ==> paths::path_key((#[trigger] m.errors[i]).0)
                != paths::path_key(path),
{
    assert forall|i: int| 0 <= i < m.bundles.len() implies paths::path_key(
        (#[trigger] m.bundles[i]).path@,
    ) != paths::path_key(path) by {
        paths::lemma_seen_same_key(m.seen, m.bundles[i].path@, path);
    }
    assert forall|i: int| 0 <= i < m.errors.len() implies paths::path_key(
        (#[trigger] m.errors[i]).0,
    ) != paths::path_key(path) by {
        paths::lemma_seen_same_key(m.seen, m.errors[i].0, path);
    }
}

/// A path that does not load and is new to a merged result is told by its first
/// error.
proof fn lemma_new_error_is_told(
    m: discover::Merged,
    found: Seq<Seq<char>>,
    given: Seq<Result<ScannedBundle, ClapError>>,
    k: int,
)
    requires
        0 <= k < given.len() <= found.len(),
        discover::tells_seen(m),
        discover::merged_distinct(m),
        !paths::path_seen(m.seen, found[k]),
        given[k] is Err,
        forall|j: int|
            0 <= j < k && paths::path_key(#[trigger] found[j]) == paths::path_key(found[k])
                ==> given[j] is Ok,
    ensures
        ({
            let out = discover::with_errors(m, discover::errors_in(found, given));
            paths::path_seen(out.seen, found[k]) && tells_outcome(out, found[k], given[k])
        }),
    decreases given.len(),
{
    let n = given.len() - 1;
    let rest = given.drop_last();
    let path = found[k];
    let list = discover::errors_in(found, rest);
    let step = discover::with_errors(m, list);
    let out = discover::with_errors(m, discover::errors_in(found, given));
    if k < n {
        assert forall|j: int|
            0 <= j < k && paths::path_key(#[trigger] found[j]) == paths::path_key(
                found[k],
            ) implies rest[j] is Ok by {
            assert(rest[j] == given[j]);
        }
        lemma_new_error_is_told(m, found, rest, k);
        if let Err(e) = given[n] {
            let said = (found[n], bundle::error_words(e));
            assert(list.push(said).drop_last() =~= list);
            let one = seq![said];
            assert(one.drop_last() =~= Seq::empty());
            lemma_errors_keep_outcome(step, one, path, given[k]);
            assert(discover::with_errors(step, one.drop_last()) == step);
            assert(out == discover::with_errors(step, one));
        }
    } else {
        lemma_errors_seen(m, found, rest, path);
        assert(!answered_so(found, rest, path, false)) by {
            if answered_so(found, rest, path, false) {
                let j = choose|j: int|
                    0 <= j < rest.len() && paths::path_key(#[trigger] found[j])
                        == paths::path_key(path) && (rest[j] is Ok) == false;
                assert(rest[j] == given[j]);
            }
        }
        discover::lemma_with_errors_distinct(m, list);
        let said = (path, bundle::error_words(given[n]->Err_0));
        assert(list.push(said).drop_last() =~= list);
        paths::lemma_seen_pushed(step.seen, path, path);
        lemma_unseen_is_untold(step, path);
        assert(out.errors[step.errors.len() as int] == said);
        assert forall|i: int|
            0 <= i < out.errors.len() && paths::path_key((#[trigger] out.errors[i]).0)
                == paths::path_key(path) implies (given[k] matches Err(x) && out.errors[i] == (
            path,
            bundle::error_words(x),
        )) by {
            if i < step.errors.len() {
                assert(out.errors[i] == step.errors[i]);
            }
        }
    }
}

/// Only paths that were found count as scanned.
proof fn lemma_seen_was_found(
    founds: Seq<Seq<Seq<char>>>,
    given: Seq<Seq<Result<ScannedBundle, ClapError>>>,
    path: Seq<char>,
)
    requires
        all_named_alike(founds, given),
        paths::path_seen(discover::merged(founds, given).seen, path),
    ensures
        exists|j: int| 0 <= j < founds.len() && paths::path_seen(#[trigger] founds[j], path),
    decreases founds.len(),
{
    if founds.len() > 0 {
        let n = founds.len() - 1;
        let before = founds.drop_last();
        let before_given = given.drop_last();
        let start = discover::merged(before, before_given);
        let half = discover::with_bundles(start, discover::loaded_in(given[n]));
        assert(named_alike(founds[n], given[n]));
        lemma_bundles_seen(start, founds[n], given[n], path);
        lemma_errors_seen(half, founds[n], given[n], path);
        if paths::path_seen(start.seen, path) {
            assert forall|i: int| 0 <= i < before_given.len() implies named_alike(
                before[i],
                #[trigger] before_given[i],
            ) by {
                assert(named_alike(founds[i], given[i]));
            }
            lemma_seen_was_found(before, before_given, path);
            let j = choose|j: int|
                0 <= j < before.len() && paths::path_seen(#[trigger] before[j], path);
            assert(founds[j] == before[j]);
        } else {
            assert(paths::path_seen(founds[n], path));
        }
    }
}

/// However the directories overlap, a path that is found in several of them
/// keeps the outcome that it had in the first, whatever loading it gave there:
/// a bundle, one that describes no plugin, or an error.
pub proof fn law_first_directory_decides(
    founds: Seq<Seq<Seq<char>>>,
    given: Seq<Seq<Result<ScannedBundle, ClapError>>>,
    i: int,
    k: int,
)
    requires
        all_named_alike(founds, given),
        0 <= i < founds.len(),
        counts(founds[i], given[i], k),
        forall|j: int| 0 <= j < i ==> !paths::path_seen(#[trigger] founds[j], founds[i][k]),
    ensures
        tells_outcome(discover::merged(founds, given), founds[i][k], given[i][k]),
        paths::path_seen(discover::merged(founds, given).seen, founds[i][k]),
    decreases founds.len(),
{
    let n = founds.len() - 1;
    let before = founds.drop_last();
    let before_given = given.drop_last();
    let start = discover::merged(before, before_given);
    let bundles = discover::loaded_in(given[n]);
    let errors = discover::errors_in(founds[n], given[n]);
    let half = discover::with_bundles(start, bundles);
    let path = founds[i][k];
    let answer = given[i][k];
    assert forall|j: int| 0 <= j < before_given.len() implies named_alike(
        before[j],
        #[trigger] before_given[j],
    ) by {
        assert(named_alike(founds[j], given[j]));
    }
    assert(named_alike(founds[n], given[n]));
    if i < n {
        assert(before[i] == founds[i] && before_given[i] == given[i]);
        assert forall|j: int| 0 <= j < i implies !paths::path_seen(
            #[trigger] before[j],
            before[i][k],
        ) by {
            assert(before[j] == founds[j]);
        }
        law_first_directory_decides(before, before_given, i, k);
        lemma_bundles_keep_outcome(start, bundles, path, answer);
        lemma_errors_keep_outcome(half, errors, path, answer);
    } else {
        if paths::path_seen(start.seen, path) {
            lemma_seen_was_found(before, before_given, path);
            let j = choose|j: int|
                0 <= j < before.len() && paths::path_seen(#[trigger] before[j], path);
            assert(founds[j] == before[j]);
        }
        discover::law_merged_paths_are_distinct(before, before_given);
        if answer is Ok {
            lemma_new_bundle_is_told(start, founds[n], given[n], k);
            lemma_errors_keep_outcome(half, errors, path, answer);
        } else {
            lemma_bundles_seen(start, founds[n], given[n], path);
            discover::lemma_with_bundles_distinct(start, bundles);
            lemma_new_error_is_told(half, founds[n], given[n], k);
        }
    }
}

/// A scan tells of no path but those that were found.
pub proof fn law_told_paths_were_found(
    founds: Seq<Seq<Seq<char>>>,
    given: Seq<Seq<Result<ScannedBundle, ClapError>>>,
)
    requires
        all_named_alike(founds, given),
    ensures
        ({
            let m = discover::merged(founds, given);
            let found = paths::deduped(discover::flat(founds));
            &&& forall|i: int|
                0 <= i < m.bundles.len() ==> paths::path_seen(
                    found,
                    (#[trigger] m.bundles[i]).path@,
                )
            &&& forall|i: int|
                0 <= i < m.errors.len() ==> paths::path_seen(found, (#[trigger] m.errors[i]).0)
        }),
{
    let m = discover::merged(founds, given);
    discover::law_merged_paths_are_distinct(founds, given);
    assert forall|i: int| 0 <= i < m.bundles.len() implies paths::path_seen(
        paths::deduped(discover::flat(founds)),
        (#[trigger] m.bundles[i]).path@,
    ) by {
        lemma_seen_is_deduped(founds, given, m.bundles[i].path@);
    }
    assert forall|i: int| 0 <= i < m.errors.len() implies paths::path_seen(
        paths::deduped(discover::flat(founds)),
        (#[trigger] m.errors[i]).0,
    ) by {
        lemma_seen_is_deduped(founds, given, m.errors[i].0);
    }
}

proof fn lemma_seen_is_deduped(
    founds: Seq<Seq<Seq<char>>>,
    given: Seq<Seq<Result<ScannedBundle, ClapError>>>,
    path: Seq<char>,
)
    requires
        all_named_alike(founds, given),
        paths::path_seen(discover::merged(founds, given).seen, path),
    ensures
        paths::path_seen(paths::deduped(discover::flat(founds)), path),
{
    lemma_seen_was_found(founds, given, path);
    let j = choose|j: int|
        0 <= j < founds.len() && paths::path_seen(#[trigger] founds[j], path);
    lemma_flat_sees(founds, j, path);
    paths::law_deduped_paths_are_distinct(discover::flat(founds));
}

proof fn lemma_flat_sees(founds: Seq<Seq<Seq<char>>>, j: int, path: Seq<char>)
    requires
        0 <= j < founds.len(),
        paths::path_seen(founds[j], path),
    ensures
        paths::path_seen(discover::flat(founds), path),
    decreases founds.len(),
{
    lemma_seen_joined(discover::flat(founds.drop_last()), founds.last(), path);
    if j < founds.len() - 1 {
        lemma_flat_sees(founds.drop_last(), j, path);
    }
}

// ---------------------------------------------------------------------------
// With an empty cache and without one
// ---------------------------------------------------------------------------

/// Whether two answers say the same of one file, which was asked for as `p` and
/// as `q`.
pub open spec fn same_answer(
    p: Seq<char>,
    a: Result<ScannedBundle, ClapError>,
    q: Seq<char>,
    b: Result<ScannedBundle, ClapError>,
) -> bool {
    match (a, b) {
        (Ok(x), Ok(y)) => bundle::descriptor_views(x.descriptors@) == bundle::descriptor_views(
            y.descriptors@,
        ),
        (Err(x), Err(y)) => p == q ==> bundle::error_words(x) == bundle::error_words(y),
        _ => false,
    }
}

/// Whether a loader answers the same whenever it is asked for the same file,
/// and gives bundles under the paths that they were asked for.
#[verifier::opaque]
pub open spec fn loads_alike<L: Fn(String) -> Result<ScannedBundle, ClapError>>(
    loader: L,
) -> bool {
    &&& forall|p: Seq<char>, a: Result<ScannedBundle, ClapError>| #[trigger]
        discover::load_made(loader, p, a) ==> (a matches Ok(b) ==> b.path@ == p)
    &&& forall|
        p: Seq<char>,
        a: Result<ScannedBundle, ClapError>,
        q: Seq<char>,
        b: Result<ScannedBundle, ClapError>,
    |
        paths::path_key(p) == paths::path_key(q) && #[trigger] discover::load_made(loader, p, a)
            && #[trigger] discover::load_made(loader, q, b) ==> same_answer(p, a, q, b)
}

/// What a loader answers for a path.
spec fn answer_of<L: Fn(String) -> Result<ScannedBundle, ClapError>>(
    loader: L,
    path: Seq<char>,
) -> Result<ScannedBundle, ClapError> {
    choose|a: Result<ScannedBundle, ClapError>| discover::load_made(loader, path, a)
}

/// Whether a loader answers for a path.
spec fn answers<L: Fn(String) -> Result<ScannedBundle, ClapError>>(
    loader: L,
    path: Seq<char>,
) -> bool {
    discover::load_made(loader, path, answer_of(loader, path))
}

spec fn all_answered<L: Fn(String) -> Result<ScannedBundle, ClapError>>(
    loader: L,
    found: Seq<Seq<char>>,
) -> bool {
    forall|i: int| 0 <= i < found.len() ==> answers(loader, #[trigger] found[i])
}

/// Whether the bundle at a path loads and describes a plugin.
spec fn describes<L: Fn(String) -> Result<ScannedBundle, ClapError>>(
    loader: L,
    path: Seq<char>,
) -> bool {
    answer_of(loader, path) matches Ok(b) && b.descriptors@.len() > 0
}

/// Whether the bundle at a path does not load.
spec fn fails<L: Fn(String) -> Result<ScannedBundle, ClapError>>(
    loader: L,
    path: Seq<char>,
) -> bool {
    answer_of(loader, path) is Err
}

/// The bundles at paths that load and describe a plugin.
spec fn bundles_at<L: Fn(String) -> Result<ScannedBundle, ClapError>>(
    loader: L,
    found: Seq<Seq<char>>,
) -> Seq<BundleModel>
    decreases found.len(),
{
    if found.len() == 0 {
        Seq::empty()
    } else if describes(loader, found.last()) {
        bundles_at(loader, found.drop_last()).push(
            BundleModel {
                path: found.last(),
                descriptors: bundle::descriptor_views(
                    answer_of(loader, found.last())->Ok_0.descriptors@,
                ),
            },
        )
    } else {
        bundles_at(loader, found.drop_last())
    }
}

/// The errors of the bundles at paths that do not load.
spec fn errors_at<L: Fn(String) -> Result<ScannedBundle, ClapError>>(
    loader: L,
    found: Seq<Seq<char>>,
) -> Seq<(Seq<char>, Seq<char>)>
    decreases found.len(),
{
    if found.len() == 0 {
        Seq::empty()
    } else if fails(loader, found.last()) {
        errors_at(loader, found.drop_last()).push(
            (found.last(), bundle::error_words(answer_of(loader, found.last())->Err_0)),
        )
    } else {
        errors_at(loader, found.drop_last())
    }
}

/// An answer for a path says what any answer for it says.
proof fn lemma_answer<L: Fn(String) -> Result<ScannedBundle, ClapError>>(
    loader: L,
    path: Seq<char>,
    a: Result<ScannedBundle, ClapError>,
)
    requires
        loads_alike(loader),
        discover::load_made(loader, path, a),
    ensures
        answers(loader, path),
        same_answer(path, a, path, answer_of(loader, path)),
        describes(loader, path) == (a matches Ok(b) && b.descriptors@.len() > 0),
        fails(loader, path) == (a is Err),
        a matches Ok(b) ==> b.path@ == path,
{
    reveal(loads_alike);
    let other = answer_of(loader, path);
    assert(discover::load_made(loader, path, other));
    assert(same_answer(path, a, path, other));
    if let (Ok(x), Ok(y)) = (a, other) {
        assert(bundle::descriptor_views(x.descriptors@).len() == x.descriptors@.len());
        assert(bundle::descriptor_views(y.descriptors@).len() == y.descriptors@.len());
    }
}

/// Of one file it is the same whether it loads, however its path is written.
proof fn lemma_same_kind<L: Fn(String) -> Result<ScannedBundle, ClapError>>(
    loader: L,
    p: Seq<char>,
    q: Seq<char>,
)
    requires
        loads_alike(loader),
        answers(loader, p),
        answers(loader, q),
        paths::path_key(p) == paths::path_key(q),
    ensures
        describes(loader, p) == describes(loader, q),
        fails(loader, p) == fails(loader, q),
{
    reveal(loads_alike);
    assert(same_answer(p, answer_of(loader, p), q, answer_of(loader, q)));
    if let (Ok(x), Ok(y)) = (answer_of(loader, p), answer_of(loader, q)) {
        assert(bundle::descriptor_views(x.descriptors@).len() == x.descriptors@.len());
        assert(bundle::descriptor_views(y.descriptors@).len() == y.descriptors@.len());
    }
}

/// Whether a merged result was made of the bundles and the errors at paths, and
/// of no others.
spec fn holds_plain<L: Fn(String) -> Result<ScannedBundle, ClapError>>(
    loader: L,
    m: discover::Merged,
    found: Seq<Seq<char>>,
) -> bool {
    &&& cache::bundle_views(m.bundles) == bundles_at(loader, paths::deduped(found))
    &&& m.errors == errors_at(loader, paths::deduped(found))
    &&& forall|p: Seq<char>| #[trigger]
        answers(loader, p) ==> paths::path_seen(m.seen, p) == paths::path_seen(found, p)
}

proof fn lemma_seen_joined(a: Seq<Seq<char>>, b: Seq<Seq<char>>, p: Seq<char>)
    ensures
        paths::path_seen(a + b, p) == (paths::path_seen(a, p) || paths::path_seen(b, p)),
{
    let all = a + b;
    if paths::path_seen(a, p) {
        let i = choose|i: int|
            0 <= i < a.len() && paths::path_key(#[trigger] a[i]) == paths::path_key(p);
        assert(all[i] == a[i]);
    }
    if paths::path_seen(b, p) {
        let i = choose|i: int|
            0 <= i < b.len() && paths::path_key(#[trigger] b[i]) == paths::path_key(p);
        assert(all[a.len() + i] == b[i]);
    }
    if paths::path_seen(all, p) {
        let i = choose|i: int|
            0 <= i < all.len() && paths::path_key(#[trigger] all[i]) == paths::path_key(p);
        if i < a.len() {
            assert(a[i] == all[i]);
        } else {
            assert(b[i - a.len()] == all[i]);
        }
    }
}

/// Merging the bundles of one more directory in.
proof fn lemma_merge_bundles<L: Fn(String) -> Result<ScannedBundle, ClapError>>(
    loader: L,
    m: discover::Merged,
    before: Seq<Seq<char>>,
    found: Seq<Seq<char>>,
    given: Seq<Result<ScannedBundle, ClapError>>,
)
    requires
        loads_alike(loader),
        all_answered(loader, before),
        discover::loads_made(loader, found, given),
        holds_plain(loader, m, before),
    ensures
        ({
            let out = discover::with_bundles(m, discover::loaded_in(given));
            &&& cache::bundle_views(out.bundles) == bundles_at(
                loader,
                paths::deduped(before + found),
            )
            &&& out.errors == m.errors
            &&& forall|p: Seq<char>| #[trigger]
                answers(loader, p) ==> paths::path_seen(out.seen, p) == (paths::path_seen(
                    before,
                    p,
                ) || (!fails(loader, p) && paths::path_seen(found, p)))
        }),
        all_answered(loader, before + found),
    decreases found.len(),
{
    if found.len() == 0 {
        assert(before + found =~= before);
    } else {
        let n = found.len() - 1;
        let rest = found.drop_last();
        let rest_given = given.drop_last();
        let p = found[n];
        let a = given[n];
        assert forall|i: int| 0 <= i < rest.len() implies discover::load_made(
            loader,
            rest[i],
            #[trigger] rest_given[i],
        ) by {
            assert(discover::load_made(loader, found[i], given[i]));
        }
        lemma_merge_bundles(loader, m, before, rest, rest_given);
        assert(discover::load_made(loader, p, a));
        lemma_answer(loader, p, a);
        let seen = before + rest;
        let now = before + found;
        assert(now.drop_last() =~= seen);
        assert(now.last() == p);
        assert forall|i: int| 0 <= i < now.len() implies answers(loader, #[trigger] now[i]) by {
            if i < seen.len() {
                assert(now[i] == seen[i]);
            }
        }
        let list = discover::loaded_in(rest_given);
        let step = discover::with_bundles(m, list);
        let out = discover::with_bundles(m, discover::loaded_in(given));
        lemma_seen_joined(before, rest, p);
        let kept = paths::deduped(seen);
        assert(kept.push(p).drop_last() =~= kept);
        if a is Ok {
            let b = a->Ok_0;
            assert(list.push(b).drop_last() =~= list);
            assert(cache::bundle_views(step.bundles.push(b)) =~= cache::bundle_views(
                step.bundles,
            ).push(
                BundleModel {
                    path: p,
                    descriptors: bundle::descriptor_views(b.descriptors@),
                },
            ));
        }
        assert forall|q: Seq<char>| #[trigger] answers(loader, q) implies paths::path_seen(
            out.seen,
            q,
        ) == (paths::path_seen(before, q) || (!fails(loader, q) && paths::path_seen(
            found,
            q,
        ))) by {
            assert(found =~= rest.push(p));
            paths::lemma_seen_pushed(rest, p, q);
            paths::lemma_seen_pushed(step.seen, p, q);
            if paths::path_key(p) == paths::path_key(q) {
                lemma_same_kind(loader, p, q);
                paths::lemma_seen_same_key(step.seen, p, q);
            }
        }
    }
}

/// Merging the errors of one more directory in, of which `whole` was found.
proof fn lemma_merge_errors<L: Fn(String) -> Result<ScannedBundle, ClapError>>(
    loader: L,
    m: discover::Merged,
    before: Seq<Seq<char>>,
    whole: Seq<Seq<char>>,
    found: Seq<Seq<char>>,
    given: Seq<Result<ScannedBundle, ClapError>>,
)
    requires
        loads_alike(loader),
        all_answered(loader, before),
        discover::loads_made(loader, found, given),
        m.errors == errors_at(loader, paths::deduped(before)),
        forall|p: Seq<char>| #[trigger]
            answers(loader, p) ==> paths::path_seen(m.seen, p) == (paths::path_seen(
                before,
                p,
            ) || (!fails(loader, p) && paths::path_seen(whole, p))),
    ensures
        ({
            let out = discover::with_errors(m, discover::errors_in(found, given));
            &&& out.bundles == m.bundles
            &&& out.errors == errors_at(loader, paths::deduped(before + found))
            &&& forall|p: Seq<char>| #[trigger]
                answers(loader, p) ==> paths::path_seen(out.seen, p) == (paths::path_seen(
                    before,
                    p,
                ) || (if fails(loader, p) {
                    paths::path_seen(found, p)
                } else {
                    paths::path_seen(whole, p)
                }))
        }),
    decreases found.len(),
{
    if found.len() == 0 {
        assert(before + found =~= before);
    } else {
        let n = found.len() - 1;
        let rest = found.drop_last();
        let rest_given = given.drop_last();
        let p = found[n];
        let a = given[n];
        assert forall|i: int| 0 <= i < rest.len() implies discover::load_made(
            loader,
            rest[i],
            #[trigger] rest_given[i],
        ) by {
            assert(discover::load_made(loader, found[i], given[i]));
        }
        lemma_merge_errors(loader, m, before, whole, rest, rest_given);
        lemma_errors_in_prefix(found, rest, rest_given);
        assert(discover::load_made(loader, p, a));
        lemma_answer(loader, p, a);
        let seen = before + rest;
        let now = before + found;
        assert(now.drop_last() =~= seen);
        assert(now.last() == p);
        let list = discover::errors_in(rest, rest_given);
        let step = discover::with_errors(m, list);
        let out = discover::with_errors(m, discover::errors_in(found, given));
        lemma_seen_joined(before, rest, p);
        let kept = paths::deduped(seen);
        assert(kept.push(p).drop_last() =~= kept);
        if fails(loader, p) {
            let said = (p, bundle::error_words(a->Err_0));
            assert(list.push(said).drop_last() =~= list);
        }
        assert forall|q: Seq<char>| #[trigger] answers(loader, q) implies paths::path_seen(
            out.seen,
            q,
        ) == (paths::path_seen(before, q) || (if fails(loader, q) {
            paths::path_seen(found, q)
        } else {
            paths::path_seen(whole, q)
        })) by {
            assert(found =~= rest.push(p));
            paths::lemma_seen_pushed(rest, p, q);
            paths::lemma_seen_pushed(step.seen, p, q);
            if paths::path_key(p) == paths::path_key(q) {
                lemma_same_kind(loader, p, q);
                paths::lemma_seen_same_key(step.seen, p, q);
            }
        }
    }
}

/// The errors among answers are a matter of the paths that they are about.
proof fn lemma_errors_in_prefix(
    a: Seq<Seq<char>>,
    b: Seq<Seq<char>>,
    given: Seq<Result<ScannedBundle, ClapError>>,
)
    requires
        given.len() <= a.len(),
        given.len() <= b.len(),
        forall|i: int| 0 <= i < given.len() ==> a[i] == b[i],
    ensures
        discover::errors_in(a, given) == discover::errors_in(b, given),
    decreases given.len(),
{
    if given.len() > 0 {
        lemma_errors_in_prefix(a, b, given.drop_last());
    }
}

proof fn lemma_merged_is_plain<L: Fn(String) -> Result<ScannedBundle, ClapError>>(
    loader: L,
    founds: Seq<Seq<Seq<char>>>,
    given: Seq<Seq<Result<ScannedBundle, ClapError>>>,
)
    requires
        loads_alike(loader),
        discover::all_loads_made(loader, founds, given),
    ensures
        holds_plain(loader, discover::merged(founds, given), discover::flat(founds)),
        all_answered(loader, discover::flat(founds)),
    decreases founds.len(),
{
    let m = discover::merged(founds, given);
    if founds.len() == 0 {
        assert(cache::bundle_views(m.bundles) =~= Seq::empty());
    } else {
        let n = founds.len() - 1;
        let before = founds.drop_last();
        let before_given = given.drop_last();
        assert forall|i: int| 0 <= i < before.len() implies discover::loads_made(
            loader,
            before[i],
            #[trigger] before_given[i],
        ) by {
            assert(discover::loads_made(loader, founds[i], given[i]));
        }
        lemma_merged_is_plain(loader, before, before_given);
        assert(discover::loads_made(loader, founds[n], given[n]));
        let start = discover::merged(before, before_given);
        let paths_before = discover::flat(before);
        lemma_merge_bundles(loader, start, paths_before, founds[n], given[n]);
        let half = discover::with_bundles(start, discover::loaded_in(given[n]));
        lemma_merge_errors(loader, half, paths_before, founds[n], founds[n], given[n]);
        assert forall|p: Seq<char>| #[trigger] answers(loader, p) implies paths::path_seen(
            m.seen,
            p,
        ) == paths::path_seen(discover::flat(founds), p) by {
            lemma_seen_joined(paths_before, founds[n], p);
        }
    }
}

proof fn lemma_cold_entries<L: Fn(String) -> Result<ScannedBundle, ClapError>>(
    loader: L,
    found: Seq<Seq<char>>,
    times: Seq<(u64, u32)>,
    entries: Seq<EntryModel>,
    n: int,
)
    requires
        loads_alike(loader),
        cache::entries_made(Seq::empty(), loader, found, times, entries),
        0 <= n <= found.len(),
    ensures
        cache::entry_bundles(entries.take(n)) == bundles_at(loader, found.take(n)),
        cache::entry_errors(entries.take(n)) == errors_at(loader, found.take(n)),
    decreases n,
{
    if n > 0 {
        lemma_cold_entries(loader, found, times, entries, n - 1);
        let i = n - 1;
        assert(entries.take(n).drop_last() =~= entries.take(n - 1));
        assert(found.take(n).drop_last() =~= found.take(n - 1));
        assert(cache::entry_made(Seq::empty(), loader, found[i], times[i], entries[i]));
        let a = choose|a: Result<ScannedBundle, ClapError>| #[trigger]
            discover::load_made(loader, found[i], a) && entries[i] == cache::loaded_entry(
                found[i],
                times[i],
                a,
            );
        lemma_answer(loader, found[i], a);
    }
}

/// With no cache file, or one of another schema, a scan with the cache loads
/// every bundle that is found, and gives the bundles and the errors that a scan
/// without a cache gives, where directories and bundles stay as they are.
pub proof fn law_cold_scan_is_plain_scan<
    F: Fn(String) -> Vec<DirEntry>,
    T: Fn(String) -> Option<FileStat>,
    L: Fn(String) -> Result<ScannedBundle, ClapError>,
>(
    list: F,
    stat: T,
    loader: L,
    dirs: Seq<String>,
    file: Option<CacheFile>,
    found: Seq<Seq<char>>,
    plain: ScanResult,
    outcome: CachedScanOutcome,
    entries: Seq<EntryModel>,
)
    requires
        discover::lists_alike(list),
        loads_alike(loader),
        file matches Some(f) ==> f.schema_version != CACHE_SCHEMA_VERSION,
        discover::paths_discovered(list, dirs, found),
        discover::paths_scanned(list, loader, dirs, plain),
        cache::scanned_with_cache(
            list,
            stat,
            loader,
            dirs,
            cache::usable_entries(file),
            outcome,
            entries,
        ),
    ensures
        outcome.cache_hits == 0,
        outcome.loaded == found.len(),
        cache::bundle_views(outcome.result.bundles@) == cache::bundle_views(plain.bundles@),
        discover::error_views(outcome.result.errors@) == discover::error_views(plain.errors@),
{
    let cached = cache::usable_entries(file);
    let (again, times) = choose|again: Seq<Seq<char>>, times: Seq<(u64, u32)>|
        discover::paths_discovered(list, dirs, again) && #[trigger] cache::bundles_timed(
            stat,
            again,
            times,
        ) && cache::entries_made(cached, loader, again, times, entries) && cache::outcome_of(
            outcome,
            cached,
            again,
            times,
            entries,
        );
    discover::law_discovery_is_repeatable(list, dirs, found, again);
    let (founds, given) = choose|
        founds: Seq<Seq<Seq<char>>>,
        given: Seq<Seq<Result<ScannedBundle, ClapError>>>,
    |
        discover::dirs_walked(list, dirs, founds) && #[trigger] discover::all_loads_made(
            loader,
            founds,
            given,
        ) && discover::says_merged(plain, discover::merged(founds, given));
    let all = paths::deduped(discover::flat(founds));
    assert(discover::paths_discovered(list, dirs, all));
    discover::law_discovery_is_repeatable(list, dirs, found, all);
    cache::law_other_schema_is_not_used(file, found, times);
    lemma_merged_is_plain(loader, founds, given);
    assert(cached =~= Seq::empty());
    lemma_cold_entries(loader, found, times, entries, found.len() as int);
    assert(entries.take(found.len() as int) =~= entries);
    assert(found.take(found.len() as int) =~= found);
}

// ---------------------------------------------------------------------------
// One scan after another
// ---------------------------------------------------------------------------

/// After a scan its cache spares loading every bundle: a scan with it, of
/// directories and files that have stayed as they were, may load none.
pub proof fn law_rescan_may_load_nothing<
    F: Fn(String) -> Vec<DirEntry>,
    T: Fn(String) -> Option<FileStat>,
    L: Fn(String) -> Result<ScannedBundle, ClapError>,
>(
    list: F,
    stat: T,
    loader: L,
    dirs: Seq<String>,
    cached: Seq<EntryModel>,
    first: CachedScanOutcome,
    entries: Seq<EntryModel>,
)
    requires
        discover::lists_alike(list),
        times::stats_alike(stat),
        cache::scanned_with_cache(list, stat, loader, dirs, cached, first, entries),
    ensures
        forall|p: Seq<char>| !#[trigger] cache::may_be_loaded(list, stat, dirs, entries, p),
{
    let (found, one) = choose|found: Seq<Seq<char>>, one: Seq<(u64, u32)>|
        discover::paths_discovered(list, dirs, found) && #[trigger] cache::bundles_timed(
            stat,
            found,
            one,
        ) && cache::entries_made(cached, loader, found, one, entries) && cache::outcome_of(
            first,
            cached,
            found,
            one,
            entries,
        );
    lemma_found_is_distinct(list, dirs, found);
    assert forall|p: Seq<char>| !#[trigger] cache::may_be_loaded(
        list,
        stat,
        dirs,
        entries,
        p,
    ) by {
        if cache::may_be_loaded(list, stat, dirs, entries, p) {
            let again = choose|again: Seq<Seq<char>>| #[trigger]
                discover::paths_discovered(list, dirs, again) && again.contains(p);
            discover::law_discovery_is_repeatable(list, dirs, found, again);
            let i = choose|i: int| 0 <= i < found.len() && found[i] == p;
            let t = choose|t: (u64, u32)| #[trigger]
                times::bundle_timed(stat, p, t) && cache::cache_hit(entries, p, t) is None;
            assert(times::bundle_timed(stat, found[i], one[i]));
            times::law_bundle_time_is_repeatable(stat, p, one[i], t);
            cache::law_unchanged_bundle_is_a_hit(cached, loader, found, one, entries, i, t);
        }
    }
}

proof fn lemma_found_is_distinct<F: Fn(String) -> Vec<DirEntry>>(
    list: F,
    dirs: Seq<String>,
    found: Seq<Seq<char>>,
)
    requires
        discover::paths_discovered(list, dirs, found),
    ensures
        cache::paths_distinct(found),
{
    let founds = choose|founds: Seq<Seq<Seq<char>>>| #[trigger]
        discover::dirs_walked(list, dirs, founds) && found == paths::deduped(
            discover::flat(founds),
        );
    paths::law_deduped_paths_are_distinct(discover::flat(founds));
}

/// A scan with the cache that an earlier scan has left gives the same, from the
/// cache alone, where directories and files have stayed as they were: it may
/// load nothing, whatever its loader would answer. The cache it leaves is the
/// same again.
pub proof fn law_rescan_loads_nothing<
    F: Fn(String) -> Vec<DirEntry>,
    T: Fn(String) -> Option<FileStat>,
    L: Fn(String) -> Result<ScannedBundle, ClapError>,
    M: Fn(String) -> Result<ScannedBundle, ClapError>,
>(
    list: F,
    stat: T,
    loader: L,
    other: M,
    dirs: Seq<String>,
    cached: Seq<EntryModel>,
    first: CachedScanOutcome,
    file: CacheFile,
    second: CachedScanOutcome,
    again: Seq<EntryModel>,
)
    requires
        discover::lists_alike(list),
        times::stats_alike(stat),
        cache::scanned_with_cache(
            list,
            stat,
            loader,
            dirs,
            cached,
            first,
            cache::entry_views(file.entries@),
        ),
        file.schema_version == CACHE_SCHEMA_VERSION,
        cache::scanned_with_cache(
            list,
            stat,
            other,
            dirs,
            cache::usable_entries(Some(file)),
            second,
            again,
        ),
    ensures
        forall|p: Seq<char>|
            !#[trigger] cache::may_be_loaded(
                list,
                stat,
                dirs,
                cache::usable_entries(Some(file)),
                p,
            ),
        second.loaded == 0,
        second.cache_hits == first.cache_hits + first.loaded,
        cache::bundle_views(second.result.bundles@) == cache::bundle_views(first.result.bundles@),
        discover::error_views(second.result.errors@) == discover::error_views(first.result.errors@),
        again == cache::entry_views(file.entries@),
{
    let entries = cache::entry_views(file.entries@);
    law_rescan_may_load_nothing(list, stat, loader, dirs, cached, first, entries);
    let (found, one) = choose|found: Seq<Seq<char>>, one: Seq<(u64, u32)>|
        discover::paths_discovered(list, dirs, found) && #[trigger] cache::bundles_timed(
            stat,
            found,
            one,
        ) && cache::entries_made(cached, loader, found, one, entries) && cache::outcome_of(
            first,
            cached,
            found,
            one,
            entries,
        );
    let (same, two) = choose|same: Seq<Seq<char>>, two: Seq<(u64, u32)>|
        discover::paths_discovered(list, dirs, same) && #[trigger] cache::bundles_timed(
            stat,
            same,
            two,
        ) && cache::entries_made(entries, other, same, two, again) && cache::outcome_of(
            second,
            entries,
            same,
            two,
            again,
        );
    discover::law_discovery_is_repeatable(list, dirs, found, same);
    assert forall|i: int| 0 <= i < found.len() implies one[i] == two[i] by {
        assert(times::bundle_timed(stat, found[i], one[i]));
        assert(times::bundle_timed(stat, found[i], two[i]));
        times::law_bundle_time_is_repeatable(stat, found[i], one[i], two[i]);
    }
    assert(one =~= two);
    lemma_found_is_distinct(list, dirs, found);
    cache::law_second_scan_is_all_hits(cached, loader, other, found, one, entries, again);
}

// ---------------------------------------------------------------------------
// What a walk finds
// ---------------------------------------------------------------------------

/// Whether a path whose last part is `name` is that of a bundle is a matter of the end
/// of its name: `.clap`, in letters of any size, behind at least one character.
pub proof fn law_bundles_end_in_clap(dirs: Seq<Seq<char>>, stem: Seq<char>, end: Seq<char>)
    requires
        forall|i: int| 0 <= i < dirs.len() ==> paths::is_plain_part(#[trigger] dirs[i]),
        stem.len() > 0,
        paths::is_plain_part(stem + seq!['.'] + end),
        end.len() > 0,
        forall|i: int| 0 <= i < end.len() ==> #[trigger] end[i] != '.',
    ensures
        discover::is_bundle(paths::each_behind_a_slash(dirs.push(stem + seq!['.'] + end))) <==> (
        end.len() == 4 && (end[0] as u32 == 'c' as u32 || end[0] as u32 == 'C' as u32) && (
        end[1] as u32 == 'l' as u32 || end[1] as u32 == 'L' as u32) && (end[2] as u32 == 'a' as u32
            || end[2] as u32 == 'A' as u32) && (end[3] as u32 == 'p' as u32 || end[3] as u32
            == 'P' as u32)),
{
    let name = stem + seq!['.'] + end;
    reveal_strlit("clap");
    assert(name != seq!['.', '.']) by {
        assert(name.len() > 2);
    }
    paths::law_path_leads_from_its_directory_to_its_file(dirs, name);
    paths::law_extension_stands_behind_the_last_dot(stem, end);
    let low = crate::sfz::lexer::lowered(end);
    assert(low.len() == end.len());
    if end.len() == 4 {
        crate::sfz::laws::law_capitals_become_small(end, 0);
        crate::sfz::laws::law_capitals_become_small(end, 1);
        crate::sfz::laws::law_capitals_become_small(end, 2);
        crate::sfz::laws::law_capitals_become_small(end, 3);
        let clap = "clap"@;
        assert(low =~= clap <==> (low[0] == clap[0] && low[1] == clap[1] && low[2] == clap[2]
            && low[3] == clap[3]));
    } else {
        assert("clap"@.len() == 4);
    }
}

/// Whether a directory lists an entry.
pub open spec fn lists_entry<F: Fn(String) -> Vec<DirEntry>>(
    list: F,
    dir: Seq<char>,
    path: Seq<char>,
    is_dir: bool,
) -> bool {
    exists|d: String, v: Vec<DirEntry>, i: int|
        d@ == dir && #[trigger] call_ensures(list, (d,), v) && 0 <= i < v@.len() && (
        #[trigger] v@[i]).path@ == path && v@[i].is_dir == is_dir
}

/// Whether a way leads from directory to directory, each listed in the one before it,
/// without going into a bundle.
pub open spec fn leads_down<F: Fn(String) -> Vec<DirEntry>>(list: F, way: Seq<Seq<char>>) -> bool {
    &&& way.len() > 0
    &&& forall|i: int|
        0 <= i < way.len() - 1 ==> #[trigger] lists_entry(list, way[i], way[i + 1], true)
            && !discover::is_bundle(way[i + 1])
}

proof fn lemma_entries_meet<F: Fn(String) -> Vec<DirEntry>>(
    list: F,
    entries: Seq<DirEntry>,
    depth: nat,
    found: Seq<Seq<char>>,
    i: int,
    way: Seq<Seq<char>>,
    bundle: Seq<char>,
    bundle_is_dir: bool,
)
    requires
        discover::lists_alike(list),
        discover::entries_walked(list, entries, depth, found),
        0 <= i < entries.len(),
        discover::is_bundle(bundle),
        ({
            ||| entries[i].path@ == bundle
            ||| entries[i].is_dir && !discover::is_bundle(entries[i].path@) && leads_down(list, way)
                && way[0] == entries[i].path@ && depth + way.len() <= 4 && lists_entry(
                list,
                way.last(),
                bundle,
                bundle_is_dir,
            )
        }),
    ensures
        found.contains(bundle),
    decreases 2 * (5 - depth), entries.len(),
{
    let last = entries.last();
    let (a, b) = choose|a: Seq<Seq<char>>, b: Seq<Seq<char>>| #[trigger]
        discover::is_concat(found, a, b) && discover::entries_walked(
            list,
            entries.drop_last(),
            depth,
            a,
        ) && (if discover::is_bundle(last.path@) {
            b == seq![last.path@]
        } else if last.is_dir {
            discover::dir_walked(list, last.path@, depth + 1, b)
        } else {
            b.len() == 0
        });
    if i < entries.len() - 1 {
        assert(entries.drop_last()[i] == entries[i]);
        lemma_entries_meet(
            list,
            entries.drop_last(),
            depth,
            a,
            i,
            way,
            bundle,
            bundle_is_dir,
        );
        let k = choose|k: int| 0 <= k < a.len() && a[k] == bundle;
        assert(found[k] == bundle);
    } else if last.path@ == bundle {
        assert(b[0] == bundle);
        assert(found[a.len() as int] == bundle);
    } else {
        lemma_walk_meets(list, depth + 1, b, way, bundle, bundle_is_dir);
        let k = choose|k: int| 0 <= k < b.len() && b[k] == bundle;
        assert(found[a.len() + k] == bundle);
    }
}

proof fn lemma_walk_meets<F: Fn(String) -> Vec<DirEntry>>(
    list: F,
    depth: nat,
    found: Seq<Seq<char>>,
    way: Seq<Seq<char>>,
    bundle: Seq<char>,
    is_dir: bool,
)
    requires
        discover::lists_alike(list),
        leads_down(list, way),
        discover::dir_walked(list, way[0], depth, found),
        depth + way.len() <= 5,
        lists_entry(list, way.last(), bundle, is_dir),
        discover::is_bundle(bundle),
    ensures
        found.contains(bundle),
    decreases 2 * (5 - depth) + 1, 0nat,
{
    let dir = way[0];
    let (d, entries) = choose|d: String, entries: Vec<DirEntry>|
        d@ == dir && #[trigger] call_ensures(list, (d,), entries) && discover::entries_walked(
            list,
            entries@,
            depth,
            found,
        );
    let (next, next_is_dir) = if way.len() == 1 {
        (bundle, is_dir)
    } else {
        (way[1], true)
    };
    if way.len() > 1 {
        assert(lists_entry(list, way[0], way[0 + 1int], true));
    }
    assert(lists_entry(list, dir, next, next_is_dir));
    let (e, v, i) = choose|e: String, v: Vec<DirEntry>, i: int|
        e@ == dir && #[trigger] call_ensures(list, (e,), v) && 0 <= i < v@.len() && (
        #[trigger] v@[i]).path@ == next && v@[i].is_dir == next_is_dir;
    assert(discover::same_entries(v@, entries@));
    assert(entries@[i].path@ == next && entries@[i].is_dir == next_is_dir) by {
        assert(v@[i].path@ == entries@[i].path@);
    }
    let tail = way.skip(1);
    if way.len() > 1 {
        assert(!discover::is_bundle(way[0 + 1int]));
        assert forall|k: int| 0 <= k < tail.len() - 1 implies #[trigger] lists_entry(
            list,
            tail[k],
            tail[k + 1],
            true,
        ) && !discover::is_bundle(tail[k + 1]) by {
            assert(lists_entry(list, way[k + 1], way[(k + 1) + 1], true));
        }
        assert(tail.last() == way.last());
    }
    lemma_entries_meet(list, entries@, depth, found, i, tail, bundle, is_dir);
}

/// A search finds every bundle that lies in the directory or at most four directories
/// further down, on whatever way through directories that are no bundles.
pub proof fn law_bundles_are_found<F: Fn(String) -> Vec<DirEntry>>(
    list: F,
    found: Seq<Seq<char>>,
    way: Seq<Seq<char>>,
    bundle: Seq<char>,
    is_dir: bool,
)
    requires
        discover::lists_alike(list),
        leads_down(list, way),
        way.len() <= 5,
        lists_entry(list, way.last(), bundle, is_dir),
        discover::is_bundle(bundle),
        discover::dir_walked(list, way[0], 0, found),
    ensures
        found.contains(bundle),
{
    lemma_walk_meets(list, 0, found, way, bundle, is_dir);
}

/// A search finds nothing but bundles that are listed in a directory that it comes to,
/// at most four directories further down. Gives the way to it.
pub proof fn law_found_bundles_are_there<F: Fn(String) -> Vec<DirEntry>>(
    list: F,
    dir: Seq<char>,
    depth: nat,
    found: Seq<Seq<char>>,
    bundle: Seq<char>,
) -> (way: Seq<Seq<char>>)
    requires
        discover::dir_walked(list, dir, depth, found),
        found.contains(bundle),
    ensures
        leads_down(list, way),
        way[0] == dir,
        depth + way.len() <= 5,
        lists_entry(list, way.last(), bundle, true) || lists_entry(list, way.last(), bundle, false),
        discover::is_bundle(bundle),
    decreases 2 * (5 - depth) + 1, 0nat,
{
    let (d, entries) = choose|d: String, entries: Vec<DirEntry>|
        d@ == dir && #[trigger] call_ensures(list, (d,), entries) && discover::entries_walked(
            list,
            entries@,
            depth,
            found,
        );
    let (i, tail) = lemma_found_entry(list, entries@, depth, found, bundle);
    let e = entries@[i];
    assert(lists_entry(list, dir, e.path@, e.is_dir)) by {
        assert(call_ensures(list, (d,), entries));
        assert(entries@[i].path@ == e.path@);
    }
    if tail.len() == 0 {
        seq![dir]
    } else {
        let way = seq![dir] + tail;
        assert forall|k: int| 0 <= k < way.len() - 1 implies #[trigger] lists_entry(
            list,
            way[k],
            way[k + 1],
            true,
        ) && !discover::is_bundle(way[k + 1]) by {
            if k > 0 {
                assert(lists_entry(list, tail[k - 1], tail[(k - 1) + 1], true));
                assert(way[k] == tail[k - 1] && way[k + 1] == tail[k]);
            } else {
                assert(way[1] == tail[0]);
            }
        }
        assert(way.last() == tail.last());
        way
    }
}

proof fn lemma_found_entry<F: Fn(String) -> Vec<DirEntry>>(
    list: F,
    entries: Seq<DirEntry>,
    depth: nat,
    found: Seq<Seq<char>>,
    bundle: Seq<char>,
) -> (r: (int, Seq<Seq<char>>))
    requires
        discover::entries_walked(list, entries, depth, found),
        found.contains(bundle),
    ensures
        depth <= 4,
        0 <= r.0 < entries.len(),
        discover::is_bundle(bundle),
        r.1.len() == 0 ==> entries[r.0].path@ == bundle,
        r.1.len() > 0 ==> leads_down(list, r.1) && r.1[0] == entries[r.0].path@
            && entries[r.0].is_dir && !discover::is_bundle(r.1[0]) && depth + r.1.len() <= 4 && (
        lists_entry(list, r.1.last(), bundle, true) || lists_entry(
            list,
            r.1.last(),
            bundle,
            false,
        )),
    decreases 2 * (5 - depth), entries.len(),
{
    let last = entries.last();
    let n = entries.len() - 1;
    let (a, b) = choose|a: Seq<Seq<char>>, b: Seq<Seq<char>>| #[trigger]
        discover::is_concat(found, a, b) && discover::entries_walked(
            list,
            entries.drop_last(),
            depth,
            a,
        ) && (if discover::is_bundle(last.path@) {
            b == seq![last.path@]
        } else if last.is_dir {
            discover::dir_walked(list, last.path@, depth + 1, b)
        } else {
            b.len() == 0
        });
    let k = choose|k: int| 0 <= k < found.len() && found[k] == bundle;
    if k < a.len() {
        assert(a[k] == bundle);
        let r = lemma_found_entry(list, entries.drop_last(), depth, a, bundle);
        assert(entries.drop_last()[r.0] == entries[r.0]);
        r
    } else {
        assert(b[k - a.len()] == bundle);
        if discover::is_bundle(last.path@) {
            (n, Seq::empty())
        } else {
            let way = law_found_bundles_are_there(list, last.path@, depth + 1, b, bundle);
            (n, way)
        }
    }
}

// ---------------------------------------------------------------------------
// What a scan tells
// ---------------------------------------------------------------------------

proof fn lemma_loaded_in(answers: Seq<Result<ScannedBundle, ClapError>>, b: ScannedBundle)
    ensures
        discover::described(discover::loaded_in(answers)).contains(b) <==> (answers.contains(
            Ok::<ScannedBundle, ClapError>(b),
        ) && b.descriptors@.len() > 0),
    decreases answers.len(),
{
    if answers.len() > 0 {
        let rest = answers.drop_last();
        lemma_loaded_in(rest, b);
        let want = Ok::<ScannedBundle, ClapError>(b);
        assert(answers.contains(want) == (rest.contains(want) || answers.last() == want)) by {
            if rest.contains(want) {
                let i = choose|i: int| 0 <= i < rest.len() && rest[i] == want;
                assert(answers[i] == want);
            }
            if answers.contains(want) {
                let i = choose|i: int| 0 <= i < answers.len() && answers[i] == want;
                if i < rest.len() {
                    assert(rest[i] == want);
                }
            }
            if answers.last() == want {
                assert(answers[answers.len() - 1] == want);
            }
        }
        let before = discover::loaded_in(rest);
        match answers.last() {
            Ok(last) => {
                assert(before.push(last).drop_last() =~= before);
                let kept = discover::described(before);
                if last.descriptors@.len() > 0 {
                    let all = kept.push(last);
                    if kept.contains(b) {
                        let i = choose|i: int| 0 <= i < kept.len() && kept[i] == b;
                        assert(all[i] == b);
                    }
                    if all.contains(b) {
                        let i = choose|i: int| 0 <= i < all.len() && all[i] == b;
                        if i < kept.len() {
                            assert(kept[i] == b);
                        }
                    }
                    assert(all[kept.len() as int] == last);
                }
            },
            Err(_) => {},
        }
    }
}

/// Whether an answer for one of the paths is an error, and this is told.
spec fn tells_error(
    found: Seq<Seq<char>>,
    answers: Seq<Result<ScannedBundle, ClapError>>,
    k: int,
    path: Seq<char>,
    said: Seq<char>,
) -> bool {
    &&& 0 <= k < answers.len()
    &&& found[k] == path
    &&& answers[k] matches Err(e) && bundle::error_words(e) == said
}

proof fn lemma_errors_in(
    found: Seq<Seq<char>>,
    answers: Seq<Result<ScannedBundle, ClapError>>,
    path: Seq<char>,
    said: Seq<char>,
)
    ensures
        discover::errors_in(found, answers).contains((path, said)) <==> exists|k: int| #[trigger]
            tells_error(found, answers, k, path, said),
    decreases answers.len(),
{
    if answers.len() > 0 {
        let rest = answers.drop_last();
        let n = answers.len() - 1;
        let before = discover::errors_in(found, rest);
        let all = discover::errors_in(found, answers);
        lemma_errors_in(found, rest, path, said);
        assert forall|k: int| 0 <= k < n implies #[trigger] tells_error(
            found,
            rest,
            k,
            path,
            said,
        ) == tells_error(found, answers, k, path, said) by {
            assert(rest[k] == answers[k]);
        }
        if before.contains((path, said)) {
            let i = choose|i: int| 0 <= i < before.len() && before[i] == (path, said);
            assert(all[i] == (path, said));
            let k = choose|k: int| #[trigger] tells_error(found, rest, k, path, said);
            assert(tells_error(found, answers, k, path, said));
        }
        if all.contains((path, said)) {
            let i = choose|i: int| 0 <= i < all.len() && all[i] == (path, said);
            if i < before.len() {
                assert(before[i] == (path, said));
            } else {
                assert(tells_error(found, answers, n, path, said));
            }
        }
        if exists|k: int| #[trigger] tells_error(found, answers, k, path, said) {
            let k = choose|k: int| #[trigger] tells_error(found, answers, k, path, said);
            if k < n {
                assert(tells_error(found, rest, k, path, said));
            } else {
                assert(all[all.len() - 1] == (path, said));
            }
        }
    }
}

/// The scan of a directory tells of every path that was found what came of loading it: a
/// bundle that describes a plugin is among the bundles, one that did not load is among
/// the errors with its path and the reason in words. It tells nothing else.
pub proof fn law_directory_scan_tells_each_answer(
    found: Seq<Seq<char>>,
    answers: Seq<Result<ScannedBundle, ClapError>>,
    r: ScanResult,
)
    requires
        answers.len() == found.len(),
        discover::result_of(r, found, answers),
    ensures
        forall|b: ScannedBundle| #[trigger]
            r.bundles@.contains(b) <==> (answers.contains(Ok::<ScannedBundle, ClapError>(b))
                && b.descriptors@.len() > 0),
        forall|k: int|
            0 <= k < answers.len() ==> (#[trigger] answers[k] matches Err(e) ==> exists|j: int|
                0 <= j < r.errors@.len() && (#[trigger] r.errors@[j]).0@ == found[k]
                    && r.errors@[j].1@ == bundle::error_words(e)),
        forall|j: int|
            0 <= j < r.errors@.len() ==> exists|k: int|
                0 <= k < answers.len() && found[k] == (#[trigger] r.errors@[j]).0@ && (
                #[trigger] answers[k] matches Err(e) && bundle::error_words(e) == r.errors@[j].1@),
{
    let shown = discover::error_views(r.errors@);
    assert(shown.len() == r.errors@.len());
    assert forall|b: ScannedBundle| #[trigger] r.bundles@.contains(b) <==> (answers.contains(
        Ok::<ScannedBundle, ClapError>(b),
    ) && b.descriptors@.len() > 0) by {
        lemma_loaded_in(answers, b);
    }
    assert forall|k: int| 0 <= k < answers.len() implies (#[trigger] answers[k] matches Err(e)
        ==> exists|j: int|
        0 <= j < r.errors@.len() && (#[trigger] r.errors@[j]).0@ == found[k] && r.errors@[j].1@
            == bundle::error_words(e)) by {
        if let Err(e) = answers[k] {
            let said = bundle::error_words(e);
            lemma_errors_in(found, answers, found[k], said);
            assert(tells_error(found, answers, k, found[k], said));
            let j = choose|j: int| 0 <= j < shown.len() && shown[j] == (found[k], said);
            assert(shown[j] == (r.errors@[j].0@, r.errors@[j].1@));
        }
    }
    assert forall|j: int| 0 <= j < r.errors@.len() implies exists|k: int|
        0 <= k < answers.len() && found[k] == (#[trigger] r.errors@[j]).0@ && (
        #[trigger] answers[k] matches Err(e) && bundle::error_words(e) == r.errors@[j].1@) by {
        assert(shown[j] == (r.errors@[j].0@, r.errors@[j].1@));
        lemma_errors_in(found, answers, shown[j].0, shown[j].1);
        let k = choose|k: int| #[trigger]
            tells_error(found, answers, k, shown[j].0, shown[j].1);
        assert(answers[k] is Err);
    }
}

// ---------------------------------------------------------------------------
// What a cache spares
// ---------------------------------------------------------------------------

/// An entry spares loading a bundle only where it is one of the entries, is for the
/// bundle's path, and has its time; and where all entries for the path have its time,
/// one does.
pub proof fn law_hit_needs_the_path_and_the_time(
    cached: Seq<EntryModel>,
    path: Seq<char>,
    mtime: (u64, u32),
)
    ensures
        cache::cache_hit(cached, path, mtime) matches Some(e) ==> cached.contains(e)
            && paths::path_key(e.path) == paths::path_key(path) && e.mtime == mtime,
        (exists|i: int|
            0 <= i < cached.len() && paths::path_key((#[trigger] cached[i]).path)
                == paths::path_key(path)) && (forall|i: int|
            0 <= i < cached.len() && paths::path_key((#[trigger] cached[i]).path)
                == paths::path_key(path) ==> cached[i].mtime == mtime) ==> cache::cache_hit(
            cached,
            path,
            mtime,
        ) is Some,
    decreases cached.len(),
{
    if cached.len() > 0 {
        let rest = cached.drop_last();
        let n = cached.len() - 1;
        law_hit_needs_the_path_and_the_time(rest, path, mtime);
        assert forall|i: int| 0 <= i < n implies #[trigger] rest[i] == cached[i] by {}
        if let Some(e) = cache::cache_hit(cached, path, mtime) {
            if paths::path_key(cached[n].path) == paths::path_key(path) {
                assert(cached[n] == e);
            } else {
                let i = choose|i: int| 0 <= i < rest.len() && rest[i] == e;
                assert(cached[i] == e);
            }
        }
        if (exists|i: int|
            0 <= i < cached.len() && paths::path_key((#[trigger] cached[i]).path)
                == paths::path_key(path)) && (forall|i: int|
            0 <= i < cached.len() && paths::path_key((#[trigger] cached[i]).path)
                == paths::path_key(path) ==> cached[i].mtime == mtime) {
            if paths::path_key(cached[n].path) != paths::path_key(path) {
                let i = choose|i: int|
                    0 <= i < cached.len() && paths::path_key((#[trigger] cached[i]).path)
                        == paths::path_key(path);
                assert(rest[i] == cached[i]);
                assert forall|j: int|
                    0 <= j < rest.len() && paths::path_key((#[trigger] rest[j]).path)
                        == paths::path_key(path) implies rest[j].mtime == mtime by {
                    assert(rest[j] == cached[j]);
                }
            }
        }
    }
}

/// The entry for a bundle that was loaded has its path and its time, and what it says of
/// its plugins; that for one that did not load has the reason, and no plugins.
pub proof fn law_entry_says_what_came_back(
    path: Seq<char>,
    mtime: (u64, u32),
    answer: Result<ScannedBundle, ClapError>,
)
    ensures
        ({
            let e = cache::loaded_entry(path, mtime, answer);
            &&& e.path == path
            &&& e.mtime == mtime
            &&& answer matches Ok(b) ==> e.error is None && e.descriptors
                == bundle::descriptor_views(b.descriptors@)
            &&& answer matches Err(x) ==> e.error == Some(bundle::error_words(x))
                && e.descriptors.len() == 0
        }),
{
}

/// What an entry of the cache says comes back from it as it went in.
pub proof fn law_entry_holds_what_it_says(e: CacheEntry)
    ensures
        e@.path == e.path@,
        e@.mtime == e.mtime,
        e@.descriptors.len() == e.descriptors@.len(),
        forall|i: int|
            0 <= i < e.descriptors@.len() ==> (#[trigger] e@.descriptors[i]) == e.descriptors@[i]@,
        e.error is None <==> e@.error is None,
        e.error matches Some(said) ==> e@.error == Some(said@),
{
}

proof fn lemma_entry_bundles(entries: Seq<EntryModel>, b: BundleModel)
    ensures
        cache::entry_bundles(entries).contains(b) <==> exists|i: int|
            0 <= i < entries.len() && (#[trigger] entries[i]).error is None
                && entries[i].descriptors.len() > 0 && b.path == entries[i].path && b.descriptors
                == entries[i].descriptors,
    decreases entries.len(),
{
    if entries.len() > 0 {
        let rest = entries.drop_last();
        let n = entries.len() - 1;
        let before = cache::entry_bundles(rest);
        let all = cache::entry_bundles(entries);
        lemma_entry_bundles(rest, b);
        assert forall|i: int| 0 <= i < n implies #[trigger] rest[i] == entries[i] by {}
        if before.contains(b) {
            let i = choose|i: int| 0 <= i < before.len() && before[i] == b;
            assert(all[i] == b);
            let k = choose|k: int|
                0 <= k < rest.len() && (#[trigger] rest[k]).error is None
                    && rest[k].descriptors.len() > 0 && b.path == rest[k].path && b.descriptors
                    == rest[k].descriptors;
            assert(entries[k] == rest[k]);
        }
        if all.contains(b) {
            let i = choose|i: int| 0 <= i < all.len() && all[i] == b;
            if i < before.len() {
                assert(before[i] == b);
            } else {
                assert(entries[n].error is None);
            }
        }
        if exists|i: int|
            0 <= i < entries.len() && (#[trigger] entries[i]).error is None
                && entries[i].descriptors.len() > 0 && b.path == entries[i].path && b.descriptors
                == entries[i].descriptors {
            let i = choose|i: int|
                0 <= i < entries.len() && (#[trigger] entries[i]).error is None
                    && entries[i].descriptors.len() > 0 && b.path == entries[i].path
                    && b.descriptors == entries[i].descriptors;
            if i < n {
                assert(rest[i] == entries[i]);
            } else {
                assert(all[all.len() - 1] == b);
            }
        }
    }
}

proof fn lemma_entry_errors(entries: Seq<EntryModel>, path: Seq<char>, said: Seq<char>)
    ensures
        cache::entry_errors(entries).contains((path, said)) <==> exists|i: int|
            0 <= i < entries.len() && (#[trigger] entries[i]).error == Some(said)
                && entries[i].path == path,
    decreases entries.len(),
{
    if entries.len() > 0 {
        let rest = entries.drop_last();
        let n = entries.len() - 1;
        let before = cache::entry_errors(rest);
        let all = cache::entry_errors(entries);
        lemma_entry_errors(rest, path, said);
        assert forall|i: int| 0 <= i < n implies #[trigger] rest[i] == entries[i] by {}
        if before.contains((path, said)) {
            let i = choose|i: int| 0 <= i < before.len() && before[i] == (path, said);
            assert(all[i] == (path, said));
            let k = choose|k: int|
                0 <= k < rest.len() && (#[trigger] rest[k]).error == Some(said) && rest[k].path
                    == path;
            assert(entries[k] == rest[k]);
        }
        if all.contains((path, said)) {
            let i = choose|i: int| 0 <= i < all.len() && all[i] == (path, said);
            if i < before.len() {
                assert(before[i] == (path, said));
            } else {
                assert(entries[n].error == Some(said));
            }
        }
        if exists|i: int|
            0 <= i < entries.len() && (#[trigger] entries[i]).error == Some(said)
                && entries[i].path == path {
            let i = choose|i: int|
                0 <= i < entries.len() && (#[trigger] entries[i]).error == Some(said)
                    && entries[i].path == path;
            if i < n {
                assert(rest[i] == entries[i]);
            } else {
                assert(all[all.len() - 1] == (path, said));
            }
        }
    }
}

/// What a scan with a cache gives is what its entries say: the bundles of the entries
/// that loaded and describe a plugin, and the errors of those that did not.
pub proof fn law_outcome_tells_each_entry(
    outcome: CachedScanOutcome,
    cached: Seq<EntryModel>,
    found: Seq<Seq<char>>,
    times: Seq<(u64, u32)>,
    entries: Seq<EntryModel>,
    i: int,
)
    requires
        cache::outcome_of(outcome, cached, found, times, entries),
        0 <= i < entries.len(),
    ensures
        outcome.cache_hits + outcome.loaded == found.len(),
        entries[i].error is None && entries[i].descriptors.len() > 0 ==> exists|k: int|
            0 <= k < outcome.result.bundles@.len() && (
            #[trigger] outcome.result.bundles@[k]).path@ == entries[i].path
                && bundle::descriptor_views(outcome.result.bundles@[k].descriptors@)
                == entries[i].descriptors,
        entries[i].error matches Some(said) ==> exists|k: int|
            0 <= k < outcome.result.errors@.len() && (
            #[trigger] outcome.result.errors@[k]).0@ == entries[i].path
                && outcome.result.errors@[k].1@ == said,
        forall|k: int|
            0 <= k < outcome.result.bundles@.len() ==> exists|j: int|
                0 <= j < entries.len() && (#[trigger] entries[j]).error is None && (
                #[trigger] outcome.result.bundles@[k]).path@ == entries[j].path
                    && bundle::descriptor_views(outcome.result.bundles@[k].descriptors@)
                    == entries[j].descriptors,
        forall|k: int|
            0 <= k < outcome.result.errors@.len() ==> exists|j: int|
                0 <= j < entries.len() && (#[trigger] entries[j]).error == Some(
                    outcome.result.errors@[k].1@,
                ) && (#[trigger] outcome.result.errors@[k]).0@ == entries[j].path,
{
    let bundles = cache::bundle_views(outcome.result.bundles@);
    let errors = discover::error_views(outcome.result.errors@);
    assert(bundles.len() == outcome.result.bundles@.len());
    assert(errors.len() == outcome.result.errors@.len());
    let b = BundleModel { path: entries[i].path, descriptors: entries[i].descriptors };
    lemma_entry_bundles(entries, b);
    if entries[i].error is None && entries[i].descriptors.len() > 0 {
        let k = choose|k: int| 0 <= k < bundles.len() && bundles[k] == b;
        assert(bundles[k].path == outcome.result.bundles@[k].path@);
        assert(outcome.result.bundles@[k].path@ == entries[i].path);
    }
    if let Some(said) = entries[i].error {
        lemma_entry_errors(entries, entries[i].path, said);
        let k = choose|k: int| 0 <= k < errors.len() && errors[k] == (entries[i].path, said);
        assert(errors[k] == (outcome.result.errors@[k].0@, outcome.result.errors@[k].1@));
    }
    assert forall|k: int| 0 <= k < outcome.result.bundles@.len() implies exists|j: int|
        0 <= j < entries.len() && (#[trigger] entries[j]).error is None && (
        #[trigger] outcome.result.bundles@[k]).path@ == entries[j].path
            && bundle::descriptor_views(outcome.result.bundles@[k].descriptors@)
            == entries[j].descriptors by {
        lemma_entry_bundles(entries, bundles[k]);
        assert(bundles.contains(bundles[k]));
        assert(bundles[k].path == outcome.result.bundles@[k].path@);
    }
    assert forall|k: int| 0 <= k < outcome.result.errors@.len() implies exists|j: int|
        0 <= j < entries.len() && (#[trigger] entries[j]).error == Some(
            outcome.result.errors@[k].1@,
        ) && (#[trigger] outcome.result.errors@[k]).0@ == entries[j].path by {
        lemma_entry_errors(entries, errors[k].0, errors[k].1);
        assert(errors.contains(errors[k]));
        assert(errors[k] == (outcome.result.errors@[k].0@, outcome.result.errors@[k].1@));
    }
}

/// A bundle counts as a hit exactly where an entry spares loading it.
pub proof fn law_hits_are_counted(
    cached: Seq<EntryModel>,
    found: Seq<Seq<char>>,
    times: Seq<(u64, u32)>,
    path: Seq<char>,
    time: (u64, u32),
)
    requires
        found.len() == times.len(),
    ensures
        cache::hit_count(cached, found.push(path), times.push(time)) == cache::hit_count(
            cached,
            found,
            times,
        ) + if cache::cache_hit(cached, path, time) is Some {
            1int
        } else {
            0int
        },
        cache::hit_count(cached, Seq::empty(), Seq::empty()) == 0,
{
    assert(found.push(path).drop_last() =~= found);
    cache::lemma_hit_count_prefix(cached, found, times, times.push(time));
}

} // verus!
