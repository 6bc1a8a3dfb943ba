//! The time of a bundle: when anything in it had last changed.
//!
//! Every file in the bundle counts, however deep, and links are followed. A
//! link may lead back to a directory that holds it, so a directory that is met
//! again on the way to itself is not gone into a second time.

use vstd::prelude::*;
use vstd::string::*;

use crate::text;
use crate::text::{copy_text, same_text};

verus! {

/// What the system says of a file, links followed.
#[derive(Debug)]
pub struct FileStat {
    /// When it was last changed, since the epoch: seconds and nanoseconds.
    pub modified: Option<(u64, u32)>,
    /// The paths of its entries, where it is a directory.
    pub entries: Vec<String>,
    /// What tells a directory from all others, whatever path leads to it.
    pub identity: Option<String>,
}

/// Whether a time is later than another.
pub open spec fn later(a: (u64, u32), b: (u64, u32)) -> bool {
    a.0 > b.0 || (a.0 == b.0 && a.1 > b.1)
}

/// The latest of several times; the epoch where there are none.
pub open spec fn latest(times: Seq<(u64, u32)>) -> (u64, u32)
    decreases times.len(),
{
    if times.len() == 0 {
        (0, 0)
    } else if later(times.last(), latest(times.drop_last())) {
        times.last()
    } else {
        latest(times.drop_last())
    }
}

/// The time of a file, where there is one.
pub open spec fn own_time(stat: FileStat) -> Seq<(u64, u32)> {
    match stat.modified {
        Some(t) => seq![t],
        None => Seq::empty(),
    }
}

/// Whether times are made up of two sequences, one behind the other.
pub open spec fn times_concat(
    whole: Seq<(u64, u32)>,
    a: Seq<(u64, u32)>,
    b: Seq<(u64, u32)>,
) -> bool {
    whole == a + b
}

/// What a directory is known by: its identity, or else the path to it.
pub open spec fn known_as(stat: FileStat, path: Seq<char>) -> Seq<char> {
    match stat.identity {
        Some(id) => id@,
        None => path,
    }
}

/// Whether `answer` may be what `stat` says of a path.
pub open spec fn stat_made<T: Fn(String) -> Option<FileStat>>(
    stat: T,
    path: Seq<char>,
    answer: Option<FileStat>,
) -> bool {
    exists|p: String| p@ == path && #[trigger] call_ensures(stat, (p,), answer)
}

/// Whether a directory is gone into that was reached through those in `above`:
/// where it is none of them. They are at most as many as can be counted.
pub open spec fn gone_into(above: Seq<Seq<char>>, id: Seq<char>) -> bool {
    above.len() < usize::MAX && !above.contains(id)
}

/// Whether `times` may be those of a file and, where it is a directory, of
/// what is in it, with `above` the directories that it was reached through. Of
/// a file that `stat` cannot read there is none.
pub open spec fn file_timed<T: Fn(String) -> Option<FileStat>>(
    stat: T,
    path: Seq<char>,
    above: Seq<Seq<char>>,
    times: Seq<(u64, u32)>,
) -> bool
    decreases usize::MAX - above.len(), 0nat,
{
    exists|answer: Option<FileStat>| #[trigger]
        stat_made(stat, path, answer) && (match answer {
            Some(s) => exists|rest: Seq<(u64, u32)>| #[trigger]
                times_concat(times, own_time(s), rest) && (if gone_into(
                    above,
                    known_as(s, path),
                ) {
                    entries_timed(stat, s.entries@, above.push(known_as(s, path)), rest)
                } else {
                    rest.len() == 0
                }),
            None => times.len() == 0,
        })
}

/// Whether `times` may be those of the entries of a directory.
pub open spec fn entries_timed<T: Fn(String) -> Option<FileStat>>(
    stat: T,
    entries: Seq<String>,
    above: Seq<Seq<char>>,
    times: Seq<(u64, u32)>,
) -> bool
    decreases usize::MAX - above.len(), entries.len(),
{
    if entries.len() == 0 {
        times.len() == 0
    } else {
        exists|a: Seq<(u64, u32)>, b: Seq<(u64, u32)>| #[trigger]
            times_concat(times, a, b) && entries_timed(stat, entries.drop_last(), above, a)
                && file_timed(stat, entries.last()@, above, b)
    }
}

/// Whether `time` may be that of a bundle: the latest of all files in it.
pub open spec fn bundle_timed<T: Fn(String) -> Option<FileStat>>(
    stat: T,
    path: Seq<char>,
    time: (u64, u32),
) -> bool {
    exists|times: Seq<(u64, u32)>| #[trigger]
        file_timed(stat, path, Seq::empty(), times) && time == latest(times)
}

proof fn lemma_latest_concat(a: Seq<(u64, u32)>, b: Seq<(u64, u32)>)
    ensures
        latest(a + b) == if later(latest(b), latest(a)) {
            latest(b)
        } else {
            latest(a)
        },
    decreases b.len(),
{
    if b.len() == 0 {
        assert(a + b =~= a);
    } else {
        assert((a + b).drop_last() =~= a + b.drop_last());
        assert((a + b).last() == b.last());
        lemma_latest_concat(a, b.drop_last());
    }
}

/// Whether a text is among others.
fn is_among(texts: &Vec<String>, one: &String) -> (r: bool)
    ensures
        r == text::string_views(texts@).contains(one@),
{
    let ghost models = text::string_views(texts@);
    let n: usize = texts.len();
    for i in 0..n
        invariant
            n == texts.len(),
            models == text::string_views(texts@),
            forall|j: int| 0 <= j < i ==> models[j] != one@,
    {
        assert(models[i as int] == texts@[i as int]@);
        if same_text(&texts[i], one) {
            return true;
        }
    }
    false
}

/// Whether a walk through `path`, which was reached through the directories
/// `above`, may ask what `target` is.
pub open spec fn may_be_asked<T: Fn(String) -> Option<FileStat>>(
    stat: T,
    path: Seq<char>,
    above: Seq<Seq<char>>,
    target: Seq<char>,
) -> bool
    decreases usize::MAX - above.len(),
{
    target == path || exists|s: FileStat, i: int| #[trigger]
        stat_made(stat, path, Some(s)) && gone_into(above, known_as(s, path)) && 0 <= i
            < s.entries@.len() && may_be_asked(
            stat,
            (#[trigger] s.entries@[i])@,
            above.push(known_as(s, path)),
            target,
        )
}

/// Takes the times of a file into account.
fn bundle_mtime_recursive<T: Fn(String) -> Option<FileStat>>(
    path: &str,
    above: &mut Vec<String>,
    stat: &T,
    newest: &mut (u64, u32),
) -> (times: Ghost<Seq<(u64, u32)>>)
    requires
        forall|p: String|
            may_be_asked(*stat, path@, text::string_views(old(above)@), p@)
                ==> #[trigger] call_requires(*stat, (p,)),
    ensures
        file_timed(*stat, path@, text::string_views(old(above)@), times@),
        final(above)@ == old(above)@,
        *final(newest) == if later(latest(times@), *old(newest)) {
            latest(times@)
        } else {
            *old(newest)
        },
    decreases usize::MAX - old(above)@.len(),
{
    let ghost start = *newest;
    let ghost held = above@;
    let ghost ids = text::string_views(held);
    let p = path.to_owned();
    let ghost asked = p;
    let answer = stat(p);
    let ghost full = answer;
    assert(stat_made(*stat, path@, full)) by {
        assert(call_ensures(*stat, (asked,), full));
    }
    let s = match answer {
        Some(s) => s,
        None => {
            return Ghost(Seq::empty());
        },
    };
    let ghost own = own_time(s);
    if let Some(t) = s.modified {
        assert(own.drop_last() =~= Seq::empty());
        assert(latest(own.drop_last()) == (0u64, 0u32));
        assert(own.last() == t);
        if t.0 > newest.0 || (t.0 == newest.0 && t.1 > newest.1) {
            *newest = t;
        }
    }
    let ghost mut rest: Seq<(u64, u32)> = Seq::empty();
    assert(own + rest =~= own);
    let id = match &s.identity {
        Some(id) => copy_text(id),
        None => path.to_owned(),
    };
    let ghost name = id@;
    if above.len() < usize::MAX && !is_among(above, &id) {
        above.push(id);
        let ghost inside = above@;
        assert(text::string_views(inside) =~= ids.push(name));
        let n: usize = s.entries.len();
        assert(s.entries@.take(0) =~= Seq::empty());
        for i in 0..n
            invariant
                n == s.entries.len(),
                held == old(above)@,
                held.len() < usize::MAX,
                above@ == inside,
                inside.len() == held.len() + 1,
                text::string_views(inside) == ids.push(name),
                stat_made(*stat, path@, Some(s)),
                name == known_as(s, path@),
                gone_into(ids, name),
                forall|p: String|
                    may_be_asked(*stat, path@, ids, p@) ==> #[trigger] call_requires(*stat, (p,)),
                entries_timed(*stat, s.entries@.take(i as int), ids.push(name), rest),
                *newest == if later(latest(own + rest), start) {
                    latest(own + rest)
                } else {
                    start
                },
        {
            assert(s.entries@.take(i + 1).drop_last() =~= s.entries@.take(i as int));
            assert forall|p: String|
                may_be_asked(
                    *stat,
                    s.entries@[i as int]@,
                    ids.push(name),
                    p@,
                ) implies #[trigger] call_requires(*stat, (p,)) by {
                assert(may_be_asked(*stat, path@, ids, p@));
            }
            let more = bundle_mtime_recursive(s.entries[i].as_str(), above, stat, newest);
            proof {
                let before = rest;
                rest = before + more@;
                assert(times_concat(rest, before, more@));
                lemma_latest_concat(own + before, more@);
                assert(own + rest =~= own + before + more@);
            }
        }
        assert(s.entries@.take(n as int) =~= s.entries@);
        above.pop();
        assert(above@ =~= held);
    }
    assert(times_concat(own + rest, own, rest));
    Ghost(own + rest)
}

/// The time of a bundle: the latest of all files in it.
pub fn bundle_mtime<T: Fn(String) -> Option<FileStat>>(path: &str, stat: &T) -> (r: (u64, u32))
    requires
        forall|p: String|
            may_be_asked(*stat, path@, Seq::empty(), p@) ==> #[trigger] call_requires(*stat, (p,)),
    ensures
        bundle_timed(*stat, path@, r),
{
    let mut newest: (u64, u32) = (0, 0);
    let mut above: Vec<String> = Vec::new();
    assert(text::string_views(above@) =~= Seq::empty());
    let times = bundle_mtime_recursive(path, &mut above, stat, &mut newest);
    assert(newest == latest(times@));
    newest
}

/// The latest of several times is one of them, and none of them is later.
pub proof fn law_latest_is_greatest(times: Seq<(u64, u32)>)
    requires
        times.len() > 0,
    ensures
        forall|i: int| 0 <= i < times.len() ==> !later(#[trigger] times[i], latest(times)),
        times.contains(latest(times)) || latest(times) == (0u64, 0u32),
    decreases times.len(),
{
    let rest = times.drop_last();
    if rest.len() > 0 {
        law_latest_is_greatest(rest);
    } else {
        assert(latest(rest) == (0u64, 0u32));
    }
    assert forall|i: int| 0 <= i < times.len() implies !later(
        #[trigger] times[i],
        latest(times),
    ) by {
        if i < rest.len() {
            assert(rest[i] == times[i]);
        }
    }
    if rest.contains(latest(times)) {
        let i = choose|i: int| 0 <= i < rest.len() && rest[i] == latest(times);
        assert(times[i] == latest(times));
    } else if latest(times) == times.last() {
        assert(times[times.len() - 1] == latest(times));
    }
}

// ---------------------------------------------------------------------------
// What is in a bundle
// ---------------------------------------------------------------------------

/// The paths of the entries of a directory.
pub open spec fn entry_paths(stat: FileStat) -> Seq<Seq<char>> {
    text::string_views(stat.entries@)
}

/// Whether two answers say the same of a file. The entries of a directory come
/// in any order.
pub open spec fn same_stat(path: Seq<char>, a: Option<FileStat>, b: Option<FileStat>) -> bool {
    match (a, b) {
        (Some(x), Some(y)) => {
            &&& x.modified == y.modified
            &&& known_as(x, path) == known_as(y, path)
            &&& forall|e: Seq<char>|
                entry_paths(x).contains(e) <==> #[trigger] entry_paths(y).contains(e)
        },
        (None, None) => true,
        _ => false,
    }
}

/// Whether `stat` says the same whenever it is asked for the same path.
pub open spec fn stats_alike<T: Fn(String) -> Option<FileStat>>(stat: T) -> bool {
    forall|p: Seq<char>, a: Option<FileStat>, b: Option<FileStat>| #[trigger]
        stat_made(stat, p, a) && #[trigger] stat_made(stat, p, b) ==> same_stat(p, a, b)
}

/// Whether a path has a time.
pub open spec fn has_time<T: Fn(String) -> Option<FileStat>>(
    stat: T,
    path: Seq<char>,
    time: (u64, u32),
) -> bool {
    exists|s: FileStat| #[trigger] stat_made(stat, path, Some(s)) && s.modified == Some(time)
}

/// Whether `way` leads from `path` into directories to a file with a time, and
/// never into a directory that is in `above` or that it came through before.
pub open spec fn reaches<T: Fn(String) -> Option<FileStat>>(
    stat: T,
    path: Seq<char>,
    above: Seq<Seq<char>>,
    way: Seq<Seq<char>>,
    time: (u64, u32),
) -> bool
    decreases way.len(),
{
    if way.len() == 0 {
        has_time(stat, path, time)
    } else {
        exists|s: FileStat| #[trigger]
            stat_made(stat, path, Some(s)) && !above.contains(known_as(s, path)) && entry_paths(
                s,
            ).contains(way[0]) && reaches(
                stat,
                way[0],
                above.push(known_as(s, path)),
                way.skip(1),
                time,
            )
    }
}

/// A walk comes by every file that a way leads to.
proof fn lemma_walk_meets<T: Fn(String) -> Option<FileStat>>(
    stat: T,
    path: Seq<char>,
    above: Seq<Seq<char>>,
    times: Seq<(u64, u32)>,
    way: Seq<Seq<char>>,
    time: (u64, u32),
)
    requires
        stats_alike(stat),
        file_timed(stat, path, above, times),
        reaches(stat, path, above, way, time),
        above.len() + way.len() <= usize::MAX,
    ensures
        times.contains(time),
    decreases way.len(), 0nat,
{
    let answer = choose|answer: Option<FileStat>| #[trigger]
        stat_made(stat, path, answer) && (match answer {
            Some(s) => exists|rest: Seq<(u64, u32)>| #[trigger]
                times_concat(times, own_time(s), rest) && (if gone_into(
                    above,
                    known_as(s, path),
                ) {
                    entries_timed(stat, s.entries@, above.push(known_as(s, path)), rest)
                } else {
                    rest.len() == 0
                }),
            None => times.len() == 0,
        });
    if way.len() == 0 {
        let s = choose|s: FileStat| #[trigger]
            stat_made(stat, path, Some(s)) && s.modified == Some(time);
        assert(same_stat(path, answer, Some(s)));
        let own = own_time(answer->Some_0);
        let rest = choose|rest: Seq<(u64, u32)>| #[trigger] times_concat(times, own, rest);
        assert(own[0] == time);
        assert(times[0] == time);
    } else {
        let s = choose|s: FileStat| #[trigger]
            stat_made(stat, path, Some(s)) && !above.contains(known_as(s, path)) && entry_paths(
                s,
            ).contains(way[0]) && reaches(
                stat,
                way[0],
                above.push(known_as(s, path)),
                way.skip(1),
                time,
            );
        assert(same_stat(path, answer, Some(s)));
        let t = answer->Some_0;
        let inside = above.push(known_as(t, path));
        let rest = choose|rest: Seq<(u64, u32)>| #[trigger]
            times_concat(times, own_time(t), rest) && entries_timed(
                stat,
                t.entries@,
                inside,
                rest,
            );
        assert(entry_paths(t).contains(way[0]));
        let i = choose|i: int| 0 <= i < entry_paths(t).len() && entry_paths(t)[i] == way[0];
        lemma_entries_meet(stat, t.entries@, inside, rest, i, way.skip(1), time);
        let k = choose|k: int| 0 <= k < rest.len() && rest[k] == time;
        assert(times[own_time(t).len() + k] == time);
    }
}

proof fn lemma_entries_meet<T: Fn(String) -> Option<FileStat>>(
    stat: T,
    entries: Seq<String>,
    above: Seq<Seq<char>>,
    times: Seq<(u64, u32)>,
    i: int,
    way: Seq<Seq<char>>,
    time: (u64, u32),
)
    requires
        stats_alike(stat),
        entries_timed(stat, entries, above, times),
        0 <= i < entries.len(),
        reaches(stat, entries[i]@, above, way, time),
        above.len() + way.len() <= usize::MAX,
    ensures
        times.contains(time),
    decreases way.len(), entries.len(),
{
    let (a, b) = choose|a: Seq<(u64, u32)>, b: Seq<(u64, u32)>| #[trigger]
        times_concat(times, a, b) && entries_timed(stat, entries.drop_last(), above, a)
            && file_timed(stat, entries.last()@, above, b);
    if i < entries.len() - 1 {
        lemma_entries_meet(stat, entries.drop_last(), above, a, i, way, time);
        let k = choose|k: int| 0 <= k < a.len() && a[k] == time;
        assert(times[k] == time);
    } else {
        lemma_walk_meets(stat, entries.last()@, above, b, way, time);
        let k = choose|k: int| 0 <= k < b.len() && b[k] == time;
        assert(times[a.len() + k] == time);
    }
}

/// A walk comes by no file but those that a way leads to.
proof fn lemma_walk_is_led<T: Fn(String) -> Option<FileStat>>(
    stat: T,
    path: Seq<char>,
    above: Seq<Seq<char>>,
    times: Seq<(u64, u32)>,
    time: (u64, u32),
) -> (way: Seq<Seq<char>>)
    requires
        file_timed(stat, path, above, times),
        times.contains(time),
        above.len() <= usize::MAX,
    ensures
        reaches(stat, path, above, way, time),
        above.len() + way.len() <= usize::MAX,
    decreases usize::MAX - above.len(), 0nat,
{
    let answer = choose|answer: Option<FileStat>| #[trigger]
        stat_made(stat, path, answer) && (match answer {
            Some(s) => exists|rest: Seq<(u64, u32)>| #[trigger]
                times_concat(times, own_time(s), rest) && (if gone_into(
                    above,
                    known_as(s, path),
                ) {
                    entries_timed(stat, s.entries@, above.push(known_as(s, path)), rest)
                } else {
                    rest.len() == 0
                }),
            None => times.len() == 0,
        });
    let s = answer->Some_0;
    assert(answer == Some(s));
    let own = own_time(s);
    let inside = above.push(known_as(s, path));
    let rest = choose|rest: Seq<(u64, u32)>| #[trigger]
        times_concat(times, own, rest) && (if gone_into(above, known_as(s, path)) {
            entries_timed(stat, s.entries@, inside, rest)
        } else {
            rest.len() == 0
        });
    let k = choose|k: int| 0 <= k < times.len() && times[k] == time;
    if k < own.len() {
        assert(own[k] == time);
        assert(s.modified == Some(time));
        Seq::empty()
    } else {
        assert(rest[k - own.len()] == time);
        let (first, onward) = lemma_entries_are_led(stat, s.entries@, inside, rest, time);
        let way = seq![first] + onward;
        assert(way.skip(1) =~= onward);
        assert(entry_paths(s).contains(way[0]));
        way
    }
}

proof fn lemma_entries_are_led<T: Fn(String) -> Option<FileStat>>(
    stat: T,
    entries: Seq<String>,
    above: Seq<Seq<char>>,
    times: Seq<(u64, u32)>,
    time: (u64, u32),
) -> (r: (Seq<char>, Seq<Seq<char>>))
    requires
        entries_timed(stat, entries, above, times),
        times.contains(time),
        above.len() <= usize::MAX,
    ensures
        text::string_views(entries).contains(r.0),
        reaches(stat, r.0, above, r.1, time),
        above.len() + r.1.len() <= usize::MAX,
    decreases usize::MAX - above.len(), entries.len(),
{
    let (a, b) = choose|a: Seq<(u64, u32)>, b: Seq<(u64, u32)>| #[trigger]
        times_concat(times, a, b) && entries_timed(stat, entries.drop_last(), above, a)
            && file_timed(stat, entries.last()@, above, b);
    let k = choose|k: int| 0 <= k < times.len() && times[k] == time;
    let all = text::string_views(entries);
    if k < a.len() {
        assert(a[k] == time);
        let r = lemma_entries_are_led(stat, entries.drop_last(), above, a, time);
        let some = text::string_views(entries.drop_last());
        let i = choose|i: int| 0 <= i < some.len() && some[i] == r.0;
        assert(all[i] == r.0);
        r
    } else {
        assert(b[k - a.len()] == time);
        let way = lemma_walk_is_led(stat, entries.last()@, above, b, time);
        assert(all[entries.len() - 1] == entries.last()@);
        (entries.last()@, way)
    }
}

/// The time of a bundle is that of a file in it, or the epoch where no file
/// has one, and no file that is reached is later.
pub proof fn law_bundle_time_is_latest<T: Fn(String) -> Option<FileStat>>(
    stat: T,
    path: Seq<char>,
    time: (u64, u32),
)
    requires
        stats_alike(stat),
        bundle_timed(stat, path, time),
    ensures
        forall|way: Seq<Seq<char>>, t: (u64, u32)|
            way.len() <= usize::MAX && #[trigger] reaches(stat, path, Seq::empty(), way, t)
                ==> !later(t, time),
        time == (0u64, 0u32) || exists|way: Seq<Seq<char>>|
            way.len() <= usize::MAX && #[trigger] reaches(stat, path, Seq::empty(), way, time),
{
    let times = choose|times: Seq<(u64, u32)>| #[trigger]
        file_timed(stat, path, Seq::empty(), times) && time == latest(times);
    if times.len() > 0 {
        law_latest_is_greatest(times);
    }
    assert forall|way: Seq<Seq<char>>, t: (u64, u32)|
        way.len() <= usize::MAX && #[trigger] reaches(
            stat,
            path,
            Seq::empty(),
            way,
            t,
        ) implies !later(t, time) by {
        lemma_walk_meets(stat, path, Seq::empty(), times, way, t);
        let k = choose|k: int| 0 <= k < times.len() && times[k] == t;
        assert(!later(times[k], latest(times)));
    }
    if time != (0u64, 0u32) {
        let way = lemma_walk_is_led(stat, path, Seq::empty(), times, time);
        assert(reaches(stat, path, Seq::empty(), way, time));
    }
}

/// A bundle that stays as it is has the same time each time.
pub proof fn law_bundle_time_is_repeatable<T: Fn(String) -> Option<FileStat>>(
    stat: T,
    path: Seq<char>,
    one: (u64, u32),
    two: (u64, u32),
)
    requires
        stats_alike(stat),
        bundle_timed(stat, path, one),
        bundle_timed(stat, path, two),
    ensures
        one == two,
{
    law_bundle_time_is_latest(stat, path, one);
    law_bundle_time_is_latest(stat, path, two);
    assert(!later(one, two));
    assert(!later(two, one));
}

// ---------------------------------------------------------------------------
// Links
// ---------------------------------------------------------------------------

/// Whether each path is that of an entry of the one before it, through links
/// or not.
pub open spec fn leads_inside<T: Fn(String) -> Option<FileStat>>(
    stat: T,
    chain: Seq<Seq<char>>,
) -> bool {
    forall|i: int|
        0 <= i < chain.len() - 1 ==> #[trigger] holds_entry(stat, chain[i], chain[i + 1])
}

/// Whether a directory has an entry with the path `entry`.
pub open spec fn holds_entry<T: Fn(String) -> Option<FileStat>>(
    stat: T,
    dir: Seq<char>,
    entry: Seq<char>,
) -> bool {
    exists|s: FileStat| #[trigger] stat_made(stat, dir, Some(s)) && entry_paths(s).contains(entry)
}

/// Whether `stat` says anything of a path.
pub open spec fn is_answered<T: Fn(String) -> Option<FileStat>>(stat: T, path: Seq<char>) -> bool {
    exists|a: Option<FileStat>| stat_made(stat, path, a)
}

/// Whether one of the paths leads to the same file as `path`.
pub open spec fn has_twin(
    file: spec_fn(Seq<char>) -> int,
    all: Seq<Seq<char>>,
    path: Seq<char>,
) -> bool {
    exists|f: Seq<char>| #[trigger] all.contains(f) && file(f) == file(path)
}

/// Whether two answers are those for one file: the same time, and entries that
/// are the same files.
pub open spec fn same_file(
    file: spec_fn(Seq<char>) -> int,
    a: Option<FileStat>,
    b: Option<FileStat>,
) -> bool {
    match (a, b) {
        (Some(x), Some(y)) => {
            &&& x.modified == y.modified
            &&& forall|e: Seq<char>| #[trigger]
                entry_paths(x).contains(e) ==> has_twin(file, entry_paths(y), e)
        },
        (None, None) => true,
        _ => false,
    }
}

/// Whether `file` tells to which file each path leads: `stat` answers for every
/// path, it says the same of paths to one file, and directories that are known
/// by the same name are one file.
#[verifier::opaque]
pub open spec fn tells_files<T: Fn(String) -> Option<FileStat>>(
    stat: T,
    file: spec_fn(Seq<char>) -> int,
) -> bool {
    &&& forall|p: Seq<char>| #[trigger] is_answered(stat, p)
    &&& forall|p: Seq<char>, q: Seq<char>, a: Option<FileStat>, b: Option<FileStat>|
        file(p) == file(q) && #[trigger] stat_made(stat, p, a) && #[trigger] stat_made(stat, q, b)
            ==> same_file(file, a, b)
    &&& forall|p: Seq<char>, q: Seq<char>, x: FileStat, y: FileStat| #[trigger]
        stat_made(stat, p, Some(x)) && #[trigger] stat_made(stat, q, Some(y)) && known_as(x, p)
            == known_as(y, q) ==> file(p) == file(q)
}

/// What the directory at a path is known by.
spec fn name_of<T: Fn(String) -> Option<FileStat>>(stat: T, path: Seq<char>) -> Seq<char> {
    known_as(choose|s: FileStat| stat_made(stat, path, Some(s)), path)
}

/// What the first directories of a chain are known by.
spec fn names_of<T: Fn(String) -> Option<FileStat>>(
    stat: T,
    chain: Seq<Seq<char>>,
    n: int,
) -> Seq<Seq<char>> {
    Seq::new(n as nat, |i: int| name_of(stat, chain[i]))
}

proof fn lemma_name_of<T: Fn(String) -> Option<FileStat>>(stat: T, path: Seq<char>, s: FileStat)
    requires
        stats_alike(stat),
        stat_made(stat, path, Some(s)),
    ensures
        name_of(stat, path) == known_as(s, path),
{
    let t = choose|t: FileStat| stat_made(stat, path, Some(t));
    assert(same_stat(path, Some(s), Some(t)));
}

/// A chain that comes into no directory twice is a way.
proof fn lemma_chain_is_way<T: Fn(String) -> Option<FileStat>>(
    stat: T,
    chain: Seq<Seq<char>>,
    k: int,
    time: (u64, u32),
)
    requires
        stats_alike(stat),
        leads_inside(stat, chain),
        0 <= k < chain.len(),
        has_time(stat, chain.last(), time),
        forall|i: int, j: int|
            0 <= i < j < chain.len() - 1 ==> name_of(stat, #[trigger] chain[i]) != name_of(
                stat,
                #[trigger] chain[j],
            ),
    ensures
        reaches(stat, chain[k], names_of(stat, chain, k), chain.skip(k + 1), time),
    decreases chain.len() - k,
{
    let way = chain.skip(k + 1);
    if k < chain.len() - 1 {
        lemma_chain_is_way(stat, chain, k + 1, time);
        assert(holds_entry(stat, chain[k], chain[k + 1]));
        let s = choose|s: FileStat| #[trigger]
            stat_made(stat, chain[k], Some(s)) && entry_paths(s).contains(chain[k + 1]);
        lemma_name_of(stat, chain[k], s);
        let above = names_of(stat, chain, k);
        let id = known_as(s, chain[k]);
        if above.contains(id) {
            let i = choose|i: int| 0 <= i < above.len() && above[i] == id;
            assert(name_of(stat, chain[i]) != name_of(stat, chain[k]));
        }
        assert(above.push(id) =~= names_of(stat, chain, k + 1));
        assert(way[0] == chain[k + 1]);
        assert(way.skip(1) =~= chain.skip(k + 2));
    }
}

/// A directory has the same files as entries on whatever path it is reached.
proof fn lemma_entry_twin<T: Fn(String) -> Option<FileStat>>(
    stat: T,
    file: spec_fn(Seq<char>) -> int,
    p: Seq<char>,
    q: Seq<char>,
    entry: Seq<char>,
) -> (twin: Seq<char>)
    requires
        tells_files(stat, file),
        file(p) == file(q),
        holds_entry(stat, p, entry),
    ensures
        holds_entry(stat, q, twin),
        file(twin) == file(entry),
{
    let s = choose|s: FileStat| #[trigger]
        stat_made(stat, p, Some(s)) && entry_paths(s).contains(entry);
    assert(is_answered(stat, q)) by {
        reveal(tells_files);
    }
    let a = choose|a: Option<FileStat>| stat_made(stat, q, a);
    assert(same_file(file, Some(s), a)) by {
        reveal(tells_files);
    }
    let t = a->Some_0;
    assert(stat_made(stat, q, Some(t)));
    assert(has_twin(file, entry_paths(t), entry));
    choose|f: Seq<char>| #[trigger] entry_paths(t).contains(f) && file(f) == file(entry)
}

/// A file has the same time on whatever path it is reached.
proof fn lemma_time_of_twin<T: Fn(String) -> Option<FileStat>>(
    stat: T,
    file: spec_fn(Seq<char>) -> int,
    p: Seq<char>,
    q: Seq<char>,
    time: (u64, u32),
)
    requires
        tells_files(stat, file),
        file(p) == file(q),
        has_time(stat, p, time),
    ensures
        has_time(stat, q, time),
{
    reveal(tells_files);
    let s = choose|s: FileStat| #[trigger]
        stat_made(stat, p, Some(s)) && s.modified == Some(time);
    assert(is_answered(stat, q));
    let a = choose|a: Option<FileStat>| stat_made(stat, q, a);
    assert(same_file(file, Some(s), a));
    assert(stat_made(stat, q, Some(a->Some_0)));
}

/// Directories that are known by the same name are one file.
proof fn lemma_same_name<T: Fn(String) -> Option<FileStat>>(
    stat: T,
    file: spec_fn(Seq<char>) -> int,
    p: Seq<char>,
    q: Seq<char>,
    a: Seq<char>,
    b: Seq<char>,
)
    requires
        stats_alike(stat),
        tells_files(stat, file),
        holds_entry(stat, p, a),
        holds_entry(stat, q, b),
        name_of(stat, p) == name_of(stat, q),
    ensures
        file(p) == file(q),
{
    reveal(tells_files);
    let x = choose|s: FileStat| #[trigger]
        stat_made(stat, p, Some(s)) && entry_paths(s).contains(a);
    let y = choose|s: FileStat| #[trigger]
        stat_made(stat, q, Some(s)) && entry_paths(s).contains(b);
    lemma_name_of(stat, p, x);
    lemma_name_of(stat, q, y);
}

/// From another path to the same file a chain leads on to the same files.
proof fn lemma_chain_from_twin<T: Fn(String) -> Option<FileStat>>(
    stat: T,
    file: spec_fn(Seq<char>) -> int,
    chain: Seq<Seq<char>>,
    start: Seq<char>,
) -> (twin: Seq<Seq<char>>)
    requires
        tells_files(stat, file),
        chain.len() > 0,
        leads_inside(stat, chain),
        file(start) == file(chain[0]),
    ensures
        twin.len() == chain.len(),
        twin[0] == start,
        leads_inside(stat, twin),
        file(twin.last()) == file(chain.last()),
    decreases chain.len(),
{
    if chain.len() == 1 {
        seq![start]
    } else {
        assert(holds_entry(stat, chain[0], chain[0int + 1]));
        let next = lemma_entry_twin(stat, file, chain[0], start, chain[1]);
        let onward = chain.skip(1);
        assert forall|i: int| 0 <= i < onward.len() - 1 implies #[trigger] holds_entry(
            stat,
            onward[i],
            onward[i + 1],
        ) by {
            assert(holds_entry(stat, chain[i + 1], chain[(i + 1) + 1]));
        }
        let rest = lemma_chain_from_twin(stat, file, onward, next);
        let twin = seq![start] + rest;
        assert forall|i: int| 0 <= i < twin.len() - 1 implies #[trigger] holds_entry(
            stat,
            twin[i],
            twin[i + 1],
        ) by {
            if i > 0 {
                assert(holds_entry(stat, rest[i - 1], rest[(i - 1) + 1]));
            }
        }
        assert(twin.last() == rest.last());
        assert(onward.last() == chain.last());
        twin
    }
}

/// What a chain through links leads to is also reached without coming into a
/// directory twice.
proof fn lemma_way_without_loops<T: Fn(String) -> Option<FileStat>>(
    stat: T,
    file: spec_fn(Seq<char>) -> int,
    chain: Seq<Seq<char>>,
    time: (u64, u32),
) -> (way: Seq<Seq<char>>)
    requires
        stats_alike(stat),
        tells_files(stat, file),
        chain.len() > 0,
        leads_inside(stat, chain),
        has_time(stat, chain.last(), time),
    ensures
        way.len() < chain.len(),
        reaches(stat, chain[0], Seq::empty(), way, time),
    decreases chain.len(),
{
    if forall|i: int, j: int|
        0 <= i < j < chain.len() - 1 ==> name_of(stat, #[trigger] chain[i]) != name_of(
            stat,
            #[trigger] chain[j],
        ) {
        lemma_chain_is_way(stat, chain, 0, time);
        assert(names_of(stat, chain, 0) =~= Seq::empty());
        chain.skip(1)
    } else {
        let (i, j) = choose|i: int, j: int|
            0 <= i < j < chain.len() - 1 && name_of(stat, #[trigger] chain[i]) == name_of(
                stat,
                #[trigger] chain[j],
            );
        assert(holds_entry(stat, chain[i], chain[i + 1]));
        assert(holds_entry(stat, chain[j], chain[j + 1]));
        lemma_same_name(stat, file, chain[i], chain[j], chain[i + 1], chain[j + 1]);
        let tail = chain.skip(j);
        assert forall|k: int| 0 <= k < tail.len() - 1 implies #[trigger] holds_entry(
            stat,
            tail[k],
            tail[k + 1],
        ) by {
            assert(holds_entry(stat, chain[j + k], chain[(j + k) + 1]));
        }
        let twin = lemma_chain_from_twin(stat, file, tail, chain[i]);
        let short = chain.take(i) + twin;
        assert forall|k: int| 0 <= k < short.len() - 1 implies #[trigger] holds_entry(
            stat,
            short[k],
            short[k + 1],
        ) by {
            if k < i {
                assert(holds_entry(stat, chain[k], chain[k + 1]));
                if k + 1 == i {
                    assert(short[k + 1] == twin[0]);
                }
            } else {
                assert(holds_entry(stat, twin[k - i], twin[(k - i) + 1]));
            }
        }
        assert(tail.last() == chain.last());
        assert(short.last() == twin.last());
        lemma_time_of_twin(stat, file, chain.last(), short.last(), time);
        if i == 0 {
            assert(short[0] == twin[0]);
        }
        lemma_way_without_loops(stat, file, short, time)
    }
}

/// No file in a bundle is later than the bundle, however deep it is and
/// whatever links lead to it, round in a loop or not.
pub proof fn law_every_file_in_a_bundle_counts<T: Fn(String) -> Option<FileStat>>(
    stat: T,
    file: spec_fn(Seq<char>) -> int,
    chain: Seq<Seq<char>>,
    t: (u64, u32),
    time: (u64, u32),
)
    requires
        stats_alike(stat),
        tells_files(stat, file),
        0 < chain.len() <= usize::MAX,
        leads_inside(stat, chain),
        has_time(stat, chain.last(), t),
        bundle_timed(stat, chain[0], time),
    ensures
        !later(t, time),
{
    let way = lemma_way_without_loops(stat, file, chain, t);
    law_bundle_time_is_latest(stat, chain[0], time);
}

/// A directory that is met again inside itself, whatever it is called there, counts with
/// its own time and is not entered again. One that is met for the first time counts with
/// its own time and those of its entries.
pub proof fn law_directory_is_entered_once<T: Fn(String) -> Option<FileStat>>(
    stat: T,
    path: Seq<char>,
    s: FileStat,
    id: String,
    above: Seq<Seq<char>>,
    times: Seq<(u64, u32)>,
)
    requires
        forall|answer: Option<FileStat>| #[trigger]
            stat_made(stat, path, answer) ==> answer == Some(s),
        s.identity == Some(id),
        above.len() < usize::MAX,
        file_timed(stat, path, above, times),
    ensures
        above.contains(id@) ==> times == match s.modified {
            Some(t) => seq![t],
            None => Seq::empty(),
        },
        !above.contains(id@) ==> exists|rest: Seq<(u64, u32)>| #[trigger]
            entries_timed(stat, s.entries@, above.push(id@), rest) && times == (match s.modified {
                Some(t) => seq![t],
                None => Seq::empty(),
            }) + rest,
{
    let answer = choose|answer: Option<FileStat>| #[trigger]
        stat_made(stat, path, answer) && (match answer {
            Some(s) => exists|rest: Seq<(u64, u32)>| #[trigger]
                times_concat(times, own_time(s), rest) && (if gone_into(
                    above,
                    known_as(s, path),
                ) {
                    entries_timed(stat, s.entries@, above.push(known_as(s, path)), rest)
                } else {
                    rest.len() == 0
                }),
            None => times.len() == 0,
        });
    assert(answer == Some(s));
    let rest = choose|rest: Seq<(u64, u32)>| #[trigger]
        times_concat(times, own_time(s), rest) && (if gone_into(above, known_as(s, path)) {
            entries_timed(stat, s.entries@, above.push(known_as(s, path)), rest)
        } else {
            rest.len() == 0
        });
    if above.contains(id@) {
        assert(times =~= own_time(s));
    }
}

} // verus!
