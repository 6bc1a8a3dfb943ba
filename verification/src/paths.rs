//! File paths as text: how they are joined, when two name the same file, and
//! what extension they have.
//!
//! A path is made of parts between slashes, and starts at the root where it
//! begins with one. A path as a system writes it comes in through `slash_form`
//! and goes out through `native_form`. In between, a drive letter is a part like
//! any other.

use vstd::prelude::*;

use crate::sfz::lexer;
use crate::sfz::lexer::lower;
use crate::text;
use crate::text::{
    append_chars, chars_between, chars_of, copy_chars, replace_char, same_chars,
    spells, split_at_char, text_of,
};

verus! {

/// A family of systems with its own way of writing paths.
#[derive(Debug, Clone, Copy, PartialEq, Eq, Structural)]
pub enum Platform {
    MacOs,
    Windows,
    Unix,
}

/// A path with slashes between its parts. Only Windows also takes a backslash
/// for a separator; elsewhere it is a character like any other.
pub open spec fn slash_text(path: Seq<char>, platform: Platform) -> Seq<char> {
    if platform == Platform::Windows {
        text::replaced(path, '\\', '/')
    } else {
        path
    }
}

/// Writes a path with slashes between its parts.
pub fn slash_form(path: &str, platform: Platform) -> (r: String)
    ensures
        r@ == slash_text(path@, platform),
{
    let cs = chars_of(path);
    if platform == Platform::Windows {
        text_of(&replace_char(&cs, '\\', '/'))
    } else {
        text_of(&cs)
    }
}

/// The slash form is a slash form already, and on Windows it holds no
/// backslash.
pub proof fn law_slash_form_is_kept(path: Seq<char>, platform: Platform)
    ensures
        slash_text(slash_text(path, platform), platform) == slash_text(path, platform),
        platform == Platform::Windows ==> !slash_text(path, platform).contains('\\'),
{
    let once = slash_text(path, platform);
    assert(slash_text(once, platform) =~= once);
    if platform == Platform::Windows && once.contains('\\') {
        let i = choose|i: int| 0 <= i < once.len() && once[i] == '\\';
        assert(once[i] == if path[i] == '\\' {
            '/'
        } else {
            path[i]
        });
    }
}

/// Whether a path starts at the root.
pub open spec fn is_absolute(path: Seq<char>) -> bool {
    path.len() > 0 && path[0] == '/'
}

/// A path taken from a directory.
pub open spec fn path_joined(dir: Seq<char>, path: Seq<char>) -> Seq<char> {
    if is_absolute(path) {
        path
    } else if dir.len() > 0 && dir.last() != '/' {
        dir + "/"@ + path
    } else {
        dir + path
    }
}

/// A path taken from a directory.
pub fn join_path(dir: &Vec<char>, path: &Vec<char>) -> (r: Vec<char>)
    ensures
        r@ == path_joined(dir@, path@),
{
    if path.len() > 0 && path[0] == '/' {
        return copy_chars(path);
    }
    let mut out = copy_chars(dir);
    if dir.len() > 0 && dir[dir.len() - 1] != '/' {
        out.push('/');
        proof {
            reveal_strlit("/");
            assert(out@ =~= dir@ + "/"@);
        }
    }
    append_chars(&mut out, path);
    out
}

// ---------------------------------------------------------------------------
// Drives
// ---------------------------------------------------------------------------

/// Whether the part of a path that begins at `i` is a drive: a letter and a
/// colon.
pub open spec fn drive_at(path: Seq<char>, i: int) -> bool {
    &&& 0 <= i
    &&& i + 2 <= path.len()
    &&& i == 0 || path[i - 1] == '/'
    &&& ('a' <= path[i] && path[i] <= 'z') || ('A' <= path[i] && path[i] <= 'Z')
    &&& path[i + 1] == ':'
    &&& i + 2 == path.len() || path[i + 2] == '/'
}

/// Where the last drive among the first `n` characters begins; 0 where there is
/// none.
pub open spec fn last_drive(path: Seq<char>, n: int) -> int
    decreases n,
{
    if n <= 0 {
        0
    } else if drive_at(path, n - 1) {
        n - 1
    } else {
        last_drive(path, n - 1)
    }
}

/// A path as the system takes it. On Windows no directory can have the name of a
/// drive, so a path starts anew at its last drive.
pub open spec fn native_text(path: Seq<char>, platform: Platform) -> Seq<char> {
    if platform == Platform::Windows {
        path.skip(last_drive(path, path.len() as int))
    } else {
        path
    }
}

/// Writes a path as the system takes it.
pub fn native_form(path: &str, platform: Platform) -> (r: String)
    ensures
        r@ == native_text(path@, platform),
{
    let cs = chars_of(path);
    let n: usize = cs.len();
    let mut from: usize = 0;
    if platform == Platform::Windows {
        for i in 0..n
            invariant
                n == cs.len(),
                from <= i,
                from == last_drive(cs@, i as int),
        {
            let starts = i == 0 || cs[i - 1] == '/';
            if starts && n - i >= 2 && cs[i + 1] == ':' && (n - i == 2 || cs[i + 2] == '/') {
                let c = cs[i];
                if ('a' <= c && c <= 'z') || ('A' <= c && c <= 'Z') {
                    from = i;
                }
            }
        }
    }
    assert(cs@.subrange(from as int, n as int) =~= cs@.skip(from as int));
    assert(cs@.skip(0) =~= cs@);
    text_of(&chars_between(&cs, from, n))
}

proof fn lemma_last_drive_bounds(path: Seq<char>, n: int)
    requires
        0 <= n <= path.len(),
    ensures
        0 <= last_drive(path, n) <= n,
    decreases n,
{
    if n > 0 {
        lemma_last_drive_bounds(path, n - 1);
    }
}

proof fn lemma_last_drive_behind(a: Seq<char>, b: Seq<char>, n: int)
    requires
        a.len() == 0 || a.last() == '/',
        drive_at(b, 0),
        0 < n <= b.len(),
    ensures
        last_drive(a + b, a.len() + n) == a.len() + last_drive(b, n),
    decreases n,
{
    let all = a + b;
    let i = n - 1;
    assert(all[a.len() + i] == b[i]);
    if i > 0 {
        assert(all[a.len() + i - 1] == b[i - 1]);
    } else if a.len() > 0 {
        assert(all[a.len() - 1] == a.last());
    }
    if i + 1 < b.len() {
        assert(all[a.len() + i + 1] == b[i + 1]);
    }
    if i + 2 < b.len() {
        assert(all[a.len() + i + 2] == b[i + 2]);
    }
    assert(drive_at(all, a.len() + i) == drive_at(b, i));
    if n > 1 {
        lemma_last_drive_behind(a, b, n - 1);
    }
}

/// On Windows a path with a drive of its own is the same from whatever
/// directory it is taken.
pub proof fn law_drive_starts_anew(dir: Seq<char>, path: Seq<char>)
    requires
        drive_at(path, 0),
    ensures
        native_text(path_joined(dir, path), Platform::Windows) == native_text(
            path,
            Platform::Windows,
        ),
{
    reveal_strlit("/");
    let n = path.len() as int;
    let front = if dir.len() > 0 && dir.last() != '/' {
        dir + "/"@
    } else {
        dir
    };
    let all = path_joined(dir, path);
    assert(!is_absolute(path));
    assert(all =~= front + path);
    lemma_last_drive_behind(front, path, n);
    lemma_last_drive_bounds(path, n);
    assert(all.skip(front.len() + last_drive(path, n)) =~= path.skip(last_drive(path, n)));
}

// ---------------------------------------------------------------------------
// Parts
// ---------------------------------------------------------------------------

/// Whether the piece at index `i` counts as a part: empty pieces do not, nor
/// does a single dot, but for one that a path begins with.
pub open spec fn is_part(piece: Seq<char>, i: int) -> bool {
    piece.len() > 0 && (piece != "."@ || i == 0)
}

/// The parts among pieces.
pub open spec fn parts_of(pieces: Seq<Seq<char>>) -> Seq<Seq<char>>
    decreases pieces.len(),
{
    if pieces.len() == 0 {
        Seq::empty()
    } else if is_part(pieces.last(), pieces.len() - 1) {
        parts_of(pieces.drop_last()).push(pieces.last())
    } else {
        parts_of(pieces.drop_last())
    }
}

/// The parts of a path.
pub open spec fn path_parts(path: Seq<char>) -> Seq<Seq<char>> {
    parts_of(text::pieces(path, '/'))
}

/// What two paths have in common that name the same file by the same way:
/// whether they start at the root, and their parts.
pub open spec fn path_key(path: Seq<char>) -> (bool, Seq<Seq<char>>) {
    (is_absolute(path), path_parts(path))
}

/// The parts of a path.
fn split_parts(path: &Vec<char>) -> (r: Vec<Vec<char>>)
    ensures
        text::texts(r@) == path_parts(path@),
{
    let all = split_at_char(path, '/');
    let ghost models = text::texts(all@);
    let mut out: Vec<Vec<char>> = Vec::new();
    let n: usize = all.len();
    assert(models.take(0) =~= Seq::empty());
    assert(text::texts(out@) =~= Seq::empty());
    for i in 0..n
        invariant
            n == all.len(),
            models == text::texts(all@),
            text::texts(out@) == parts_of(models.take(i as int)),
    {
        let ghost before = text::texts(out@);
        assert(models.take(i + 1).drop_last() =~= models.take(i as int));
        assert(models[i as int] == all@[i as int]@);
        if all[i].len() > 0 && (!spells(&all[i], ".") || i == 0) {
            let part = copy_chars(&all[i]);
            out.push(part);
            assert(text::texts(out@) =~= before.push(part@));
        }
    }
    assert(models.take(n as int) =~= models);
    out
}

/// Whether two paths name the same file by the same way.
pub fn same_path(a: &str, b: &str) -> (r: bool)
    ensures
        r == (path_key(a@) == path_key(b@)),
{
    let p = chars_of(a);
    let q = chars_of(b);
    let p_root = p.len() > 0 && p[0] == '/';
    let q_root = q.len() > 0 && q[0] == '/';
    if p_root != q_root {
        return false;
    }
    let ps = split_parts(&p);
    let qs = split_parts(&q);
    let ghost pm = text::texts(ps@);
    let ghost qm = text::texts(qs@);
    assert(pm.len() == ps.len() && qm.len() == qs.len());
    if ps.len() != qs.len() {
        return false;
    }
    let n: usize = ps.len();
    for i in 0..n
        invariant
            n == ps.len() == qs.len(),
            pm == text::texts(ps@),
            qm == text::texts(qs@),
            pm == path_parts(a@),
            qm == path_parts(b@),
            forall|j: int| 0 <= j < i ==> pm[j] == qm[j],
    {
        assert(pm[i as int] == ps@[i as int]@ && qm[i as int] == qs@[i as int]@);
        if !same_chars(&ps[i], &qs[i]) {
            return false;
        }
    }
    assert(pm =~= qm);
    true
}

/// Parts with slashes between them.
pub open spec fn slash_joined(parts: Seq<Seq<char>>) -> Seq<char>
    decreases parts.len(),
{
    if parts.len() == 0 {
        Seq::empty()
    } else if parts.len() == 1 {
        parts[0]
    } else {
        slash_joined(parts.drop_last()) + "/"@ + parts.last()
    }
}

/// The directory that a path leads out of: the path without its last part.
/// The root has none, nor has an empty path.
pub open spec fn parent(path: Seq<char>) -> Option<Seq<char>> {
    let parts = path_parts(path);
    if parts.len() == 0 {
        None
    } else if is_absolute(path) {
        Some("/"@ + slash_joined(parts.drop_last()))
    } else {
        Some(slash_joined(parts.drop_last()))
    }
}

/// The directory that a path leads out of.
pub fn parent_of(path: &str) -> (r: Option<String>)
    ensures
        (match r {
            Some(dir) => parent(path@) == Some(dir@),
            None => parent(path@) is None,
        }),
{
    let cs = chars_of(path);
    let parts = split_parts(&cs);
    let ghost models = text::texts(parts@);
    let n: usize = parts.len();
    assert(models.len() == n);
    if n == 0 {
        return None;
    }
    let ghost dirs = models.drop_last();
    let mut out: Vec<char> = Vec::new();
    if cs.len() > 0 && cs[0] == '/' {
        out.push('/');
    }
    let ghost root = out@;
    proof {
        reveal_strlit("/");
        assert(is_absolute(path@) ==> root =~= "/"@);
    }
    assert(dirs.take(0) =~= Seq::empty());
    assert(root + slash_joined(dirs.take(0)) =~= root);
    for i in 0..n - 1
        invariant
            n == parts.len(),
            n > 0,
            models == text::texts(parts@),
            dirs == models.drop_last(),
            out@ == root + slash_joined(dirs.take(i as int)),
    {
        assert(dirs[i as int] == parts@[i as int]@);
        assert(dirs.take(i + 1).drop_last() =~= dirs.take(i as int));
        let ghost before = out@;
        if i > 0 {
            out.push('/');
            proof {
                reveal_strlit("/");
                assert(out@ =~= before + "/"@);
            }
        }
        append_chars(&mut out, &parts[i]);
        assert(out@ =~= root + slash_joined(dirs.take(i + 1)));
    }
    assert(dirs.take(n - 1) =~= dirs);
    assert(!is_absolute(path@) ==> root + slash_joined(dirs) =~= slash_joined(dirs));
    Some(text_of(&out))
}

// ---------------------------------------------------------------------------
// Extensions
// ---------------------------------------------------------------------------

/// The name of the file that a path leads to.
pub open spec fn file_name(path: Seq<char>) -> Option<Seq<char>> {
    let parts = path_parts(path);
    if parts.len() > 0 && parts.last() != "."@ && parts.last() != ".."@ {
        Some(parts.last())
    } else {
        None
    }
}

/// The name of the file that a path leads to.
pub fn file_name_of(path: &str) -> (r: Option<String>)
    ensures
        (match r {
            Some(name) => file_name(path@) == Some(name@),
            None => file_name(path@) is None,
        }),
{
    let parts = split_parts(&chars_of(path));
    let ghost models = text::texts(parts@);
    let n: usize = parts.len();
    assert(models.len() == n);
    if n == 0 {
        return None;
    }
    assert(models.last() == parts@[n - 1]@);
    if spells(&parts[n - 1], ".") || spells(&parts[n - 1], "..") {
        None
    } else {
        Some(text_of(&parts[n - 1]))
    }
}

/// The index behind the last dot of a name; 0 where it has none.
pub open spec fn behind_last_dot(name: Seq<char>) -> nat
    decreases name.len(),
{
    if name.len() == 0 {
        0
    } else if name.last() == '.' {
        name.len()
    } else {
        behind_last_dot(name.drop_last())
    }
}

/// The extension of a name: what stands behind its last dot, unless that is
/// its first character.
pub open spec fn extension_of(name: Seq<char>) -> Option<Seq<char>> {
    let k = behind_last_dot(name);
    if k > 1 {
        Some(name.skip(k as int))
    } else {
        None
    }
}

/// Whether a path leads to a file with the given extension, whatever the size
/// of its letters.
pub open spec fn has_extension(path: Seq<char>, extension: Seq<char>) -> bool {
    match file_name(path) {
        Some(name) => match extension_of(name) {
            Some(e) => lexer::lowered(e) == extension,
            None => false,
        },
        None => false,
    }
}

/// Whether a path leads to a file with the given extension, which is in small
/// letters.
pub fn path_has_extension(path: &str, extension: &str) -> (r: bool)
    ensures
        r == has_extension(path@, extension@),
{
    let name = match file_name_of(path) {
        Some(name) => chars_of(name.as_str()),
        None => {
            return false;
        },
    };
    let m: usize = name.len();
    let mut k: usize = m;
    assert(name@.take(m as int) =~= name@);
    while k > 0 && name[k - 1] != '.'
        invariant
            m == name.len(),
            k <= m,
            behind_last_dot(name@.take(k as int)) == behind_last_dot(name@),
        decreases k,
    {
        assert(name@.take(k as int).drop_last() =~= name@.take(k - 1));
        k = k - 1;
    }
    assert(behind_last_dot(name@) == k);
    if k > 1 {
        let e = chars_between(&name, k, m);
        assert(e@ =~= name@.skip(k as int));
        spells(&lower(&e), extension)
    } else {
        false
    }
}

// ---------------------------------------------------------------------------
// Several paths
// ---------------------------------------------------------------------------

/// Whether a path is among those given.
pub open spec fn path_seen(seen: Seq<Seq<char>>, path: Seq<char>) -> bool {
    exists|i: int| 0 <= i < seen.len() && path_key(#[trigger] seen[i]) == path_key(path)
}

/// Paths without those that stand further ahead too.
pub open spec fn deduped(all: Seq<Seq<char>>) -> Seq<Seq<char>>
    decreases all.len(),
{
    if all.len() == 0 {
        Seq::empty()
    } else if path_seen(all.drop_last(), all.last()) {
        deduped(all.drop_last())
    } else {
        deduped(all.drop_last()).push(all.last())
    }
}

pub(crate) proof fn lemma_deduped_sees(all: Seq<Seq<char>>, path: Seq<char>)
    ensures
        path_seen(deduped(all), path) == path_seen(all, path),
    decreases all.len(),
{
    if all.len() > 0 {
        let rest = all.drop_last();
        let kept = deduped(all);
        lemma_deduped_sees(rest, path);
        lemma_deduped_sees(rest, all.last());
        if path_seen(all, path) {
            let i = choose|i: int|
                0 <= i < all.len() && path_key(#[trigger] all[i]) == path_key(path);
            if i < rest.len() {
                assert(rest[i] == all[i]);
                assert(path_seen(rest, path));
                let k = choose|k: int|
                    0 <= k < deduped(rest).len() && path_key(#[trigger] deduped(rest)[k])
                        == path_key(path);
                assert(kept[k] == deduped(rest)[k]);
            } else if path_seen(rest, all.last()) {
                let k = choose|k: int|
                    0 <= k < deduped(rest).len() && path_key(#[trigger] deduped(rest)[k])
                        == path_key(all.last());
                assert(kept[k] == deduped(rest)[k]);
            } else {
                assert(kept[kept.len() - 1] == all.last());
            }
        }
        if path_seen(kept, path) {
            let k = choose|k: int|
                0 <= k < kept.len() && path_key(#[trigger] kept[k]) == path_key(path);
            if k < deduped(rest).len() {
                assert(deduped(rest)[k] == kept[k]);
                assert(path_seen(rest, path));
                let i = choose|i: int|
                    0 <= i < rest.len() && path_key(#[trigger] rest[i]) == path_key(
                        path,
                    );
                assert(all[i] == rest[i]);
            } else {
                assert(all[all.len() - 1] == kept[k]);
            }
        }
    }
}

/// No path is left twice, and none is lost.
pub proof fn law_deduped_paths_are_distinct(all: Seq<Seq<char>>)
    ensures
        forall|i: int, j: int|
            0 <= i < j < deduped(all).len() ==> path_key(#[trigger] deduped(all)[i])
                != path_key(#[trigger] deduped(all)[j]),
        forall|path: Seq<char>| #[trigger]
            path_seen(deduped(all), path) == path_seen(all, path),
    decreases all.len(),
{
    assert forall|path: Seq<char>| #[trigger]
        path_seen(deduped(all), path) == path_seen(all, path) by {
        lemma_deduped_sees(all, path);
    }
    if all.len() > 0 {
        let rest = all.drop_last();
        law_deduped_paths_are_distinct(rest);
        assert forall|i: int, j: int| 0 <= i < j < deduped(all).len() implies path_key(
            #[trigger] deduped(all)[i],
        ) != path_key(#[trigger] deduped(all)[j]) by {
            assert(deduped(all)[i] == deduped(rest)[i]);
            if j < deduped(rest).len() {
                assert(deduped(all)[j] == deduped(rest)[j]);
            } else {
                assert(!path_seen(deduped(rest), all.last()));
            }
        }
    }
}

pub(crate) proof fn lemma_seen_pushed(seen: Seq<Seq<char>>, last: Seq<char>, p: Seq<char>)
    ensures
        path_seen(seen.push(last), p) == (path_seen(seen, p) || path_key(last)
            == path_key(p)),
{
    let more = seen.push(last);
    if path_seen(seen, p) {
        let i = choose|i: int|
            0 <= i < seen.len() && path_key(#[trigger] seen[i]) == path_key(p);
        assert(more[i] == seen[i]);
    }
    if path_seen(more, p) {
        let i = choose|i: int|
            0 <= i < more.len() && path_key(#[trigger] more[i]) == path_key(p);
        if i < seen.len() {
            assert(seen[i] == more[i]);
        }
    }
    assert(more[seen.len() as int] == last);
}

pub(crate) proof fn lemma_seen_same_key(seen: Seq<Seq<char>>, p: Seq<char>, q: Seq<char>)
    ensures
        path_key(p) == path_key(q) ==> path_seen(seen, p) == path_seen(seen, q),
{
}

// ---------------------------------------------------------------------------
// Laws
// ---------------------------------------------------------------------------

/// Whether a text can be a part of a path: it is not empty, holds no slash, and is no
/// single dot.
pub open spec fn is_plain_part(s: Seq<char>) -> bool {
    &&& s.len() > 0
    &&& forall|i: int| 0 <= i < s.len() ==> #[trigger] s[i] != '/'
    &&& s != seq!['.']
}

/// Parts one behind the other, each with a slash before it.
pub open spec fn each_behind_a_slash(parts: Seq<Seq<char>>) -> Seq<char>
    decreases parts.len(),
{
    if parts.len() == 0 {
        Seq::empty()
    } else {
        each_behind_a_slash(parts.drop_last()) + seq!['/'] + parts.last()
    }
}

proof fn lemma_find_slash(s: Seq<char>, rest: Seq<char>)
    requires
        forall|i: int| 0 <= i < s.len() ==> #[trigger] s[i] != '/',
    ensures
        text::find_char(s, '/') == s.len(),
        text::find_char(s + seq!['/'] + rest, '/') == s.len(),
    decreases s.len(),
{
    let all = s + seq!['/'] + rest;
    if s.len() > 0 {
        let tail = s.skip(1);
        assert forall|i: int| 0 <= i < tail.len() implies #[trigger] tail[i] != '/' by {
            assert(tail[i] == s[i + 1]);
        }
        lemma_find_slash(tail, rest);
        assert(all[0] == s[0]);
        assert(all.skip(1) =~= tail + seq!['/'] + rest);
    } else {
        assert(all[0] == '/');
    }
}

/// The pieces of a text with a slash and a text without one put behind it.
proof fn lemma_pieces_grow(s: Seq<char>, last: Seq<char>)
    requires
        forall|i: int| 0 <= i < last.len() ==> #[trigger] last[i] != '/',
    ensures
        text::pieces(s + seq!['/'] + last, '/') == text::pieces(s, '/').push(last),
    decreases s.len(),
{
    let all = s + seq!['/'] + last;
    lemma_find_slash(last, Seq::empty());
    let i = text::find_char(s, '/');
    lemma_found_slash(s);
    if i < s.len() {
        let front = s.take(i as int);
        let back = s.skip(i as int + 1);
        assert(s =~= front + seq!['/'] + back);
        lemma_find_slash(front, back + seq!['/'] + last);
        assert(all =~= front + seq!['/'] + (back + seq!['/'] + last));
        assert(all.take(i as int) =~= front);
        assert(all.skip(i as int + 1) =~= back + seq!['/'] + last);
        lemma_pieces_grow(back, last);
        assert(seq![front] + text::pieces(back, '/').push(last) =~= (seq![front] + text::pieces(
            back,
            '/',
        )).push(last));
    } else {
        lemma_find_slash(s, last);
        assert(all.take(s.len() as int) =~= s);
        assert(all.skip(s.len() as int + 1) =~= last);
        assert(text::pieces(last, '/') == seq![last]);
        assert(seq![s] + seq![last] =~= seq![s].push(last));
    }
}

proof fn lemma_found_slash(s: Seq<char>)
    ensures
        text::find_char(s, '/') <= s.len(),
        text::find_char(s, '/') < s.len() ==> s[text::find_char(s, '/') as int] == '/',
        forall|i: int| 0 <= i < text::find_char(s, '/') ==> #[trigger] s[i] != '/',
    decreases s.len(),
{
    if s.len() > 0 && s[0] != '/' {
        let tail = s.skip(1);
        lemma_found_slash(tail);
        assert forall|i: int| 0 <= i < text::find_char(s, '/') implies #[trigger] s[i] != '/' by {
            if i > 0 {
                assert(tail[i - 1] == s[i]);
            }
        }
    }
}

proof fn lemma_pieces_not_empty(s: Seq<char>)
    ensures
        text::pieces(s, '/').len() > 0,
{
}

/// A path goes on into a part: put behind a path with a slash, the part is its last.
/// A further slash at its end, or a dot between slashes, makes no difference.
pub proof fn law_path_goes_on_into_its_parts(path: Seq<char>, part: Seq<char>)
    requires
        is_plain_part(part),
    ensures
        path_parts(path + seq!['/'] + part) == path_parts(path).push(part),
        path_parts(path + seq!['/']) == path_parts(path),
        path_parts(path + seq!['/', '.']) == path_parts(path),
        path_parts(part) == seq![part],
        path_parts(Seq::empty()).len() == 0,
        is_absolute(path) ==> is_absolute(path + seq!['/'] + part),
        path.len() > 0 ==> is_absolute(path + seq!['/'] + part) == is_absolute(path),
        !is_absolute(part),
{
    reveal_strlit(".");
    assert("."@ =~= seq!['.']);
    let none = Seq::<char>::empty();
    let dot = seq!['.'];
    lemma_pieces_not_empty(path);
    let start = text::pieces(path, '/');
    lemma_pieces_grow(path, part);
    assert(start.push(part).drop_last() =~= start);
    lemma_pieces_grow(path, none);
    assert(path + seq!['/'] + none =~= path + seq!['/']);
    assert(start.push(none).drop_last() =~= start);
    lemma_pieces_grow(path, dot);
    assert(path + seq!['/'] + dot =~= path + seq!['/', '.']);
    assert(start.push(dot).drop_last() =~= start);
    lemma_find_slash(part, none);
    assert(text::pieces(part, '/') == seq![part]);
    let one = seq![part];
    assert(one.drop_last() =~= Seq::empty());
    assert(one.last() == part);
    assert(parts_of(Seq::<Seq<char>>::empty()) =~= Seq::empty());
    assert(parts_of(one) == parts_of(one.drop_last()).push(part));
    assert(parts_of(one) =~= one);
    assert(text::pieces(none, '/') == seq![none]);
    assert(seq![none].drop_last() =~= Seq::<Seq<char>>::empty());
    assert(parts_of(Seq::<Seq<char>>::empty()).len() == 0);
    if path.len() > 0 {
        assert((path + seq!['/'] + part)[0] == path[0]);
    }
}

/// A path from the root is made of the parts that it names, in order. So two such
/// paths are the same exactly where they name the same parts.
pub proof fn law_path_is_made_of_its_parts(parts: Seq<Seq<char>>)
    requires
        forall|i: int| 0 <= i < parts.len() ==> is_plain_part(#[trigger] parts[i]),
    ensures
        path_parts(each_behind_a_slash(parts)) == parts,
        parts.len() > 0 ==> is_absolute(each_behind_a_slash(parts)),
        parts.len() > 0 ==> path_key(each_behind_a_slash(parts)) == (true, parts),
    decreases parts.len(),
{
    if parts.len() > 0 {
        let rest = parts.drop_last();
        let last = parts.last();
        assert forall|i: int| 0 <= i < rest.len() implies is_plain_part(#[trigger] rest[i]) by {
            assert(rest[i] == parts[i]);
        }
        assert(is_plain_part(parts[parts.len() - 1]));
        law_path_is_made_of_its_parts(rest);
        law_path_goes_on_into_its_parts(each_behind_a_slash(rest), last);
        assert(rest.push(last) =~= parts);
        let whole = each_behind_a_slash(parts);
        if rest.len() == 0 {
            assert(each_behind_a_slash(rest).len() == 0);
            assert(whole[0] == '/');
        } else {
            assert(whole[0] == each_behind_a_slash(rest)[0]);
        }
    } else {
        let part = seq!['x'];
        assert(part[0] != seq!['.'][0]);
        law_path_goes_on_into_its_parts(Seq::empty(), part);
        assert(path_parts(each_behind_a_slash(parts)) =~= parts);
    }
}

/// What a path leads to is its last part, and what it leads out of is the path without
/// that part, where the part is no way back.
pub proof fn law_path_leads_from_its_directory_to_its_file(
    dirs: Seq<Seq<char>>,
    name: Seq<char>,
)
    requires
        forall|i: int| 0 <= i < dirs.len() ==> is_plain_part(#[trigger] dirs[i]),
        is_plain_part(name),
        name != seq!['.', '.'],
    ensures
        file_name(each_behind_a_slash(dirs.push(name))) == Some(name),
        parent(each_behind_a_slash(dirs.push(name))) matches Some(dir) && path_parts(dir) == dirs
            && is_absolute(dir),
{
    reveal_strlit(".");
    reveal_strlit("..");
    reveal_strlit("/");
    assert("."@ =~= seq!['.']);
    assert(".."@ =~= seq!['.', '.']);
    let all = dirs.push(name);
    assert forall|i: int| 0 <= i < all.len() implies is_plain_part(#[trigger] all[i]) by {
        if i < dirs.len() {
            assert(all[i] == dirs[i]);
        }
    }
    law_path_is_made_of_its_parts(all);
    assert(all.drop_last() =~= dirs);
    lemma_slash_joined(dirs);
    let dir = "/"@ + slash_joined(dirs);
    assert(dir[0] == '/');
    if dirs.len() == 0 {
        law_path_goes_on_into_its_parts(Seq::empty(), name);
        assert(dir =~= Seq::<char>::empty() + seq!['/']);
        assert(path_parts(dir) =~= dirs);
    } else {
        assert(dir =~= each_behind_a_slash(dirs));
        law_path_is_made_of_its_parts(dirs);
    }
}

proof fn lemma_slash_joined(parts: Seq<Seq<char>>)
    ensures
        parts.len() > 0 ==> seq!['/'] + slash_joined(parts) == each_behind_a_slash(parts),
        parts.len() == 0 ==> slash_joined(parts).len() == 0,
    decreases parts.len(),
{
    reveal_strlit("/");
    assert("/"@ =~= seq!['/']);
    if parts.len() == 1 {
        assert(parts.drop_last() =~= Seq::empty());
        assert(each_behind_a_slash(parts.drop_last()) =~= Seq::empty());
        assert(seq!['/'] + slash_joined(parts) =~= each_behind_a_slash(parts));
    } else if parts.len() > 1 {
        lemma_slash_joined(parts.drop_last());
        assert(seq!['/'] + slash_joined(parts) =~= each_behind_a_slash(parts));
    }
}

/// The extension of a name is what stands behind its last dot. A name without a dot, or
/// with none but at its front, has no extension.
pub proof fn law_extension_stands_behind_the_last_dot(stem: Seq<char>, end: Seq<char>)
    requires
        forall|i: int| 0 <= i < end.len() ==> #[trigger] end[i] != '.',
    ensures
        stem.len() > 0 ==> extension_of(stem + seq!['.'] + end) == Some(end),
        extension_of(seq!['.'] + end) is None,
        extension_of(end) is None,
{
    lemma_last_dot(stem + seq!['.'], end);
    lemma_last_dot(seq!['.'], end);
    lemma_last_dot(Seq::empty(), end);
    assert((stem + seq!['.']).last() == '.');
    assert(Seq::<char>::empty() + end =~= end);
    assert((stem + seq!['.'] + end).skip(stem.len() as int + 1) =~= end);
}

proof fn lemma_last_dot(front: Seq<char>, end: Seq<char>)
    requires
        forall|i: int| 0 <= i < end.len() ==> #[trigger] end[i] != '.',
        front.len() > 0 ==> front.last() == '.',
    ensures
        behind_last_dot(front + end) == front.len(),
    decreases end.len(),
{
    let all = front + end;
    if end.len() > 0 {
        let rest = end.drop_last();
        assert forall|i: int| 0 <= i < rest.len() implies #[trigger] rest[i] != '.' by {
            assert(rest[i] == end[i]);
        }
        lemma_last_dot(front, rest);
        assert(all.drop_last() =~= front + rest);
        assert(all.last() == end[end.len() - 1]);
    } else {
        assert(all =~= front);
    }
}

/// Of paths that are the same only the first is kept, and those that are kept stay in
/// their order. Gives the number of each that is kept.
pub proof fn law_first_of_each_path_is_kept(all: Seq<Seq<char>>) -> (from: Seq<int>)
    ensures
        from.len() == deduped(all).len(),
        forall|i: int, j: int| 0 <= i < j < from.len() ==> #[trigger] from[i] < #[trigger] from[j],
        forall|i: int|
            0 <= i < from.len() ==> 0 <= #[trigger] from[i] < all.len() && deduped(all)[i]
                == all[from[i]],
        forall|i: int, j: int|
            0 <= i < from.len() && 0 <= j < from[i] ==> path_key(#[trigger] all[j]) != path_key(
                all[#[trigger] from[i]],
            ),
    decreases all.len(),
{
    if all.len() == 0 {
        Seq::empty()
    } else {
        let rest = all.drop_last();
        let n = all.len() - 1;
        let before = law_first_of_each_path_is_kept(rest);
        let kept = deduped(rest);
        assert forall|i: int| 0 <= i < n implies #[trigger] rest[i] == all[i] by {}
        if path_seen(rest, all[n]) {
            assert forall|i: int| 0 <= i < before.len() implies 0 <= #[trigger] before[i]
                < all.len() && deduped(all)[i] == all[before[i]] by {
                assert(rest[before[i]] == all[before[i]]);
            }
            assert forall|i: int, j: int| 0 <= i < before.len() && 0 <= j < before[i] implies path_key(
                #[trigger] all[j],
            ) != path_key(all[#[trigger] before[i]]) by {
                assert(rest[j] == all[j] && rest[before[i]] == all[before[i]]);
            }
            before
        } else {
            let from = before.push(n);
            assert forall|i: int| 0 <= i < from.len() implies 0 <= #[trigger] from[i] < all.len()
                && deduped(all)[i] == all[from[i]] by {
                if i < before.len() {
                    assert(from[i] == before[i]);
                    assert(deduped(all)[i] == kept[i]);
                    assert(rest[before[i]] == all[before[i]]);
                }
            }
            assert forall|i: int, j: int| 0 <= i < j < from.len() implies #[trigger] from[i]
                < #[trigger] from[j] by {
                assert(from[i] == before[i]);
                if j < before.len() {
                    assert(from[j] == before[j]);
                }
            }
            assert forall|i: int, j: int| 0 <= i < from.len() && 0 <= j < from[i] implies path_key(
                #[trigger] all[j],
            ) != path_key(all[#[trigger] from[i]]) by {
                assert(rest[j] == all[j]);
                if i < before.len() {
                    assert(from[i] == before[i]);
                    assert(rest[before[i]] == all[before[i]]);
                }
            }
            from
        }
    }
}

/// On Windows a backslash counts as a slash, and no other character is touched;
/// elsewhere a path is taken as it is.
pub proof fn law_backslashes_turn_on_windows(path: Seq<char>, platform: Platform, i: int)
    requires
        0 <= i < path.len(),
    ensures
        slash_text(path, platform).len() == path.len(),
        path[i] != '\\' || platform != Platform::Windows ==> slash_text(path, platform)[i]
            == path[i],
        path[i] == '\\' && platform == Platform::Windows ==> slash_text(path, platform)[i] == '/',
{
}

/// The parts of a path with a slash between any two of them.
pub open spec fn slash_between(parts: Seq<Seq<char>>) -> Seq<char>
    decreases parts.len(),
{
    if parts.len() <= 1 {
        if parts.len() == 0 {
            Seq::empty()
        } else {
            parts[0]
        }
    } else {
        slash_between(parts.drop_last()) + seq!['/'] + parts.last()
    }
}

proof fn lemma_slash_between(parts: Seq<Seq<char>>)
    requires
        forall|i: int| 0 <= i < parts.len() ==> is_plain_part(#[trigger] parts[i]),
    ensures
        path_parts(slash_between(parts)) == parts,
        !is_absolute(slash_between(parts)),
        slash_joined(parts) == slash_between(parts),
        parts.len() > 0 ==> slash_between(parts).len() > 0,
    decreases parts.len(),
{
    reveal_strlit("/");
    assert("/"@ =~= seq!['/']);
    if parts.len() == 0 {
        let part = seq!['x'];
        assert(part[0] != seq!['.'][0]);
        law_path_goes_on_into_its_parts(Seq::empty(), part);
        assert(slash_between(parts) =~= Seq::empty());
        assert(path_parts(slash_between(parts)) =~= parts);
    } else {
        let rest = parts.drop_last();
        let last = parts[parts.len() - 1];
        assert forall|i: int| 0 <= i < rest.len() implies is_plain_part(#[trigger] rest[i]) by {
            assert(rest[i] == parts[i]);
        }
        lemma_slash_between(rest);
        law_path_goes_on_into_its_parts(slash_between(rest), last);
        assert(rest.push(last) =~= parts);
        if parts.len() == 1 {
            assert(seq![last] =~= parts);
        }
    }
}

/// The same holds of a path that does not start at the root: what it leads to is its last
/// part, and what it leads out of is the path without that part, from where it started.
pub proof fn law_relative_path_leads_from_its_directory_to_its_file(
    dirs: Seq<Seq<char>>,
    name: Seq<char>,
)
    requires
        forall|i: int| 0 <= i < dirs.len() ==> is_plain_part(#[trigger] dirs[i]),
        is_plain_part(name),
    ensures
        name != seq!['.', '.'] ==> file_name(slash_between(dirs.push(name))) == Some(name),
        name == seq!['.', '.'] ==> file_name(slash_between(dirs.push(name))) is None,
        parent(slash_between(dirs.push(name))) == Some(slash_between(dirs)),
{
    reveal_strlit(".");
    reveal_strlit("..");
    assert("."@ =~= seq!['.']);
    assert(".."@ =~= seq!['.', '.']);
    let all = dirs.push(name);
    assert forall|i: int| 0 <= i < all.len() implies is_plain_part(#[trigger] all[i]) by {
        if i < dirs.len() {
            assert(all[i] == dirs[i]);
        }
    }
    lemma_slash_between(all);
    lemma_slash_between(dirs);
    assert(all.drop_last() =~= dirs);
}

proof fn lemma_only_drive(path: Seq<char>, k: int, n: int)
    requires
        forall|i: int| 0 <= i < path.len() && #[trigger] path[i] == ':' ==> i == k,
        n <= path.len(),
    ensures
        last_drive(path, n) == if drive_at(path, k - 1) && k - 1 < n {
            k - 1
        } else {
            0
        },
    decreases n,
{
    if n > 0 {
        if drive_at(path, n - 1) {
            assert(path[n - 1 + 1] == ':');
        } else {
            lemma_only_drive(path, k, n - 1);
        }
    }
}

/// Whether a character is a letter of the alphabet, of either size.
pub open spec fn is_letter(c: char) -> bool {
    ('A' <= c && c <= 'Z') || ('a' <= c && c <= 'z')
}

/// On Windows a letter with a colon behind it starts a path anew, where it is a whole
/// part of the path. A colon elsewhere is a character like any other, and so is every
/// colon on other platforms.
pub proof fn law_letter_and_colon_are_a_drive(path: Seq<char>, k: int, platform: Platform)
    requires
        0 <= k < path.len(),
        path[k] == ':',
        forall|i: int| 0 <= i < path.len() && #[trigger] path[i] == ':' ==> i == k,
    ensures
        ({
            let whole = k >= 1 && is_letter(path[k - 1]) && (k == 1 || path[k - 2] == '/') && (k + 1
                == path.len() || path[k + 1] == '/');
            &&& platform == Platform::Windows && whole ==> native_text(path, platform)
                == path.skip(k - 1)
            &&& platform != Platform::Windows || !whole ==> native_text(path, platform) == path
        }),
{
    lemma_only_drive(path, k, path.len() as int);
    assert(path.skip(0) =~= path);
}

/// A path without a colon is the same on every platform.
pub proof fn law_path_without_drive_is_kept(path: Seq<char>, platform: Platform)
    requires
        forall|i: int| 0 <= i < path.len() ==> #[trigger] path[i] != ':',
    ensures
        native_text(path, platform) == path,
{
    lemma_only_drive(path, -1, path.len() as int);
    assert(path.skip(0) =~= path);
}

} // verus!
