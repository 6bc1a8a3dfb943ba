//! Text primitives: character sequences, decimal numbers, trimming and
//! splitting. Everything is stated over `Seq<char>`, the view of `str` and
//! `String`.

use vstd::prelude::*;
use vstd::string::*;

verus! {

/// `String::push` appends one character and leaves the rest alone.
pub assume_specification[ String::push ](s: &mut String, c: char)
    ensures
        final(s)@ == old(s)@.push(c),
;

/// The view of an optional text.
pub open spec fn opt_text(s: Option<String>) -> Option<Seq<char>> {
    match s {
        Some(s) => Some(s@),
        None => None,
    }
}

/// The views of several texts.
pub open spec fn string_views(v: Seq<String>) -> Seq<Seq<char>> {
    v.map_values(|s: String| s@)
}

/// Whether two texts hold the same characters.
pub fn same_text(a: &str, b: &str) -> (r: bool)
    ensures
        r == (a@ == b@),
{
    a.to_owned() == b.to_owned()
}

/// The characters of `s`, in order.
pub fn chars_of(s: &str) -> (r: Vec<char>)
    ensures
        r@ == s@,
{
    let mut out: Vec<char> = Vec::new();
    for c in iter: s.chars()
        invariant
            iter.seq() == s@,
            out@ == s@.take(iter.index() as int),
    {
        out.push(c);
        proof {
            assert(s@.take(iter.index() as int + 1) =~= s@.take(iter.index() as int).push(c));
        }
    }
    proof {
        assert(s@.take(s@.len() as int) =~= s@);
    }
    out
}

/// The text made of the characters `cs`.
pub fn text_of(cs: &Vec<char>) -> (r: String)
    ensures
        r@ == cs@,
{
    let mut out = String::new();
    let n: usize = cs.len();
    for i in 0..n
        invariant
            n == cs.len(),
            out@ == cs@.take(i as int),
    {
        out.push(cs[i]);
        assert(cs@.take(i + 1) =~= cs@.take(i as int).push(cs@[i as int]));
    }
    assert(cs@.take(n as int) =~= cs@);
    out
}

/// Whether two sequences of characters are the same.
pub fn same_chars(a: &Vec<char>, b: &Vec<char>) -> (r: bool)
    ensures
        r == (a@ == b@),
{
    if a.len() != b.len() {
        return false;
    }
    let n: usize = a.len();
    for i in 0..n
        invariant
            n == a.len() == b.len(),
            forall|j: int| 0 <= j < i ==> a@[j] == b@[j],
    {
        if a[i] != b[i] {
            return false;
        }
    }
    assert(a@ =~= b@);
    true
}

/// Whether characters make up a given text.
pub fn spells(cs: &Vec<char>, s: &str) -> (r: bool)
    ensures
        r == (cs@ == s@),
{
    same_chars(cs, &chars_of(s))
}

/// A copy of characters.
pub fn copy_chars(cs: &Vec<char>) -> (r: Vec<char>)
    ensures
        r@ == cs@,
{
    let out = chars_between(cs, 0, cs.len());
    assert(out@ =~= cs@);
    out
}

/// Appends characters.
pub fn append_chars(cs: &mut Vec<char>, tail: &Vec<char>)
    ensures
        final(cs)@ == old(cs)@ + tail@,
{
    let n: usize = tail.len();
    let ghost start = cs@;
    assert(start + tail@.take(0) =~= start);
    for i in 0..n
        invariant
            n == tail.len(),
            cs@ == start + tail@.take(i as int),
    {
        cs.push(tail[i]);
        assert(start + tail@.take(i + 1) =~= (start + tail@.take(i as int)).push(
            tail@[i as int],
        ));
    }
    assert(tail@.take(n as int) =~= tail@);
}

/// Copies a text.
pub fn copy_text(s: &String) -> (r: String)
    ensures
        r@ == s@,
{
    s.as_str().to_owned()
}

// ---------------------------------------------------------------------------
// Decimal numbers
// ---------------------------------------------------------------------------

/// The character of a decimal digit.
pub open spec fn digit_char(d: nat) -> char {
    (48 + d) as char
}

/// `n` in decimal, without leading zeros.
pub open spec fn decimal_text(n: nat) -> Seq<char>
    decreases n,
{
    if n < 10 {
        seq![digit_char(n)]
    } else {
        decimal_text(n / 10).push(digit_char(n % 10))
    }
}

/// Writes `n` in decimal.
pub fn decimal(n: u64) -> (r: String)
    ensures
        r@ == decimal_text(n as nat),
    decreases n,
{
    if n < 10 {
        let mut s = String::new();
        s.push((48u8 + n as u8) as char);
        assert(s@ =~= seq![digit_char(n as nat)]);
        s
    } else {
        let mut s = decimal(n / 10);
        s.push((48u8 + (n % 10) as u8) as char);
        s
    }
}

/// Different numbers are written differently.
pub proof fn lemma_decimal_injective(a: nat, b: nat)
    requires
        decimal_text(a) == decimal_text(b),
    ensures
        a == b,
    decreases a,
{
    let s = decimal_text(a);
    lemma_decimal_nonempty(a / 10);
    lemma_decimal_nonempty(b / 10);
    if a < 10 && b < 10 {
        assert(s[0] == digit_char(a) && s[0] == digit_char(b));
    } else if a >= 10 && b >= 10 {
        assert(s.last() == digit_char(a % 10) && s.last() == digit_char(b % 10));
        assert(decimal_text(a / 10) =~= s.drop_last());
        assert(decimal_text(b / 10) =~= s.drop_last());
        lemma_decimal_injective(a / 10, b / 10);
    } else {
        assert(s.len() == 1);
        assert(s.len() > 1);
    }
}

/// A number takes at least one digit.
pub proof fn lemma_decimal_nonempty(n: nat)
    ensures
        decimal_text(n).len() > 0,
{
}

// ---------------------------------------------------------------------------
// Finding and splitting
// ---------------------------------------------------------------------------

/// The index of the first `c` in `s`; the length of `s` where there is none.
pub open spec fn find_char(s: Seq<char>, c: char) -> nat
    decreases s.len(),
{
    if s.len() == 0 || s[0] == c {
        0
    } else {
        1 + find_char(s.skip(1), c)
    }
}

/// The index of the first `c` from `from` on, or the length.
pub fn index_of(cs: &Vec<char>, from: usize, c: char) -> (r: usize)
    requires
        from <= cs.len(),
    ensures
        from <= r <= cs.len(),
        r == from + find_char(cs@.skip(from as int), c),
{
    let mut i: usize = from;
    let n: usize = cs.len();
    while i < n && cs[i] != c
        invariant
            n == cs.len(),
            from <= i <= n,
            i + find_char(cs@.skip(i as int), c) == from + find_char(cs@.skip(from as int), c),
        decreases n - i,
    {
        assert(cs@.skip(i as int).skip(1) =~= cs@.skip(i + 1));
        i = i + 1;
    }
    i
}

/// What stands between the characters `c` of a text.
pub open spec fn pieces(s: Seq<char>, c: char) -> Seq<Seq<char>>
    decreases s.len(),
{
    let i = find_char(s, c);
    if i < s.len() {
        seq![s.take(i as int)] + pieces(s.skip(i as int + 1), c)
    } else {
        seq![s]
    }
}

/// The views of several texts.
pub open spec fn texts(v: Seq<Vec<char>>) -> Seq<Seq<char>> {
    v.map_values(|t: Vec<char>| t@)
}

/// Cuts a text at every `c`.
pub fn split_at_char(cs: &Vec<char>, c: char) -> (r: Vec<Vec<char>>)
    ensures
        texts(r@) == pieces(cs@, c),
{
    let mut out: Vec<Vec<char>> = Vec::new();
    let n: usize = cs.len();
    let mut from: usize = 0;
    assert(cs@.skip(0) =~= cs@);
    assert(texts(out@) + pieces(cs@, c) =~= pieces(cs@, c));
    loop
        invariant
            n == cs.len(),
            from <= n,
            texts(out@) + pieces(cs@.skip(from as int), c) == pieces(cs@, c),
        decreases n - from,
    {
        let to = index_of(cs, from, c);
        let line = chars_between(cs, from, to);
        let ghost before = texts(out@);
        let ghost rest = cs@.skip(from as int);
        assert(line@ =~= rest.take(to - from));
        out.push(line);
        assert(texts(out@) =~= before.push(line@));
        if to == n {
            assert(rest.take(to - from) =~= rest);
            assert(before + seq![rest] =~= before.push(rest));
            return out;
        }
        assert(rest.skip(to - from + 1) =~= cs@.skip(to + 1));
        assert(before + (seq![line@] + pieces(cs@.skip(to + 1), c)) =~= before.push(line@)
            + pieces(cs@.skip(to + 1), c));
        from = to + 1;
    }
}

// ---------------------------------------------------------------------------
// Prefixes and replacement
// ---------------------------------------------------------------------------

/// Whether `s` begins with `prefix`.
pub open spec fn begins_with(s: Seq<char>, prefix: Seq<char>) -> bool {
    prefix.len() <= s.len() && s.take(prefix.len() as int) == prefix
}

/// `s` without a leading `prefix`, where it has one.
pub open spec fn without_prefix(s: Seq<char>, prefix: Seq<char>) -> Seq<char> {
    if begins_with(s, prefix) {
        s.skip(prefix.len() as int)
    } else {
        s
    }
}

/// `s` with every `from` turned into `to`.
pub open spec fn replaced(s: Seq<char>, from: char, to: char) -> Seq<char> {
    s.map_values(
        |c: char|
            if c == from {
                to
            } else {
                c
            },
    )
}

/// Whether the characters `cs` begin with those of `prefix`.
pub fn chars_begin_with(cs: &Vec<char>, prefix: &str) -> (r: bool)
    ensures
        r == begins_with(cs@, prefix@),
{
    let p = chars_of(prefix);
    if p.len() > cs.len() {
        return false;
    }
    let n: usize = p.len();
    for i in 0..n
        invariant
            n == p.len() <= cs.len(),
            p@ == prefix@,
            cs@.take(i as int) == prefix@.take(i as int),
    {
        if cs[i] != p[i] {
            assert(cs@.take(n as int)[i as int] != prefix@[i as int]);
            return false;
        }
        assert(cs@.take(i + 1) =~= prefix@.take(i + 1)) by {
            assert(cs@.take(i + 1) =~= cs@.take(i as int).push(cs@[i as int]));
            assert(prefix@.take(i + 1) =~= prefix@.take(i as int).push(prefix@[i as int]));
        }
    }
    assert(prefix@.take(n as int) =~= prefix@);
    true
}

/// The characters of `cs` from `from` up to `to`.
pub fn chars_between(cs: &Vec<char>, from: usize, to: usize) -> (r: Vec<char>)
    requires
        from <= to <= cs.len(),
    ensures
        r@ == cs@.subrange(from as int, to as int),
{
    let mut out: Vec<char> = Vec::new();
    for i in from..to
        invariant
            from <= i <= to <= cs.len(),
            out@ == cs@.subrange(from as int, i as int),
    {
        out.push(cs[i]);
        assert(cs@.subrange(from as int, i + 1) =~= cs@.subrange(from as int, i as int).push(
            cs@[i as int],
        ));
    }
    out
}

/// `cs` with every `from` turned into `to`.
pub fn replace_char(cs: &Vec<char>, from: char, to: char) -> (r: Vec<char>)
    ensures
        r@ == replaced(cs@, from, to),
{
    let mut out: Vec<char> = Vec::new();
    let n: usize = cs.len();
    for i in 0..n
        invariant
            n == cs.len(),
            out@ == replaced(cs@.take(i as int), from, to),
    {
        let c = if cs[i] == from {
            to
        } else {
            cs[i]
        };
        out.push(c);
        assert(replaced(cs@.take(i + 1), from, to) =~= replaced(cs@.take(i as int), from, to).push(
            c,
        ));
    }
    assert(cs@.take(n as int) =~= cs@);
    out
}

/// The number of the first of several names that is the one wanted.
pub fn find_name(names: &Vec<Option<String>>, wanted: &str) -> (r: Option<usize>)
    ensures
        (match r {
            Some(i) => i < names.len() && named(names@[i as int], wanted@) && forall|j: int|
                0 <= j < i ==> !named(#[trigger] names@[j], wanted@),
            None => forall|j: int| 0 <= j < names.len() ==> !named(#[trigger] names@[j], wanted@),
        }),
{
    let n: usize = names.len();
    for i in 0..n
        invariant
            n == names.len(),
            forall|j: int| 0 <= j < i ==> !named(#[trigger] names@[j], wanted@),
    {
        if let Some(name) = &names[i] {
            if same_text(name.as_str(), wanted) {
                return Some(i);
            }
        }
    }
    None
}

/// Whether there is a name, and it is the one wanted.
pub open spec fn named(name: Option<String>, wanted: Seq<char>) -> bool {
    name matches Some(n) && n@ == wanted
}

/// A text as Rust's `Debug` shows it: in double quotes, with what cannot be
/// shown plainly escaped.
pub uninterp spec fn quoted_text(s: Seq<char>) -> Seq<char>;

/// `Debug` of `str`. Which characters are escaped, and how, is left to the
/// name of the result.
#[verifier::external_body]
pub(crate) fn quoted(s: &str) -> (r: String)
    ensures
        r@ == quoted_text(s@),
{
    format!("{s:?}")
}

/// A text in the newtype `name`, as Rust's `Debug` shows it.
pub open spec fn wrapped_text(name: Seq<char>, s: Seq<char>) -> Seq<char> {
    name + "("@ + quoted_text(s) + ")"@
}

/// Shows a text in the newtype `name`.
pub(crate) fn wrapped(name: &str, s: &str) -> (r: String)
    ensures
        r@ == wrapped_text(name@, s@),
{
    name.to_owned().concat("(").concat(quoted(s).as_str()).concat(")")
}

/// A name is the one wanted only where it is there, letter for letter.
pub proof fn law_names_agree_letter_for_letter(name: Option<String>, wanted: Seq<char>, i: int)
    ensures
        name is None ==> !named(name, wanted),
        (name is Some && name->0@ == wanted) ==> named(name, wanted),
        (named(name, wanted) && 0 <= i < wanted.len()) ==> name->0@.len() == wanted.len()
            && name->0@[i] == wanted[i],
{
}

} // verus!
