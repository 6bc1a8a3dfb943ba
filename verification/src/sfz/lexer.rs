//! Lexical structure of SFZ text: lines, comments, words and tokens.

use vstd::prelude::*;

use crate::text;
use crate::text::{append_chars, chars_begin_with, chars_between, index_of, split_at_char};

verus! {

// ---------------------------------------------------------------------------
// Characters
// ---------------------------------------------------------------------------

/// Whether a character has Unicode's property White_Space.
pub open spec fn is_white(c: char) -> bool {
    let n = c as u32;
    ||| 0x09 <= n <= 0x0d
    ||| n == 0x20
    ||| n == 0x85
    ||| n == 0xa0
    ||| n == 0x1680
    ||| 0x2000 <= n <= 0x200a
    ||| n == 0x2028
    ||| n == 0x2029
    ||| n == 0x202f
    ||| n == 0x205f
    ||| n == 0x3000
}

fn white(c: char) -> (r: bool)
    ensures
        r == is_white(c),
{
    let n: u32 = c as u32;
    (0x09 <= n && n <= 0x0d) || n == 0x20 || n == 0x85 || n == 0xa0 || n == 0x1680 || (0x2000 <= n
        && n <= 0x200a) || n == 0x2028 || n == 0x2029 || n == 0x202f || n == 0x205f || n == 0x3000
}

/// A character with an ASCII capital made small.
pub open spec fn small(c: char) -> char {
    if 0x41 <= c as u32 <= 0x5a {
        ((c as u32 + 0x20) as u8) as char
    } else {
        c
    }
}

/// A text with its ASCII capitals made small.
pub open spec fn lowered(s: Seq<char>) -> Seq<char> {
    s.map_values(|c: char| small(c))
}

/// A text with its ASCII capitals made small.
pub fn lower(cs: &Vec<char>) -> (r: Vec<char>)
    ensures
        r@ == lowered(cs@),
{
    let mut out: Vec<char> = Vec::new();
    let n: usize = cs.len();
    for i in 0..n
        invariant
            n == cs.len(),
            out@ == lowered(cs@.take(i as int)),
    {
        let c = cs[i];
        let d: char = if 0x41 <= c as u32 && c as u32 <= 0x5a {
            ((c as u32 + 0x20) as u8) as char
        } else {
            c
        };
        out.push(d);
        assert(lowered(cs@.take(i + 1)) =~= lowered(cs@.take(i as int)).push(d));
    }
    assert(cs@.take(n as int) =~= cs@);
    out
}

// ---------------------------------------------------------------------------
// Trimming
// ---------------------------------------------------------------------------

/// A text without white space at its front.
pub open spec fn trim_front(s: Seq<char>) -> Seq<char>
    decreases s.len(),
{
    if s.len() > 0 && is_white(s[0]) {
        trim_front(s.skip(1))
    } else {
        s
    }
}

/// A text without white space at its back.
pub open spec fn trim_back(s: Seq<char>) -> Seq<char>
    decreases s.len(),
{
    if s.len() > 0 && is_white(s.last()) {
        trim_back(s.drop_last())
    } else {
        s
    }
}

/// A text without white space at either end.
pub open spec fn trimmed(s: Seq<char>) -> Seq<char> {
    trim_back(trim_front(s))
}

/// A text without white space at either end.
pub fn trim(cs: &Vec<char>) -> (r: Vec<char>)
    ensures
        r@ == trimmed(cs@),
{
    let n: usize = cs.len();
    let mut from: usize = 0;
    assert(cs@.skip(0) =~= cs@);
    while from < n && white(cs[from])
        invariant
            n == cs.len(),
            from <= n,
            trim_front(cs@.skip(from as int)) == trim_front(cs@),
        decreases n - from,
    {
        assert(cs@.skip(from as int).skip(1) =~= cs@.skip(from + 1));
        from = from + 1;
    }
    let ghost front = cs@.skip(from as int);
    assert(trim_front(cs@) == front);
    let mut to: usize = n;
    assert(cs@.subrange(from as int, n as int) =~= front);
    while to > from && white(cs[to - 1])
        invariant
            n == cs.len(),
            from <= to <= n,
            trim_back(cs@.subrange(from as int, to as int)) == trim_back(front),
        decreases to,
    {
        assert(cs@.subrange(from as int, to as int).drop_last() =~= cs@.subrange(
            from as int,
            to - 1,
        ));
        to = to - 1;
    }
    chars_between(cs, from, to)
}

// ---------------------------------------------------------------------------
// Finding and splitting
// ---------------------------------------------------------------------------

/// A text cut at its first `=`: what stands before it, and what stands behind.
pub open spec fn split_equals(s: Seq<char>) -> Option<(Seq<char>, Seq<char>)> {
    let i = text::find_char(s, '=');
    if i < s.len() {
        Some((s.take(i as int), s.skip(i as int + 1)))
    } else {
        None
    }
}

/// A text cut at its first `=`.
pub fn split_at_equals(cs: &Vec<char>) -> (r: Option<(Vec<char>, Vec<char>)>)
    ensures
        (match r {
            Some((k, v)) => split_equals(cs@) == Some((k@, v@)),
            None => split_equals(cs@) is None,
        }),
{
    assert(cs@.skip(0) =~= cs@);
    let i = index_of(cs, 0, '=');
    let n: usize = cs.len();
    if i < n {
        let k = chars_between(cs, 0, i);
        let v = chars_between(cs, i + 1, n);
        assert(k@ =~= cs@.take(i as int));
        assert(v@ =~= cs@.skip(i + 1));
        Some((k, v))
    } else {
        None
    }
}

/// The lines of a text: what stands between line feeds.
pub open spec fn lines(s: Seq<char>) -> Seq<Seq<char>> {
    text::pieces(s, '\n')
}

/// The lines of a text.
pub fn split_lines(cs: &Vec<char>) -> (r: Vec<Vec<char>>)
    ensures
        text::texts(r@) == lines(cs@),
{
    split_at_char(cs, '\n')
}

/// How many characters at the front of a text are not white.
pub open spec fn word_len(s: Seq<char>) -> nat
    decreases s.len(),
{
    if s.len() == 0 || is_white(s[0]) {
        0
    } else {
        1 + word_len(s.skip(1))
    }
}

/// A word is no longer than the text that it stands in.
pub proof fn lemma_word_len(s: Seq<char>)
    ensures
        word_len(s) <= s.len(),
    decreases s.len(),
{
    if s.len() > 0 && !is_white(s[0]) {
        lemma_word_len(s.skip(1));
    }
}

/// The words of a text: its longest stretches without white space.
pub open spec fn words(s: Seq<char>) -> Seq<Seq<char>>
    decreases s.len(),
    via words_decreases
{
    if s.len() == 0 {
        Seq::empty()
    } else if is_white(s[0]) {
        words(s.skip(1))
    } else {
        seq![s.take(word_len(s) as int)] + words(s.skip(word_len(s) as int))
    }
}

#[via_fn]
proof fn words_decreases(s: Seq<char>) {
    lemma_word_len(s);
}

/// The words of a text.
pub fn split_words(cs: &Vec<char>) -> (r: Vec<Vec<char>>)
    ensures
        text::texts(r@) == words(cs@),
{
    let mut out: Vec<Vec<char>> = Vec::new();
    let n: usize = cs.len();
    let mut i: usize = 0;
    assert(cs@.skip(0) =~= cs@);
    assert(text::texts(out@) + words(cs@) =~= words(cs@));
    while i < n
        invariant
            n == cs.len(),
            i <= n,
            text::texts(out@) + words(cs@.skip(i as int)) == words(cs@),
        decreases n - i,
    {
        let ghost rest = cs@.skip(i as int);
        if white(cs[i]) {
            assert(rest.skip(1) =~= cs@.skip(i + 1));
            i = i + 1;
        } else {
            let mut j: usize = i;
            while j < n && !white(cs[j])
                invariant
                    n == cs.len(),
                    i <= j <= n,
                    rest == cs@.skip(i as int),
                    (j - i) + word_len(cs@.skip(j as int)) == word_len(rest),
                decreases n - j,
            {
                assert(cs@.skip(j as int).skip(1) =~= cs@.skip(j + 1));
                j = j + 1;
            }
            assert(word_len(rest) == j - i);
            let word = chars_between(cs, i, j);
            let ghost before = text::texts(out@);
            assert(word@ =~= rest.take(j - i));
            assert(rest.skip(j - i) =~= cs@.skip(j as int));
            out.push(word);
            assert(text::texts(out@) =~= before.push(word@));
            assert(before + (seq![word@] + words(cs@.skip(j as int))) =~= before.push(word@)
                + words(cs@.skip(j as int)));
            assert(j > i);
            i = j;
        }
    }
    assert(cs@.skip(n as int) =~= Seq::empty());
    assert(text::texts(out@) + Seq::<Seq<char>>::empty() =~= text::texts(out@));
    out
}

// ---------------------------------------------------------------------------
// Comments
// ---------------------------------------------------------------------------

/// The index of the first `a` that `b` follows; the length of `s` where there
/// is none.
pub open spec fn find_pair(s: Seq<char>, a: char, b: char) -> nat
    decreases s.len(),
{
    if s.len() < 2 {
        s.len()
    } else if s[0] == a && s[1] == b {
        0
    } else {
        1 + find_pair(s.skip(1), a, b)
    }
}

/// The first pair lies in the text, or there is none.
pub proof fn lemma_find_pair(s: Seq<char>, a: char, b: char)
    ensures
        find_pair(s, a, b) <= s.len(),
        find_pair(s, a, b) < s.len() ==> find_pair(s, a, b) + 2 <= s.len(),
    decreases s.len(),
{
    if s.len() >= 2 && !(s[0] == a && s[1] == b) {
        lemma_find_pair(s.skip(1), a, b);
    }
}

fn index_of_pair(cs: &Vec<char>, from: usize, a: char, b: char) -> (r: usize)
    requires
        from <= cs.len(),
    ensures
        from <= r <= cs.len(),
        r == from + find_pair(cs@.skip(from as int), a, b),
{
    let mut i: usize = from;
    let n: usize = cs.len();
    while n - i >= 2 && !(cs[i] == a && cs[i + 1] == b)
        invariant
            n == cs.len(),
            from <= i <= n,
            i + find_pair(cs@.skip(i as int), a, b) == from + find_pair(
                cs@.skip(from as int),
                a,
                b,
            ),
        decreases n - i,
    {
        assert(cs@.skip(i as int).skip(1) =~= cs@.skip(i + 1));
        i = i + 1;
    }
    if n - i >= 2 {
        i
    } else {
        n
    }
}

/// A line up to its first `//`.
pub open spec fn uncommented(line: Seq<char>) -> Seq<char> {
    line.take(find_pair(line, '/', '/') as int)
}

/// A line up to its first `//`.
pub fn strip_line_comment(line: &Vec<char>) -> (r: Vec<char>)
    ensures
        r@ == uncommented(line@),
{
    assert(line@.skip(0) =~= line@);
    let to = index_of_pair(line, 0, '/', '/');
    let out = chars_between(line, 0, to);
    assert(out@ =~= line@.take(to as int));
    out
}

/// Whether a text holds nothing but block comments and white space.
pub open spec fn only_comments(s: Seq<char>) -> bool
    decreases s.len(),
    via only_comments_decreases
{
    if s.len() == 0 {
        true
    } else if is_white(s[0]) {
        only_comments(s.skip(1))
    } else if s.len() >= 2 && s[0] == '/' && s[1] == '*' {
        let close = find_pair(s.skip(2), '*', '/');
        close < s.skip(2).len() && only_comments(s.skip(close as int + 4))
    } else {
        false
    }
}

#[via_fn]
proof fn only_comments_decreases(s: Seq<char>) {
    if s.len() >= 2 {
        lemma_find_pair(s.skip(2), '*', '/');
    }
}

/// Whether a text holds nothing but block comments and white space.
pub fn is_only_comments(cs: &Vec<char>) -> (r: bool)
    ensures
        r == only_comments(cs@),
{
    let n: usize = cs.len();
    let mut i: usize = 0;
    assert(cs@.skip(0) =~= cs@);
    while i < n
        invariant
            n == cs.len(),
            i <= n,
            only_comments(cs@.skip(i as int)) == only_comments(cs@),
        decreases n - i,
    {
        let ghost rest = cs@.skip(i as int);
        if white(cs[i]) {
            assert(rest.skip(1) =~= cs@.skip(i + 1));
            i = i + 1;
        } else if n - i >= 2 && cs[i] == '/' && cs[i + 1] == '*' {
            let close = index_of_pair(cs, i + 2, '*', '/');
            assert(rest.skip(2) =~= cs@.skip(i + 2));
            proof {
                lemma_find_pair(rest.skip(2), '*', '/');
            }
            if close == n {
                return false;
            }
            assert(rest.skip(close - i + 2) =~= cs@.skip(close + 2));
            i = close + 2;
        } else {
            return false;
        }
    }
    true
}

// ---------------------------------------------------------------------------
// Tokens
// ---------------------------------------------------------------------------

/// The name in a section header such as `<region>`.
pub open spec fn header_name(token: Seq<char>) -> Option<Seq<char>> {
    if token.len() >= 2 && token[0] == '<' && token.last() == '>' {
        Some(lowered(token.subrange(1, token.len() - 1)))
    } else {
        None
    }
}

/// The name in a section header, in small letters.
pub fn parse_header(token: &Vec<char>) -> (r: Option<Vec<char>>)
    ensures
        (match r {
            Some(name) => header_name(token@) == Some(name@),
            None => header_name(token@) is None,
        }),
{
    let n: usize = token.len();
    if n >= 2 && token[0] == '<' && token[n - 1] == '>' {
        Some(lower(&chars_between(token, 1, n - 1)))
    } else {
        None
    }
}

/// Whether a text holds the character.
pub open spec fn holds(s: Seq<char>, c: char) -> bool {
    text::find_char(s, c) < s.len()
}

/// The tokens of a line's words, and whether a further word would belong to a
/// `sample=` value: the words behind such an opcode, up to the next opcode or
/// header, are part of its value.
pub open spec fn joined_tokens(ws: Seq<Seq<char>>) -> (Seq<Seq<char>>, bool)
    decreases ws.len(),
{
    if ws.len() == 0 {
        (Seq::empty(), false)
    } else {
        let (tokens, open) = joined_tokens(ws.drop_last());
        let w = ws.last();
        if header_name(w) is Some {
            (tokens.push(w), false)
        } else if holds(w, '=') {
            (tokens.push(w), text::begins_with(lowered(w), "sample="@))
        } else if open && tokens.len() > 0 {
            (tokens.drop_last().push(tokens.last() + " "@ + w), open)
        } else {
            (tokens.push(w), open)
        }
    }
}

/// The tokens of a line.
pub open spec fn line_tokens(line: Seq<char>) -> Seq<Seq<char>> {
    joined_tokens(words(line)).0
}

/// The tokens of a line.
pub fn split_sfz_tokens(line: &Vec<char>) -> (r: Vec<Vec<char>>)
    ensures
        text::texts(r@) == line_tokens(line@),
{
    let ws = split_words(line);
    let ghost models = text::texts(ws@);
    let n: usize = ws.len();
    let mut out: Vec<Vec<char>> = Vec::new();
    let mut open = false;
    assert(models.take(0) =~= Seq::empty());
    assert(text::texts(out@) =~= Seq::empty());
    for i in 0..n
        invariant
            n == ws.len(),
            models == text::texts(ws@),
            (text::texts(out@), open) == joined_tokens(models.take(i as int)),
    {
        let w = &ws[i];
        let ghost before = text::texts(out@);
        assert(models.take(i + 1).drop_last() =~= models.take(i as int));
        assert(models[i as int] == w@);
        assert(w@.skip(0) =~= w@);
        let word = chars_between(w, 0, w.len());
        assert(word@ =~= w@);
        if parse_header(w).is_some() {
            open = false;
            out.push(word);
            assert(text::texts(out@) =~= before.push(w@));
        } else if index_of(w, 0, '=') < w.len() {
            open = chars_begin_with(&lower(w), "sample=");
            out.push(word);
            assert(text::texts(out@) =~= before.push(w@));
        } else if open && out.len() > 0 {
            let ghost held = out@;
            let last = out.pop();
            if let Some(mut token) = last {
                assert(before.last() == token@);
                let ghost t = token@;
                token.push(' ');
                append_chars(&mut token, w);
                proof {
                    reveal_strlit(" ");
                    assert(token@ =~= t + " "@ + w@);
                }
                out.push(token);
                assert(text::texts(out@) =~= before.drop_last().push(token@));
            }
        } else {
            out.push(word);
            assert(text::texts(out@) =~= before.push(w@));
        }
    }
    assert(models.take(n as int) =~= models);
    out
}

} // verus!
