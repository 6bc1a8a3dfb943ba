//! Values of SFZ opcodes: integers and note names.

use vstd::prelude::*;

use crate::sfz::lexer;
use crate::sfz::lexer::{lower, trim};
use crate::text::{chars_between, chars_of, spells};

verus! {

// ---------------------------------------------------------------------------
// Integers
// ---------------------------------------------------------------------------

/// Whether a character is an ASCII digit.
pub open spec fn is_digit(c: char) -> bool {
    0x30 <= c as u32 <= 0x39
}

/// The number that a sequence of digits stands for; nothing where it is empty
/// or holds something else.
pub open spec fn digits_value(s: Seq<char>) -> Option<nat>
    decreases s.len(),
{
    if s.len() == 0 {
        None
    } else if !is_digit(s.last()) {
        None
    } else if s.len() == 1 {
        Some((s.last() as u32 - 0x30) as nat)
    } else {
        match digits_value(s.drop_last()) {
            Some(n) => Some((n * 10 + (s.last() as u32 - 0x30)) as nat),
            None => None,
        }
    }
}

/// The integer that a text stands for: digits, with a sign before them or not.
pub open spec fn int_value(s: Seq<char>) -> Option<int> {
    if s.len() > 0 && s[0] == '-' {
        match digits_value(s.skip(1)) {
            Some(n) => Some(-(n as int)),
            None => None,
        }
    } else if s.len() > 0 && s[0] == '+' {
        match digits_value(s.skip(1)) {
            Some(n) => Some(n as int),
            None => None,
        }
    } else {
        match digits_value(s) {
            Some(n) => Some(n as int),
            None => None,
        }
    }
}

/// The natural number that a text stands for: digits, with a plus sign before
/// them or not.
pub open spec fn nat_value(s: Seq<char>) -> Option<nat> {
    if s.len() > 0 && s[0] == '+' {
        digits_value(s.skip(1))
    } else {
        digits_value(s)
    }
}

/// What digits turned out to be.
enum Digits {
    /// No number.
    Not,
    /// A number too great to hold.
    Great,
    Number(u64),
}

spec fn digits_are(s: Seq<char>, d: Digits) -> bool {
    match d {
        Digits::Not => digits_value(s) is None,
        Digits::Great => digits_value(s) matches Some(n) && n > u64::MAX,
        Digits::Number(v) => digits_value(s) == Some(v as nat),
    }
}

/// Where the first digits are no number, all are none.
pub proof fn lemma_digits_prefix(s: Seq<char>, k: int)
    requires
        1 <= k <= s.len(),
        digits_value(s.take(k)) is None,
    ensures
        digits_value(s) is None,
    decreases s.len() - k,
{
    if k < s.len() {
        assert(s.take(k + 1).drop_last() =~= s.take(k));
        lemma_digits_prefix(s, k + 1);
    } else {
        assert(s.take(k) =~= s);
    }
}

fn read_digits(cs: &Vec<char>, from: usize) -> (r: Digits)
    requires
        from <= cs.len(),
    ensures
        digits_are(cs@.skip(from as int), r),
{
    let ghost s = cs@.skip(from as int);
    let n: usize = cs.len();
    if from == n {
        return Digits::Not;
    }
    let mut acc = Digits::Not;
    for i in from..n
        invariant
            n == cs.len(),
            from < n,
            s == cs@.skip(from as int),
            acc is Not <==> i == from,
            i > from ==> digits_are(s.take(i - from), acc),
    {
        let c: u32 = cs[i] as u32;
        let ghost here = s.take(i - from + 1);
        assert(here.drop_last() =~= s.take(i - from));
        assert(here.last() == cs@[i as int]);
        if !(0x30 <= c && c <= 0x39) {
            proof {
                assert(digits_value(here) is None);
                lemma_digits_prefix(s, i - from + 1);
            }
            return Digits::Not;
        }
        let d: u64 = (c - 0x30) as u64;
        acc = match acc {
            Digits::Not => Digits::Number(d),
            Digits::Great => Digits::Great,
            Digits::Number(v) => {
                if v > 1844674407370955161 || (v == 1844674407370955161 && d > 5) {
                    Digits::Great
                } else {
                    Digits::Number(v * 10 + d)
                }
            },
        };
        proof {
            assert(d == here.last() as u32 - 0x30);
            if i > from {
                let m = digits_value(here.drop_last())->0;
                assert(here.len() > 1);
                assert(digits_value(here) == Some((m * 10 + d) as nat));
                assert(digits_are(here, acc));
            } else {
                assert(here.len() == 1);
                assert(digits_value(here) == Some(d as nat));
                assert(digits_are(here, acc));
            }
        }
    }
    assert(s.take(n - from) =~= s);
    acc
}

/// An integer, or which side of the range it lies on.
enum Whole {
    Not,
    Below,
    Above,
    Within(i128),
}

spec fn whole_is(s: Seq<char>, w: Whole) -> bool {
    match w {
        Whole::Not => int_value(s) is None,
        Whole::Below => int_value(s) matches Some(n) && n < -(u64::MAX as int),
        Whole::Above => int_value(s) matches Some(n) && n > u64::MAX,
        Whole::Within(v) => int_value(s) == Some(v as int) && -(u64::MAX as int) <= v <= u64::MAX,
    }
}

fn read_whole(cs: &Vec<char>) -> (r: Whole)
    ensures
        whole_is(cs@, r),
{
    assert(cs@.skip(0) =~= cs@);
    let n: usize = cs.len();
    if n > 0 && cs[0] == '-' {
        match read_digits(cs, 1) {
            Digits::Not => Whole::Not,
            Digits::Great => Whole::Below,
            Digits::Number(v) => Whole::Within(-(v as i128)),
        }
    } else {
        let from: usize = if n > 0 && cs[0] == '+' {
            1
        } else {
            0
        };
        match read_digits(cs, from) {
            Digits::Not => Whole::Not,
            Digits::Great => Whole::Above,
            Digits::Number(v) => Whole::Within(v as i128),
        }
    }
}

/// A value as an `i8`; nothing where it is no integer or out of range.
pub open spec fn i8_value(s: Seq<char>) -> Option<i8> {
    match int_value(s) {
        Some(n) => if i8::MIN <= n <= i8::MAX {
            Some(n as i8)
        } else {
            None
        },
        None => None,
    }
}

/// A value as a `u8`; nothing where it is no natural number or out of range.
pub open spec fn u8_value(s: Seq<char>) -> Option<u8> {
    match nat_value(s) {
        Some(n) => if n <= u8::MAX {
            Some(n as u8)
        } else {
            None
        },
        None => None,
    }
}

/// A value as a `u64`; nothing where it is no natural number or out of range.
pub open spec fn u64_value(s: Seq<char>) -> Option<u64> {
    match nat_value(s) {
        Some(n) => if n <= u64::MAX {
            Some(n as u64)
        } else {
            None
        },
        None => None,
    }
}

pub fn parse_i8(cs: &Vec<char>) -> (r: Option<i8>)
    ensures
        r == i8_value(cs@),
{
    match read_whole(cs) {
        Whole::Within(v) => if -128 <= v && v <= 127 {
            Some(v as i8)
        } else {
            None
        },
        _ => None,
    }
}

pub fn parse_u64(cs: &Vec<char>) -> (r: Option<u64>)
    ensures
        r == u64_value(cs@),
{
    assert(cs@.skip(0) =~= cs@);
    let from: usize = if cs.len() > 0 && cs[0] == '+' {
        1
    } else {
        0
    };
    match read_digits(cs, from) {
        Digits::Number(v) => Some(v),
        _ => None,
    }
}

pub fn parse_u8(cs: &Vec<char>) -> (r: Option<u8>)
    ensures
        r == u8_value(cs@),
{
    match parse_u64(cs) {
        Some(v) => if v <= 255 {
            Some(v as u8)
        } else {
            None
        },
        None => None,
    }
}

// ---------------------------------------------------------------------------
// Real numbers
// ---------------------------------------------------------------------------

/// How many digits stand at the front of a text.
pub open spec fn digit_run(s: Seq<char>) -> nat
    decreases s.len(),
{
    if s.len() > 0 && is_digit(s[0]) {
        1 + digit_run(s.skip(1))
    } else {
        0
    }
}

/// A text without a sign at its front.
pub open spec fn without_sign(s: Seq<char>) -> Seq<char> {
    if s.len() > 0 && (s[0] == '+' || s[0] == '-') {
        s.skip(1)
    } else {
        s
    }
}

/// Whether a text is an exponent, or nothing: `e` in either size, a sign or
/// none, and digits.
pub open spec fn is_exponent(s: Seq<char>) -> bool {
    s.len() == 0 || ((s[0] == 'e' || s[0] == 'E') && {
        let digits = without_sign(s.skip(1));
        digits.len() > 0 && digit_run(digits) == digits.len()
    })
}

/// Whether a text is a number without a sign: digits, with a dot among them or
/// at either end, and an exponent or none.
pub open spec fn is_decimal(s: Seq<char>) -> bool {
    let whole = digit_run(s);
    let rest = s.skip(whole as int);
    if rest.len() > 0 && rest[0] == '.' {
        let fraction = digit_run(rest.skip(1));
        whole + fraction > 0 && is_exponent(rest.skip(1 + fraction as int))
    } else {
        whole > 0 && is_exponent(rest)
    }
}

/// Whether a text stands for a real number: a sign or none, and a decimal
/// number, or `inf`, `infinity` or `nan` in letters of any size.
pub open spec fn is_real(s: Seq<char>) -> bool {
    let t = without_sign(s);
    let word = lexer::lowered(t);
    word == "inf"@ || word == "infinity"@ || word == "nan"@ || is_decimal(t)
}

/// The index behind the digits that stand from `from` on.
fn behind_digits(cs: &Vec<char>, from: usize) -> (r: usize)
    requires
        from <= cs.len(),
    ensures
        from <= r <= cs.len(),
        r == from + digit_run(cs@.skip(from as int)),
{
    let n: usize = cs.len();
    let mut i: usize = from;
    while i < n && 0x30 <= cs[i] as u32 && cs[i] as u32 <= 0x39
        invariant
            n == cs.len(),
            from <= i <= n,
            i + digit_run(cs@.skip(i as int)) == from + digit_run(cs@.skip(from as int)),
        decreases n - i,
    {
        assert(cs@.skip(i as int).skip(1) =~= cs@.skip(i + 1));
        i = i + 1;
    }
    i
}

/// Whether what stands from `from` on is an exponent, or nothing.
fn exponent_at(cs: &Vec<char>, from: usize) -> (r: bool)
    requires
        from <= cs.len(),
    ensures
        r == is_exponent(cs@.skip(from as int)),
{
    let n: usize = cs.len();
    let ghost s = cs@.skip(from as int);
    if from == n {
        return true;
    }
    if cs[from] != 'e' && cs[from] != 'E' {
        return false;
    }
    assert(s.skip(1) =~= cs@.skip(from + 1));
    let mut at: usize = from + 1;
    if at < n && (cs[at] == '+' || cs[at] == '-') {
        assert(s.skip(1).skip(1) =~= cs@.skip(from + 2));
        at = at + 1;
    }
    assert(without_sign(s.skip(1)) == cs@.skip(at as int));
    at < n && behind_digits(cs, at) == n
}

/// Whether a text stands for a real number.
pub fn reads_as_real(cs: &Vec<char>) -> (r: bool)
    ensures
        r == is_real(cs@),
{
    let n: usize = cs.len();
    let from: usize = if n > 0 && (cs[0] == '+' || cs[0] == '-') {
        1
    } else {
        0
    };
    assert(cs@.skip(0) =~= cs@);
    let t = chars_between(cs, from, n);
    assert(t@ =~= cs@.skip(from as int));
    assert(t@ == without_sign(cs@));
    let word = lower(&t);
    if spells(&word, "inf") || spells(&word, "infinity") || spells(&word, "nan") {
        return true;
    }
    assert(t@.skip(0) =~= t@);
    let whole = behind_digits(&t, 0);
    let m: usize = t.len();
    let ghost rest = t@.skip(whole as int);
    if whole < m && t[whole] == '.' {
        assert(rest.skip(1) =~= t@.skip(whole + 1));
        let end = behind_digits(&t, whole + 1);
        assert(rest.skip(end - whole) =~= t@.skip(end as int));
        end > 1 && exponent_at(&t, end)
    } else {
        whole > 0 && exponent_at(&t, whole)
    }
}

// ---------------------------------------------------------------------------
// Notes
// ---------------------------------------------------------------------------

/// How many semitones a note letter lies above C.
pub open spec fn letter_semitones(c: char) -> Option<int> {
    match lexer::small(c) {
        'c' => Some(0),
        'd' => Some(2),
        'e' => Some(4),
        'f' => Some(5),
        'g' => Some(7),
        'a' => Some(9),
        'b' => Some(11),
        _ => None,
    }
}

/// How many sharps and flats stand at the front of a text.
pub open spec fn accidentals(s: Seq<char>) -> nat
    decreases s.len(),
{
    if s.len() > 0 && (s[0] == '#' || s[0] == 'b') {
        1 + accidentals(s.skip(1))
    } else {
        0
    }
}

/// What sharps and flats add up to.
pub open spec fn accidental_sum(s: Seq<char>) -> int
    decreases s.len(),
{
    if s.len() == 0 {
        0
    } else {
        accidental_sum(s.drop_last()) + if s.last() == '#' {
            1int
        } else {
            -1int
        }
    }
}

/// A note number, where it is one.
pub open spec fn midi_note(n: int) -> Option<u8> {
    if 0 <= n <= 127 {
        Some(n as u8)
    } else {
        None
    }
}

/// The note that a name stands for: a letter, sharps and flats, and an octave,
/// where C4 is note 60.
pub open spec fn named_note(s: Seq<char>) -> Option<u8> {
    if s.len() == 0 {
        None
    } else {
        let k = accidentals(s.skip(1));
        match (letter_semitones(s[0]), int_value(s.skip(1 + k as int))) {
            (Some(letter), Some(octave)) => midi_note(
                (octave + 1) * 12 + letter + accidental_sum(s.subrange(1, 1 + k as int)),
            ),
            _ => None,
        }
    }
}

/// The note that a value stands for: a number or a name.
pub open spec fn note_value(s: Seq<char>) -> Option<u8> {
    let t = lexer::trimmed(s);
    match int_value(t) {
        Some(n) => midi_note(n),
        None => named_note(t),
    }
}

/// The note that a name stands for.
pub fn parse_note_name(cs: &Vec<char>) -> (r: Option<u8>)
    ensures
        r == named_note(cs@),
{
    let n: usize = cs.len();
    if n == 0 {
        return None;
    }
    let first = lower(&chars_between(cs, 0, 1));
    assert(first@[0] == lexer::small(cs@[0]));
    let letter: i128 = match first[0] {
        'c' => 0,
        'd' => 2,
        'e' => 4,
        'f' => 5,
        'g' => 7,
        'a' => 9,
        'b' => 11,
        _ => {
            return None;
        },
    };
    let mut i: usize = 1;
    let mut sum: i128 = 0;
    let ghost tail = cs@.skip(1);
    assert(tail.skip(0) =~= tail);
    while i < n && (cs[i] == '#' || cs[i] == 'b')
        invariant
            n == cs.len(),
            1 <= i <= n,
            tail == cs@.skip(1),
            (i - 1) + accidentals(tail.skip(i - 1)) == accidentals(tail),
            sum == accidental_sum(cs@.subrange(1, i as int)),
            -(i as int) <= sum <= i,
        decreases n - i,
    {
        assert(tail.skip(i - 1).skip(1) =~= tail.skip(i as int));
        assert(cs@.subrange(1, i + 1).drop_last() =~= cs@.subrange(1, i as int));
        sum = if cs[i] == '#' {
            sum + 1
        } else {
            sum - 1
        };
        i = i + 1;
    }
    assert(accidentals(tail) == i - 1);
    let rest = chars_between(cs, i, n);
    assert(rest@ =~= cs@.skip(i as int));
    match read_whole(&rest) {
        Whole::Within(octave) => {
            let note: i128 = (octave + 1) * 12 + letter + sum;
            if 0 <= note && note <= 127 {
                Some(note as u8)
            } else {
                None
            }
        },
        _ => None,
    }
}

/// Reads a value that is a MIDI number or a note name such as `c4`, `c#3` or
/// `eb-1`.
pub fn parse_note(s: &str) -> (r: Option<u8>)
    ensures
        r == note_value(s@),
{
    note_of(&chars_of(s))
}

pub(crate) fn note_of(cs: &Vec<char>) -> (r: Option<u8>)
    ensures
        r == note_value(cs@),
{
    let t = trim(cs);
    match read_whole(&t) {
        Whole::Not => parse_note_name(&t),
        Whole::Within(v) => if 0 <= v && v <= 127 {
            Some(v as u8)
        } else {
            None
        },
        _ => None,
    }
}

} // verus!
