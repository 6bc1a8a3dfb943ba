//! MIDI messages and note names as text, and the choice of a port by number.

use vstd::prelude::*;
use vstd::string::*;

use crate::midi::message::MidiMessage;
use crate::sfz::lexer;
use crate::sfz::lexer::trim;
use crate::sfz::values;
use crate::sfz::values::parse_u64;
use crate::text;
use crate::text::{chars_of, decimal};

verus! {

// ---------------------------------------------------------------------------
// Numbers in columns
// ---------------------------------------------------------------------------

/// A number in decimal, with a minus sign where it is negative.
pub open spec fn integer_text(n: int) -> Seq<char> {
    if n < 0 {
        "-"@ + text::decimal_text((-n) as nat)
    } else {
        text::decimal_text(n as nat)
    }
}

/// A text that is filled up with spaces at its front.
pub open spec fn right_aligned(s: Seq<char>, width: nat) -> Seq<char> {
    if s.len() < width {
        Seq::new((width - s.len()) as nat, |i: int| ' ') + s
    } else {
        s
    }
}

fn integer(n: i64) -> (r: String)
    ensures
        r@ == integer_text(n as int),
{
    if n < 0 {
        let magnitude: u64 = (-(n as i128)) as u64;
        "-".to_owned().concat(decimal(magnitude).as_str())
    } else {
        decimal(n as u64)
    }
}

fn right_align(s: String, width: usize) -> (r: String)
    ensures
        r@ == right_aligned(s@, width as nat),
{
    let n: usize = chars_of(s.as_str()).len();
    if n >= width {
        return s;
    }
    let mut out = String::new();
    let missing: usize = width - n;
    assert(out@ =~= Seq::new(0, |i: int| ' '));
    for i in 0..missing
        invariant
            out@ == Seq::new(i as nat, |i: int| ' '),
    {
        out.push(' ');
        assert(out@ =~= Seq::new((i + 1) as nat, |i: int| ' '));
    }
    out.concat(s.as_str())
}

/// A number at the right of a column.
pub open spec fn column(n: int, width: nat) -> Seq<char> {
    right_aligned(integer_text(n), width)
}

fn column_of(n: i64, width: usize) -> (r: String)
    ensures
        r@ == column(n as int, width as nat),
{
    right_align(integer(n), width)
}

// ---------------------------------------------------------------------------
// Note names
// ---------------------------------------------------------------------------

/// The name of a key within its octave.
pub open spec fn key_name(k: nat) -> Seq<char> {
    if k == 0 {
        "C"@
    } else if k == 1 {
        "C#"@
    } else if k == 2 {
        "D"@
    } else if k == 3 {
        "D#"@
    } else if k == 4 {
        "E"@
    } else if k == 5 {
        "F"@
    } else if k == 6 {
        "F#"@
    } else if k == 7 {
        "G"@
    } else if k == 8 {
        "G#"@
    } else if k == 9 {
        "A"@
    } else if k == 10 {
        "A#"@
    } else {
        "B"@
    }
}

/// The name of a note: its key and its octave, where note 60 is C4.
pub open spec fn note_text(midi: u8) -> Seq<char> {
    key_name((midi % 12) as nat) + integer_text(midi / 12 - 1)
}

/// The name of a note.
pub fn note_name(midi: u8) -> (r: String)
    ensures
        r@ == note_text(midi),
{
    let octave: i64 = midi as i64 / 12 - 1;
    let key = match midi % 12 {
        0 => "C",
        1 => "C#",
        2 => "D",
        3 => "D#",
        4 => "E",
        5 => "F",
        6 => "F#",
        7 => "G",
        8 => "G#",
        9 => "A",
        10 => "A#",
        _ => "B",
    };
    key.to_owned().concat(integer(octave).as_str())
}

// ---------------------------------------------------------------------------
// Messages
// ---------------------------------------------------------------------------

/// A line about a message on one note.
pub open spec fn note_line(
    what: Seq<char>,
    channel: u8,
    note: u8,
    label: Seq<char>,
    value: u8,
) -> Seq<char> {
    what + column(channel + 1, 2) + "  note "@ + column(note as int, 3) + " ("@ + note_text(note)
        + label + column(value as int, 3)
}

/// The line that shows a message; none for `Other`. Channels are counted from
/// 1.
pub open spec fn event_text(msg: MidiMessage) -> Option<Seq<char>> {
    match msg {
        MidiMessage::NoteOn { channel, note, velocity } => Some(
            note_line("  note on   ch "@, channel, note, ")  vel "@, velocity),
        ),
        MidiMessage::NoteOff { channel, note, velocity } => Some(
            note_line("  note off  ch "@, channel, note, ")  vel "@, velocity),
        ),
        MidiMessage::ControlChange { channel, cc, value } => Some(
            "  cc        ch "@ + column(channel + 1, 2) + "  cc   "@ + column(cc as int, 3)
                + "        val "@ + column(value as int, 3),
        ),
        MidiMessage::PitchBend { channel, value } => Some(
            "  pitch     ch "@ + column(channel + 1, 2) + "                   val "@ + column(
                value as int,
                6,
            ),
        ),
        MidiMessage::ChannelPressure { channel, value } => Some(
            "  ch press  ch "@ + column(channel + 1, 2) + "                   val "@ + column(
                value as int,
                3,
            ),
        ),
        MidiMessage::PolyAftertouch { channel, note, value } => Some(
            note_line("  poly at   ch "@, channel, note, ")  val "@, value),
        ),
        MidiMessage::ProgramChange { channel, program } => Some(
            "  prog      ch "@ + column(channel + 1, 2) + "                   prog "@ + column(
                program as int,
                3,
            ),
        ),
        MidiMessage::Other => None,
    }
}

fn write_note_line(what: &str, channel: u8, note: u8, label: &str, value: u8) -> (r: String)
    ensures
        r@ == note_line(what@, channel, note, label@, value),
{
    what.to_owned().concat(column_of(channel as i64 + 1, 2).as_str()).concat("  note ").concat(
        column_of(note as i64, 3).as_str(),
    ).concat(" (").concat(note_name(note).as_str()).concat(label).concat(
        column_of(value as i64, 3).as_str(),
    )
}

/// The line that shows a message; none for `Other`.
pub fn event_line(msg: MidiMessage) -> (r: Option<String>)
    ensures
        (match r {
            Some(line) => event_text(msg) == Some(line@),
            None => event_text(msg) is None,
        }),
{
    match msg {
        MidiMessage::NoteOn { channel, note, velocity } => Some(
            write_note_line("  note on   ch ", channel, note, ")  vel ", velocity),
        ),
        MidiMessage::NoteOff { channel, note, velocity } => Some(
            write_note_line("  note off  ch ", channel, note, ")  vel ", velocity),
        ),
        MidiMessage::ControlChange { channel, cc, value } => Some(
            "  cc        ch ".to_owned().concat(column_of(channel as i64 + 1, 2).as_str()).concat(
                "  cc   ",
            ).concat(column_of(cc as i64, 3).as_str()).concat("        val ").concat(
                column_of(value as i64, 3).as_str(),
            ),
        ),
        MidiMessage::PitchBend { channel, value } => Some(
            "  pitch     ch ".to_owned().concat(column_of(channel as i64 + 1, 2).as_str()).concat(
                "                   val ",
            ).concat(column_of(value as i64, 6).as_str()),
        ),
        MidiMessage::ChannelPressure { channel, value } => Some(
            "  ch press  ch ".to_owned().concat(column_of(channel as i64 + 1, 2).as_str()).concat(
                "                   val ",
            ).concat(column_of(value as i64, 3).as_str()),
        ),
        MidiMessage::PolyAftertouch { channel, note, value } => Some(
            write_note_line("  poly at   ch ", channel, note, ")  val ", value),
        ),
        MidiMessage::ProgramChange { channel, program } => Some(
            "  prog      ch ".to_owned().concat(column_of(channel as i64 + 1, 2).as_str()).concat(
                "                   prog ",
            ).concat(column_of(program as i64, 3).as_str()),
        ),
        MidiMessage::Other => None,
    }
}

// ---------------------------------------------------------------------------
// Choosing by number
// ---------------------------------------------------------------------------

/// What a typed line chooses out of a list.
#[derive(Debug, Clone, Copy, PartialEq, Eq, Structural)]
pub enum Choice {
    /// The item at an index.
    Index(usize),
    /// A number beyond the list.
    OutOfRange,
}

/// The number that a line holds; 0 where it holds none.
pub open spec fn typed_number(line: Seq<char>) -> nat {
    match values::nat_value(lexer::trimmed(line)) {
        Some(n) => if n <= usize::MAX {
            n
        } else {
            0
        },
        None => 0,
    }
}

/// What a line chooses out of `max` items: the first where it is blank.
pub open spec fn choice_of(line: Seq<char>, max: usize) -> Choice {
    if lexer::trimmed(line).len() == 0 {
        Choice::Index(0)
    } else if typed_number(line) >= max {
        Choice::OutOfRange
    } else {
        Choice::Index(typed_number(line) as usize)
    }
}

/// What a line chooses out of `max` items: the first where it is blank or no
/// number.
pub fn choose_index(line: &str, max: usize) -> (r: Choice)
    ensures
        r == choice_of(line@, max),
{
    let t = trim(&chars_of(line));
    if t.len() == 0 {
        return Choice::Index(0);
    }
    let n: usize = match parse_u64(&t) {
        Some(n) => if n <= usize::MAX as u64 {
            n as usize
        } else {
            0
        },
        None => 0,
    };
    if n >= max {
        Choice::OutOfRange
    } else {
        Choice::Index(n)
    }
}

// ---------------------------------------------------------------------------
// Laws
// ---------------------------------------------------------------------------

/// Reading a number in decimal gives the number back.
pub proof fn law_decimal_is_read_back(n: nat)
    ensures
        values::digits_value(text::decimal_text(n)) == Some(n),
        text::decimal_text(n).len() > 0,
        values::is_digit(text::decimal_text(n)[0]),
        values::is_digit(text::decimal_text(n).last()),
    decreases n,
{
    let s = text::decimal_text(n);
    if n >= 10 {
        law_decimal_is_read_back(n / 10);
        let before = text::decimal_text(n / 10);
        assert(s.drop_last() =~= before);
        assert(s[0] == before[0]);
        assert(s.last() as u32 - 0x30 == n % 10);
    } else {
        assert(s.last() as u32 - 0x30 == n);
    }
}

/// Reading an integer gives it back.
pub proof fn law_integer_is_read_back(n: int)
    ensures
        values::int_value(integer_text(n)) == Some(n),
{
    reveal_strlit("-");
    if n < 0 {
        law_decimal_is_read_back((-n) as nat);
        assert(integer_text(n).skip(1) =~= text::decimal_text((-n) as nat));
    } else {
        law_decimal_is_read_back(n as nat);
    }
}

proof fn lemma_no_number(s: Seq<char>)
    requires
        s.len() > 0,
        !values::is_digit(s[0]),
        s[0] != '-',
        s[0] != '+',
    ensures
        values::int_value(s) is None,
{
    assert(s.take(1).last() == s[0]);
    values::lemma_digits_prefix(s, 1);
}

/// The name of a note is read as that note.
pub proof fn law_note_name_is_read_back(midi: u8)
    requires
        midi <= 127,
    ensures
        values::note_value(note_text(midi)) == Some(midi),
{
    let octave = midi / 12 - 1;
    let digits = integer_text(octave);
    let key = key_name((midi % 12) as nat);
    let s = note_text(midi);
    reveal_strlit("C");
    reveal_strlit("C#");
    reveal_strlit("D");
    reveal_strlit("D#");
    reveal_strlit("E");
    reveal_strlit("F");
    reveal_strlit("F#");
    reveal_strlit("G");
    reveal_strlit("G#");
    reveal_strlit("A");
    reveal_strlit("A#");
    reveal_strlit("B");
    reveal_strlit("-");
    law_integer_is_read_back(octave);
    if octave < 0 {
        law_decimal_is_read_back((-octave) as nat);
    } else {
        law_decimal_is_read_back(octave as nat);
    }
    let sharp = key.len() == 2;
    let k: int = if sharp {
        1
    } else {
        0
    };
    assert(s[0] == key[0]);
    assert(s.last() == digits.last());
    assert(lexer::trim_front(s) == s);
    assert(lexer::trimmed(s) == s);
    lemma_no_number(s);
    assert(s.skip(1 + k) =~= digits);
    assert(digits[0] != '#' && digits[0] != 'b');
    if sharp {
        assert(s.skip(1)[0] == '#');
        assert(s.skip(1).skip(1) =~= digits);
        assert(values::accidentals(digits) == 0);
        assert(values::accidentals(s.skip(1)) == 1);
        let mark = s.subrange(1, 2);
        assert(mark.len() == 1 && mark.last() == '#');
        assert(mark.drop_last().len() == 0);
        assert(values::accidental_sum(mark.drop_last()) == 0);
        assert(values::accidental_sum(mark) == 1);
    } else {
        assert(s.skip(1) =~= digits);
        assert(values::accidentals(s.skip(1)) == 0);
        assert(values::accidental_sum(s.subrange(1, 1)) == 0);
    }
}

/// Whether a text ends in another.
pub open spec fn ends_in(s: Seq<char>, end: Seq<char>) -> bool {
    s.len() >= end.len() && s.skip(s.len() - end.len()) == end
}

/// Whether a text stands in another, from some index on.
pub open spec fn stands_at(s: Seq<char>, i: int, part: Seq<char>) -> bool {
    0 <= i && i + part.len() <= s.len() && s.subrange(i, i + part.len()) == part
}

proof fn lemma_aligned(s: Seq<char>, width: nat)
    ensures
        ends_in(right_aligned(s, width), s),
        s.len() <= width ==> right_aligned(s, width).len() == width,
{
    let r = right_aligned(s, width);
    assert(r.skip(r.len() - s.len()) =~= s);
}

proof fn lemma_ends_in(a: Seq<char>, b: Seq<char>, end: Seq<char>)
    requires
        ends_in(b, end),
    ensures
        ends_in(a + b, end),
{
    assert((a + b).skip((a + b).len() - end.len()) =~= b.skip(b.len() - end.len()));
}

/// The line for a message ends in its last number: the velocity of a note, the value of a
/// controller, of the wheel or of pressure, the program. Its channel stands in it counted
/// from 1, at one place in all lines; and what is unknown has no line.
pub proof fn law_line_shows_the_message(channel: u8, a: u8, b: u8, wheel: i16)
    requires
        channel < 16,
    ensures
        ({
            let on = event_text(MidiMessage::NoteOn { channel, note: a, velocity: b });
            let off = event_text(MidiMessage::NoteOff { channel, note: a, velocity: b });
            let cc = event_text(MidiMessage::ControlChange { channel, cc: a, value: b });
            let bend = event_text(MidiMessage::PitchBend { channel, value: wheel });
            let press = event_text(MidiMessage::ChannelPressure { channel, value: b });
            let poly = event_text(MidiMessage::PolyAftertouch { channel, note: a, value: b });
            let prog = event_text(MidiMessage::ProgramChange { channel, program: b });
            let shown = column(channel + 1, 2);
            &&& on is Some && ends_in(on->0, integer_text(b as int)) && stands_at(on->0, 15, shown)
            &&& off is Some && ends_in(off->0, integer_text(b as int)) && stands_at(
                off->0,
                15,
                shown,
            )
            &&& cc is Some && ends_in(cc->0, integer_text(b as int)) && stands_at(cc->0, 15, shown)
            &&& bend is Some && ends_in(bend->0, integer_text(wheel as int)) && stands_at(
                bend->0,
                15,
                shown,
            )
            &&& press is Some && ends_in(press->0, integer_text(b as int)) && stands_at(
                press->0,
                15,
                shown,
            )
            &&& poly is Some && ends_in(poly->0, integer_text(b as int)) && stands_at(
                poly->0,
                15,
                shown,
            )
            &&& prog is Some && ends_in(prog->0, integer_text(b as int)) && stands_at(
                prog->0,
                15,
                shown,
            )
            &&& event_text(MidiMessage::Other) is None
        }),
{
    reveal_strlit("  note on   ch ");
    reveal_strlit("  note off  ch ");
    reveal_strlit("  cc        ch ");
    reveal_strlit("  pitch     ch ");
    reveal_strlit("  ch press  ch ");
    reveal_strlit("  poly at   ch ");
    reveal_strlit("  prog      ch ");
    let shown = column(channel + 1, 2);
    let value = column(b as int, 3);
    let turn = column(wheel as int, 6);
    lemma_aligned(integer_text(b as int), 3);
    lemma_aligned(integer_text(wheel as int), 6);
    let note = "  note "@ + column(a as int, 3) + " ("@ + note_text(a);
    let on = event_text(MidiMessage::NoteOn { channel, note: a, velocity: b })->0;
    let off = event_text(MidiMessage::NoteOff { channel, note: a, velocity: b })->0;
    let cc = event_text(MidiMessage::ControlChange { channel, cc: a, value: b })->0;
    let bend = event_text(MidiMessage::PitchBend { channel, value: wheel })->0;
    let press = event_text(MidiMessage::ChannelPressure { channel, value: b })->0;
    let poly = event_text(MidiMessage::PolyAftertouch { channel, note: a, value: b })->0;
    let prog = event_text(MidiMessage::ProgramChange { channel, program: b })->0;
    lemma_ends_in(on.take(on.len() - value.len()), value, integer_text(b as int));
    assert(on.take(on.len() - value.len()) + value =~= on);
    lemma_ends_in(off.take(off.len() - value.len()), value, integer_text(b as int));
    assert(off.take(off.len() - value.len()) + value =~= off);
    lemma_ends_in(cc.take(cc.len() - value.len()), value, integer_text(b as int));
    assert(cc.take(cc.len() - value.len()) + value =~= cc);
    lemma_ends_in(bend.take(bend.len() - turn.len()), turn, integer_text(wheel as int));
    assert(bend.take(bend.len() - turn.len()) + turn =~= bend);
    lemma_ends_in(press.take(press.len() - value.len()), value, integer_text(b as int));
    assert(press.take(press.len() - value.len()) + value =~= press);
    lemma_ends_in(poly.take(poly.len() - value.len()), value, integer_text(b as int));
    assert(poly.take(poly.len() - value.len()) + value =~= poly);
    lemma_ends_in(prog.take(prog.len() - value.len()), value, integer_text(b as int));
    assert(prog.take(prog.len() - value.len()) + value =~= prog);
    assert(on.subrange(15, 15int + shown.len()) =~= shown);
    assert(off.subrange(15, 15int + shown.len()) =~= shown);
    assert(cc.subrange(15, 15int + shown.len()) =~= shown);
    assert(bend.subrange(15, 15int + shown.len()) =~= shown);
    assert(press.subrange(15, 15int + shown.len()) =~= shown);
    assert(poly.subrange(15, 15int + shown.len()) =~= shown);
    assert(prog.subrange(15, 15int + shown.len()) =~= shown);
}

/// A typed number chooses the item with that number, where there is one, whatever white
/// space stands round it; a blank line and what is no number choose the first.
pub proof fn law_typed_number_is_chosen(line: Seq<char>, max: usize)
    requires
        max > 0,
    ensures
        ({
            let t = lexer::trimmed(line);
            &&& t.len() == 0 ==> choice_of(line, max) == Choice::Index(0)
            &&& t.len() > 0 && values::nat_value(t) is None ==> choice_of(line, max)
                == Choice::Index(0)
            &&& t.len() > 0 ==> (values::nat_value(t) matches Some(n) ==> {
                &&& n < max ==> choice_of(line, max) == Choice::Index(n as usize)
                &&& max <= n <= usize::MAX ==> choice_of(line, max) == Choice::OutOfRange
            })
        }),
{
}

} // verus!
