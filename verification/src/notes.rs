//! Note names: "F1", "C#3" and plain numbers, to MIDI note numbers and back.

use crate::text::{
    all_digits, chars_of, decimal_i32, digit_char, digit_value, int_text, int_to_string, is_digit,
    is_space, law_decimal_round_trip, lemma_nat_text, lemma_trim_plain, nat_text, parse_i32,
    same_chars, trim, trimmed, unsigned_part,
};
use vstd::prelude::*;
use vstd::slice::slice_subrange;

verus! {

/// The twelve pitch classes, from C up.
pub const NOTE_NAMES: [&'static str; 12] = [
    "C",
    "C#",
    "D",
    "D#",
    "E",
    "F",
    "F#",
    "G",
    "G#",
    "A",
    "A#",
    "B",
];

/// Why a text names no note.
#[derive(Clone, Copy, PartialEq, Eq, Structural, Debug)]
pub enum NoteError {
    /// It does not end in an octave digit.
    BadOctave,
    /// What stands before the octave is no pitch class.
    BadName,
}

/// A letter of a pitch class as the table has it: upper case, and any `s` (the
/// long s too, whose upper case is S) for the sharp sign.
pub open spec fn note_letter(c: char) -> char {
    if c == 's' || c == 'S' || c == '\u{17f}' {
        '#'
    } else if 'a' <= c <= 'g' {
        (c as int - 'a' as int + 'A' as int) as char
    } else {
        c
    }
}

fn letter(c: char) -> (r: char)
    ensures
        r == note_letter(c),
{
    if c == 's' || c == 'S' || c == '\u{17f}' {
        '#'
    } else if 'a' <= c && c <= 'g' {
        let b: u8 = (c as u32 - 32) as u8;
        b as char
    } else {
        c
    }
}

/// The first pitch class at or after `k` that is called `name`.
pub open spec fn class_from(name: Seq<char>, k: int) -> Option<int>
    decreases 12 - k,
{
    if k < 0 || k >= 12 {
        None
    } else if NOTE_NAMES@[k]@ == name {
        Some(k)
    } else {
        class_from(name, k + 1)
    }
}

/// The pitch class that a name stands for, in upper or lower case.
pub open spec fn note_class(name: Seq<char>) -> Option<int> {
    class_from(name.map_values(|c: char| note_letter(c)), 0)
}

/// The MIDI note number that a text names: a number stands for itself, a name
/// is a pitch class and an octave digit, octave 4 holding A = 69.
pub open spec fn note_number(s: Seq<char>) -> Result<i32, NoteError> {
    let t = trimmed(s);
    match decimal_i32(t) {
        Some(n) => Ok(n),
        None => if !is_digit(t.last()) {
            Err(NoteError::BadOctave)
        } else {
            match note_class(t.drop_last()) {
                Some(k) => Ok((k + (digit_value(t.last()) + 1) * 12) as i32),
                None => Err(NoteError::BadName),
            }
        },
    }
}

/// A text that can be taken apart into a name and an octave: it is not blank,
/// and its last character is a single byte.
pub open spec fn has_octave(s: Seq<char>) -> bool {
    &&& trimmed(s).len() > 0
    &&& (trimmed(s).last() as u32) < 128
}

/// Whether a text can be taken apart into a name and an octave.
pub fn can_be_note(s: &str) -> (r: bool)
    ensures
        r == has_octave(s@),
{
    let all = chars_of(s);
    let t = trim(all.as_slice());
    t.len() > 0 && (t[t.len() - 1] as u32) < 128
}

fn class_of(name: &[char]) -> (r: Option<i32>)
    ensures
        match r {
            Some(k) => note_class(name@) == Some(k as int) && 0 <= k < 12,
            None => note_class(name@) is None,
        },
{
    let mut upper: Vec<char> = Vec::new();
    let mut i: usize = 0;
    while i < name.len()
        invariant
            i <= name@.len(),
            upper@.len() == i,
            forall|j: int| 0 <= j < i ==> #[trigger] upper@[j] == note_letter(name@[j]),
        decreases name@.len() - i,
    {
        upper.push(letter(name[i]));
        i = i + 1;
    }
    assert(upper@ =~= name@.map_values(|c: char| note_letter(c)));
    let mut k: usize = 0;
    while k < 12
        invariant
            k <= 12,
            note_class(name@) == class_from(upper@, k as int),
        decreases 12 - k,
    {
        let table = chars_of(NOTE_NAMES[k]);
        if same_chars(table.as_slice(), upper.as_slice()) {
            return Some(k as i32);
        }
        k = k + 1;
    }
    None
}

/// The MIDI note number of "F1", "C#3", "cs3" or "48".
pub fn note_to_midi(s: &str) -> (r: Result<i32, NoteError>)
    requires
        has_octave(s@),
    ensures
        r == note_number(s@),
{
    let all = chars_of(s);
    let t = trim(all.as_slice());
    match parse_i32(t) {
        Some(n) => Ok(n),
        None => {
            let last: usize = t.len() - 1;
            let oct: char = t[last];
            if oct < '0' || oct > '9' {
                return Err(NoteError::BadOctave);
            }
            let octave: i32 = (oct as u32 - 48) as i32;
            let name = slice_subrange(t, 0, last);
            assert(name@ =~= t@.drop_last());
            match class_of(name) {
                Some(k) => Ok(k + (octave + 1) * 12),
                None => Err(NoteError::BadName),
            }
        },
    }
}

/// Division that rounds toward zero.
pub open spec fn div_toward_zero(a: int, b: int) -> int {
    if a >= 0 {
        a / b
    } else {
        -((-a) / b)
    }
}

/// The name of a MIDI note: its pitch class and its octave.
pub open spec fn note_name(m: int) -> Seq<char> {
    NOTE_NAMES@[m % 12]@ + int_text(div_toward_zero(m, 12) - 1)
}

/// The name of a MIDI note number, e.g. "A4" for 69.
pub fn midi_to_name(m: i32) -> (r: String)
    ensures
        r@ == note_name(m as int),
{
    let wide: i64 = m as i64;
    let class: i64 = if wide >= 0 {
        wide % 12
    } else {
        let back: i64 = (-wide) % 12;
        if back == 0 {
            0
        } else {
            12 - back
        }
    };
    let octave: i64 = if wide >= 0 {
        wide / 12 - 1
    } else {
        -((-wide) / 12) - 1
    };
    assert(class == m as int % 12);
    let mut r = String::new();
    r.append(NOTE_NAMES[class as usize]);
    let o = int_to_string(octave as i32);
    r.append(o.as_str());
    assert(r@ =~= note_name(m as int));
    r
}

proof fn lemma_names_read_back(k: int)
    requires
        0 <= k < 12,
    ensures
        1 <= NOTE_NAMES@[k]@.len() <= 2,
        'A' <= NOTE_NAMES@[k]@[0] <= 'G',
        NOTE_NAMES@[k]@.map_values(|c: char| note_letter(c)) == NOTE_NAMES@[k]@,
        class_from(NOTE_NAMES@[k]@, 0) == Some(k),
{
    reveal_strlit("C");
    reveal_strlit("C#");
    reveal_strlit("D");
    reveal_strlit("D#");
    reveal_strlit("E");
    reveal_strlit("F");
    reveal_strlit("F#");
    reveal_strlit("G");
    reveal_strlit("G#");
    reveal_strlit("A");
    reveal_strlit("A#");
    reveal_strlit("B");
    let n = NOTE_NAMES@[k]@;
    assert(n.map_values(|c: char| note_letter(c)) =~= n);
    assert forall|i: int| 0 <= i < k implies #[trigger] NOTE_NAMES@[i]@ != n by {
        let o = NOTE_NAMES@[i]@;
        assert(o.len() != n.len() || o[0] != n[0]);
    }
    lemma_class_first(n, 0, k);
}

proof fn lemma_class_first(name: Seq<char>, from: int, k: int)
    requires
        0 <= from <= k < 12,
        NOTE_NAMES@[k]@ == name,
        forall|i: int| from <= i < k ==> #[trigger] NOTE_NAMES@[i]@ != name,
    ensures
        class_from(name, from) == Some(k),
    decreases k - from,
{
    if from < k {
        lemma_class_first(name, from + 1, k);
    }
}

/// From the lowest note whose octave is a digit to the highest, the name of a
/// note reads back as that note.
pub proof fn law_note_name_round_trip(m: i32)
    requires
        12 <= m <= 131,
    ensures
        has_octave(note_name(m as int)),
        note_number(note_name(m as int)) == Ok::<i32, NoteError>(m),
{
    let k = m as int % 12;
    let o = m as int / 12 - 1;
    lemma_names_read_back(k);
    let n = NOTE_NAMES@[k]@;
    let t = note_name(m as int);
    assert(int_text(o) =~= seq![digit_char(o as nat)]);
    assert(t =~= n.push(digit_char(o as nat)));
    assert(!is_space(t[0]));
    lemma_trim_plain(t);
    assert(t.drop_last() =~= n);
    assert(unsigned_part(t) == t);
    assert(!is_digit(t[0]));
    assert(!all_digits(t));
    assert(decimal_i32(t) is None);
}

/// A number names itself.
pub proof fn law_numbers_name_themselves(n: i32)
    ensures
        note_number(int_text(n as int)) == Ok::<i32, NoteError>(n),
{
    let t = int_text(n as int);
    if n < 0 {
        lemma_nat_text((-n) as nat);
        let d = nat_text((-n) as nat);
        assert(t.last() == d.last());
        assert(is_digit(d[d.len() - 1]));
    } else {
        lemma_nat_text(n as nat);
        assert(is_digit(t[0]) && is_digit(t[t.len() - 1]));
    }
    lemma_trim_plain(t);
    law_decimal_round_trip(n);
}

/// `c` may stand where the table has `t`: it is the same letter in either case, or the sharp
/// sign or any `s` for it.
pub open spec fn is_spelling(c: char, t: char) -> bool {
    ||| c == t
    ||| 'A' <= t <= 'G' && c as int == t as int + 32
    ||| t == '#' && (c == 's' || c == 'S' || c == '\u{17f}')
}

/// A name stands for the pitch class whose letters it spells, in either case and with a sharp
/// sign or an `s`; with an octave digit behind it, it is that class of that octave, octave 4
/// holding the A of number 69. What spells none is a bad name, and what ends in no digit has
/// a bad octave.
pub proof fn law_names_are_read_in_any_spelling(name: Seq<char>, k: int, d: char)
    requires
        0 <= k < 12,
        name.len() > 0,
        !is_space(name[0]),
        !is_space(d),
        !is_digit(name[0]) && name[0] != '+' && name[0] != '-',
    ensures
        ({
            let spells = |j: int|
                name.len() == NOTE_NAMES@[j]@.len() && forall|i: int|
                    0 <= i < name.len() ==> is_spelling(#[trigger] name[i], NOTE_NAMES@[j]@[i]);
            let r = note_number(name.push(d));
            &&& is_digit(d) && spells(k) ==> r == Ok::<i32, NoteError>(
                (k + 12 * (d as int - 48) + 12) as i32,
            )
            &&& is_digit(d) && r is Ok ==> ({
                let j = r->Ok_0 - 12 * (d as int - 47);
                0 <= j < 12 && spells(j)
            })
            &&& is_digit(d) && r is Err ==> r == Err::<i32, NoteError>(NoteError::BadName)
            &&& !is_digit(d) ==> r == Err::<i32, NoteError>(NoteError::BadOctave)
        }),
{
    let t = name.push(d);
    assert(t[0] == name[0]);
    lemma_trim_plain(t);
    assert(unsigned_part(t) == t);
    assert(!all_digits(t));
    assert(t.drop_last() =~= name);
    let mapped = name.map_values(|c: char| note_letter(c));
    lemma_table_letters(k);
    lemma_names_read_back(k);
    if name.len() == NOTE_NAMES@[k]@.len() && forall|i: int|
        0 <= i < name.len() ==> is_spelling(#[trigger] name[i], NOTE_NAMES@[k]@[i]) {
        assert forall|i: int| 0 <= i < name.len() implies #[trigger] mapped[i]
            == NOTE_NAMES@[k]@[i] by {
            assert(is_spelling(name[i], NOTE_NAMES@[k]@[i]));
        }
        assert(mapped =~= NOTE_NAMES@[k]@);
    }
    lemma_class_is_named(mapped, 0);
    if let Some(j) = class_from(mapped, 0) {
        lemma_table_letters(j);
        assert forall|i: int| 0 <= i < name.len() implies is_spelling(
            #[trigger] name[i],
            NOTE_NAMES@[j]@[i],
        ) by {
            assert(mapped[i] == NOTE_NAMES@[j]@[i]);
        }
    }
}

proof fn lemma_class_is_named(name: Seq<char>, from: int)
    requires
        0 <= from <= 12,
    ensures
        class_from(name, from) matches Some(k) ==> 0 <= k < 12 && NOTE_NAMES@[k]@ == name,
    decreases 12 - from,
{
    if from < 12 {
        lemma_class_is_named(name, from + 1);
    }
}

proof fn lemma_table_letters(k: int)
    requires
        0 <= k < 12,
    ensures
        forall|i: int|
            0 <= i < NOTE_NAMES@[k]@.len() ==> #[trigger] NOTE_NAMES@[k]@[i] == '#' || 'A'
                <= NOTE_NAMES@[k]@[i] <= 'G',
{
    reveal_strlit("C");
    reveal_strlit("C#");
    reveal_strlit("D");
    reveal_strlit("D#");
    reveal_strlit("E");
    reveal_strlit("F");
    reveal_strlit("F#");
    reveal_strlit("G");
    reveal_strlit("G#");
    reveal_strlit("A");
    reveal_strlit("A#");
    reveal_strlit("B");
}

/// Twelve notes make an octave: from number 0 up each has the name of its class and the
/// number of its octave, of which the first is -1. Below 0 the classes go on downwards, and
/// the octave is counted from 0 toward the note.
pub proof fn law_twelve_notes_make_an_octave(octave: int, k: int)
    requires
        0 <= k < 12,
        0 <= octave,
    ensures
        note_name(12 * octave + k) == NOTE_NAMES@[k]@ + int_text(octave - 1),
        note_name(-(12 * octave + k)) == NOTE_NAMES@[if k == 0 {
            0
        } else {
            12 - k
        }]@ + int_text(if octave == 0 {
            -1
        } else {
            -octave - 1
        }),
{
    let m = 12 * octave + k;
    assert(m % 12 == k && m / 12 == octave);
    if m > 0 {
        assert((-m) % 12 == if k == 0 {
            0
        } else {
            12 - k
        });
    }
}

} // verus!
