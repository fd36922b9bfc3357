//! Note names and note occurrences.
//!
//! A note name is scientific pitch: letter A–G (case-insensitive), optional
//! `#` or `b`, integer octave (negative allowed). MIDI 60 is `C4`.

use vstd::prelude::*;
use crate::message::MidiMessage;
use crate::text::chars_of;

verus! {

/// Whether `c` is white space: the Unicode `White_Space` property, which is
/// what `str::trim` removes.
pub open spec fn is_space(c: char) -> bool {
    ||| '\u{9}' <= c <= '\u{d}'
    ||| c == ' '
    ||| c == '\u{85}'
    ||| c == '\u{a0}'
    ||| c == '\u{1680}'
    ||| '\u{2000}' <= c <= '\u{200a}'
    ||| c == '\u{2028}'
    ||| c == '\u{2029}'
    ||| c == '\u{202f}'
    ||| c == '\u{205f}'
    ||| c == '\u{3000}'
}

/// `s` without its leading white space.
pub open spec fn trim_start(s: Seq<char>) -> Seq<char>
    decreases s.len(),
{
    if s.len() > 0 && is_space(s[0]) {
        trim_start(s.drop_first())
    } else {
        s
    }
}

/// `s` without its trailing white space.
pub open spec fn trim_end(s: Seq<char>) -> Seq<char>
    decreases s.len(),
{
    if s.len() > 0 && is_space(s.last()) {
        trim_end(s.drop_last())
    } else {
        s
    }
}

/// `s` without leading or trailing white space.
pub open spec fn trim(s: Seq<char>) -> Seq<char> {
    trim_end(trim_start(s))
}

/// The semitone a note letter names above C, either case.
pub open spec fn semitone(c: char) -> Option<int> {
    if c == 'C' || c == 'c' {
        Some(0)
    } else if c == 'D' || c == 'd' {
        Some(2)
    } else if c == 'E' || c == 'e' {
        Some(4)
    } else if c == 'F' || c == 'f' {
        Some(5)
    } else if c == 'G' || c == 'g' {
        Some(7)
    } else if c == 'A' || c == 'a' {
        Some(9)
    } else if c == 'B' || c == 'b' {
        Some(11)
    } else {
        None
    }
}

/// Whether every character of `s` is an ASCII digit.
pub open spec fn all_digits(s: Seq<char>) -> bool {
    forall|i: int| 0 <= i < s.len() ==> '0' <= #[trigger] s[i] <= '9'
}

/// The number the decimal digits `s` spell.
pub open spec fn digits_value(s: Seq<char>) -> int
    decreases s.len(),
{
    if s.len() == 0 {
        0
    } else {
        digits_value(s.drop_last()) * 10 + (s.last() as int - '0' as int)
    }
}

/// `s` read as an `i32`, the way `str::parse::<i32>` reads it: an optional
/// `+` or `-`, then at least one ASCII digit and nothing else, in range.
pub open spec fn parse_i32(s: Seq<char>) -> Option<int> {
    let negative = s.len() > 0 && s[0] == '-';
    let digits = if s.len() > 0 && (s[0] == '-' || s[0] == '+') {
        s.drop_first()
    } else {
        s
    };
    let value = if negative {
        -digits_value(digits)
    } else {
        digits_value(digits)
    };
    if digits.len() == 0 || !all_digits(digits) || value < i32::MIN || value > i32::MAX {
        None
    } else {
        Some(value)
    }
}

/// The MIDI number a trimmed note name names, if it parses at all.
pub open spec fn pitch(t: Seq<char>) -> Option<int> {
    if t.len() == 0 {
        None
    } else {
        match semitone(t[0]) {
            None => None,
            Some(s) => {
                let rest = t.drop_first();
                let accidental = if rest.len() > 0 && rest[0] == '#' {
                    1int
                } else if rest.len() > 0 && rest[0] == 'b' {
                    -1int
                } else {
                    0int
                };
                let octave = if accidental != 0 {
                    rest.drop_first()
                } else {
                    rest
                };
                match parse_i32(octave) {
                    None => None,
                    Some(o) => Some((o + 1) * 12 + s + accidental),
                }
            },
        }
    }
}

/// The MIDI note number `name` names, or `None` if it does not parse or
/// names a number outside 0–127.
pub open spec fn spec_note_number(name: Seq<char>) -> Option<u8> {
    match pitch(trim(name)) {
        Some(n) => if 0 <= n <= 127 {
            Some(n as u8)
        } else {
            None
        },
        None => None,
    }
}

/// Whether `c` is white space.
fn space(c: char) -> (r: bool)
    ensures
        r == is_space(c),
{
    ('\u{9}' <= c && c <= '\u{d}') || c == ' ' || c == '\u{85}' || c == '\u{a0}' || c == '\u{1680}' || (
    '\u{2000}' <= c && c <= '\u{200a}') || c == '\u{2028}' || c == '\u{2029}' || c == '\u{202f}' || c
        == '\u{205f}' || c == '\u{3000}'
}

/// A longer run of digits spells at least as large a number.
proof fn lemma_digits_grow(s: Seq<char>, k: int, j: int)
    requires
        0 <= k <= j <= s.len(),
        all_digits(s),
    ensures
        digits_value(s.subrange(0, j)) >= digits_value(s.subrange(0, k)),
        digits_value(s.subrange(0, j)) >= 0,
    decreases j,
{
    if j > 0 {
        assert(s.subrange(0, j).drop_last() =~= s.subrange(0, j - 1));
        assert('0' <= s[j - 1] <= '9');
        if k < j {
            lemma_digits_grow(s, k, j - 1);
        } else {
            lemma_digits_grow(s, j - 1, j - 1);
        }
    }
}

/// `t` read as an `i32`.
fn parse_octave(t: &[char]) -> (r: Option<i64>)
    ensures
        r matches Some(v) ==> parse_i32(t@) == Some(v as int),
        r is None ==> parse_i32(t@) is None,
{
    let ghost s = t@;
    let n = t.len();
    let negative = n > 0 && t[0] == '-';
    let start: usize = if n > 0 && (t[0] == '-' || t[0] == '+') {
        1
    } else {
        0
    };
    let ghost digits = s.subrange(start as int, n as int);
    proof {
        if start == 1 {
            assert(digits =~= s.drop_first());
        } else {
            assert(digits =~= s);
        }
    }
    if start == n {
        return None;
    }
    let mut acc: i64 = 0;
    let mut i: usize = start;
    while i < n
        invariant
            s == t@,
            n == s.len(),
            start <= i <= n,
            digits == s.subrange(start as int, n as int),
            digits == (if s.len() > 0 && (s[0] == '-' || s[0] == '+') {
                s.drop_first()
            } else {
                s
            }),
            negative == (s.len() > 0 && s[0] == '-'),
            forall|k: int| start <= k < i ==> '0' <= #[trigger] s[k] <= '9',
            acc == digits_value(digits.subrange(0, i - start)),
            0 <= acc <= 2147483648,
        decreases n - i,
    {
        let c = t[i];
        if c < '0' || c > '9' {
            proof {
                assert(digits[i - start] == c);
            }
            return None;
        }
        let d = (c as u32 - '0' as u32) as i64;
        proof {
            assert(digits.subrange(0, i + 1 - start).drop_last() =~= digits.subrange(0, i - start));
            assert(digits.subrange(0, i + 1 - start).last() == c);
        }
        if acc > 214748364 || (acc == 214748364 && d > 8) {
            proof {
                assert forall|k: int| 0 <= k < i + 1 - start implies '0' <= #[trigger] digits.subrange(0, i + 1 - start)[k] <= '9' by {
                    assert(digits.subrange(0, i + 1 - start)[k] == s[start + k]);
                }
                if all_digits(digits) {
                    lemma_digits_grow(digits, i + 1 - start, digits.len() as int);
                    assert(digits.subrange(0, digits.len() as int) =~= digits);
                }
            }
            return None;
        }
        acc = acc * 10 + d;
        i = i + 1;
    }
    proof {
        assert(digits.subrange(0, n - start) =~= digits);
        assert forall|k: int| 0 <= k < digits.len() implies '0' <= #[trigger] digits[k] <= '9' by {
            assert(digits[k] == s[start + k]);
        }
    }
    let value = if negative {
        -acc
    } else {
        acc
    };
    if !negative && acc > 2147483647 {
        return None;
    }
    Some(value)
}

/// Scientific pitch to a MIDI note number, or `None` if the name does not
/// parse or names a number outside 0–127.
///
/// Letter A–G (case-insensitive), optional `#` or `b`, integer octave
/// (negative allowed). Surrounding whitespace is trimmed. MIDI 60 is `C4`;
/// `D#1` and `Eb1` are the same number; `C-1` is 0.
pub fn parse_note_name(name: &str) -> (r: Option<u8>)
    ensures
        r == spec_note_number(name@),
{
    let cs = chars_of(name);
    let ghost s = cs@;
    let n = cs.len();
    let mut a: usize = 0;
    proof {
        assert(s.subrange(0, n as int) =~= s);
    }
    while a < n && space(cs[a])
        invariant
            s == cs@,
            n == s.len(),
            a <= n,
            trim_start(s) == trim_start(s.subrange(a as int, n as int)),
        decreases n - a,
    {
        proof {
            assert(s.subrange(a as int, n as int).drop_first() =~= s.subrange(a + 1, n as int));
        }
        a = a + 1;
    }
    let ghost front = s.subrange(a as int, n as int);
    proof {
        assert(trim_start(front) == front);
    }
    let mut b: usize = n;
    while b > a && space(cs[b - 1])
        invariant
            s == cs@,
            n == s.len(),
            a <= b <= n,
            front == s.subrange(a as int, n as int),
            trim_end(front) == trim_end(s.subrange(a as int, b as int)),
        decreases b,
    {
        proof {
            assert(s.subrange(a as int, b as int).drop_last() =~= s.subrange(a as int, b - 1));
        }
        b = b - 1;
    }
    let ghost t = s.subrange(a as int, b as int);
    proof {
        assert(trim_end(t) == t);
        assert(trim(s) == t);
    }
    if a == b {
        return None;
    }
    let letter = cs[a];
    let semi: i64 = if letter == 'C' || letter == 'c' {
        0
    } else if letter == 'D' || letter == 'd' {
        2
    } else if letter == 'E' || letter == 'e' {
        4
    } else if letter == 'F' || letter == 'f' {
        5
    } else if letter == 'G' || letter == 'g' {
        7
    } else if letter == 'A' || letter == 'a' {
        9
    } else if letter == 'B' || letter == 'b' {
        11
    } else {
        return None;
    };
    let mut p = a + 1;
    let accidental: i64 = if p < b && cs[p] == '#' {
        1
    } else if p < b && cs[p] == 'b' {
        -1
    } else {
        0
    };
    if accidental != 0 {
        p = p + 1;
    }
    let octave_chars = vstd::slice::slice_subrange(cs.as_slice(), p, b);
    let ghost rest = t.drop_first();
    proof {
        assert(t[0] == letter);
        if accidental != 0 {
            assert(octave_chars@ =~= rest.drop_first());
        } else {
            assert(octave_chars@ =~= rest);
        }
    }
    let octave = match parse_octave(octave_chars) {
        None => return None,
        Some(o) => o,
    };
    let midi: i64 = (octave + 1) * 12 + semi + accidental;
    if midi < 0 || midi > 127 {
        return None;
    }
    Some(midi as u8)
}

/// One note message as an occurrence: every field is meaningful for both
/// kinds, so a note-off carries its release velocity.
#[derive(Clone, Copy, Debug, PartialEq, Eq, Structural)]
pub struct Note {
    /// The MIDI channel, 0–15.
    pub channel: u8,
    /// The note number.
    pub note: u8,
    /// The velocity; on a note-off, the release velocity.
    pub velocity: u8,
    /// `true` for a note-on, `false` for a note-off.
    pub on: bool,
}

/// The occurrence a message is, if it is a note message. A note-on with
/// velocity 0 is a note-off.
pub open spec fn spec_note_of(m: MidiMessage) -> Option<Note> {
    match m {
        MidiMessage::NoteOn { channel, note, velocity } => Some(
            Note { channel, note, velocity, on: velocity != 0 },
        ),
        MidiMessage::NoteOff { channel, note, velocity } => Some(Note { channel, note, velocity, on: false }),
        _ => None,
    }
}

/// The occurrence a message is, if it is a note message.
pub fn note_of(m: MidiMessage) -> (r: Option<Note>)
    ensures
        r == spec_note_of(m),
{
    match m {
        MidiMessage::NoteOn { channel, note, velocity } => Some(
            Note { channel, note, velocity, on: velocity != 0 },
        ),
        MidiMessage::NoteOff { channel, note, velocity } => Some(Note { channel, note, velocity, on: false }),
        _ => None,
    }
}

/// The note occurrences among `messages`, in arrival order.
pub open spec fn spec_notes_of(messages: Seq<MidiMessage>) -> Seq<Note>
    decreases messages.len(),
{
    if messages.len() == 0 {
        Seq::empty()
    } else {
        let rest = spec_notes_of(messages.drop_last());
        match spec_note_of(messages.last()) {
            Some(n) => rest.push(n),
            None => rest,
        }
    }
}

/// Every note message of a tick as one batch, in arrival order, and no
/// message of any other kind.
pub fn notes_of(messages: &[MidiMessage]) -> (r: Vec<Note>)
    ensures
        r@ == spec_notes_of(messages@),
{
    let mut r: Vec<Note> = Vec::new();
    let mut i: usize = 0;
    while i < messages.len()
        invariant
            i <= messages@.len(),
            r@ == spec_notes_of(messages@.subrange(0, i as int)),
        decreases messages@.len() - i,
    {
        proof {
            assert(messages@.subrange(0, i + 1).drop_last() =~= messages@.subrange(0, i as int));
            assert(messages@.subrange(0, i + 1).last() == messages@[i as int]);
        }
        match note_of(messages[i]) {
            Some(n) => r.push(n),
            None => {},
        }
        i = i + 1;
    }
    proof {
        assert(messages@.subrange(0, messages@.len() as int) =~= messages@);
    }
    r
}

/// How many of `notes` are a note-on (`on`) or a note-off (`!on`) of note
/// number `midi`: one trigger each.
pub fn count_matching(notes: &[Note], midi: u8, on: bool) -> (r: usize)
    ensures
        r == notes@.filter(|n: Note| n.on == on && n.note == midi).len(),
{
    let ghost pred = |n: Note| n.on == on && n.note == midi;
    let mut count: usize = 0;
    let mut i: usize = 0;
    while i < notes.len()
        invariant
            i <= notes@.len(),
            pred == (|n: Note| n.on == on && n.note == midi),
            count == notes@.subrange(0, i as int).filter(pred).len(),
            count <= i,
        decreases notes@.len() - i,
    {
        proof {
            assert(notes@.subrange(0, i + 1) =~= notes@.subrange(0, i as int).push(notes@[i as int]));
            notes@.subrange(0, i as int).lemma_filter_push(notes@[i as int], pred);
        }
        if notes[i].on == on && notes[i].note == midi {
            count = count + 1;
        }
        i = i + 1;
    }
    proof {
        assert(notes@.subrange(0, notes@.len() as int) =~= notes@);
    }
    count
}


/// `p` raised by `k` semitones.
pub open spec fn shifted(p: Option<int>, k: int) -> Option<int> {
    match p {
        Some(n) => Some(n + k),
        None => None,
    }
}

/// The letters climb the C major scale: whatever follows the letter, D is
/// two semitones above C, E two above D, F one above E, G two above F, A two
/// above G and B two above A; a lower-case letter names what its upper case
/// does.
pub proof fn lemma_note_letters(t: Seq<char>)
    ensures
        pitch(seq!['D'] + t) == shifted(pitch(seq!['C'] + t), 2),
        pitch(seq!['E'] + t) == shifted(pitch(seq!['D'] + t), 2),
        pitch(seq!['F'] + t) == shifted(pitch(seq!['E'] + t), 1),
        pitch(seq!['G'] + t) == shifted(pitch(seq!['F'] + t), 2),
        pitch(seq!['A'] + t) == shifted(pitch(seq!['G'] + t), 2),
        pitch(seq!['B'] + t) == shifted(pitch(seq!['A'] + t), 2),
        pitch(seq!['c'] + t) == pitch(seq!['C'] + t),
        pitch(seq!['d'] + t) == pitch(seq!['D'] + t),
        pitch(seq!['e'] + t) == pitch(seq!['E'] + t),
        pitch(seq!['f'] + t) == pitch(seq!['F'] + t),
        pitch(seq!['g'] + t) == pitch(seq!['G'] + t),
        pitch(seq!['a'] + t) == pitch(seq!['A'] + t),
        pitch(seq!['b'] + t) == pitch(seq!['B'] + t),
{
    assert forall|c: char| (#[trigger] (seq![c] + t)).drop_first() == t && (seq![c] + t)[0] == c by {
        assert((seq![c] + t).drop_first() =~= t);
    }
}

/// A plain C is at the start of its octave: `C<o>` is `(o + 1) * 12`, so
/// `C4` is 60 and `C-1` is 0.
pub proof fn lemma_note_c_octave(o: Seq<char>)
    requires
        o.len() > 0 ==> o[0] != '#' && o[0] != 'b',
    ensures
        pitch(seq!['C'] + o) == match parse_i32(o) {
            Some(v) => Some((v + 1) * 12),
            None => None::<int>,
        },
{
    assert((seq!['C'] + o).drop_first() =~= o);
}

/// A sharp raises the note a semitone and a flat lowers it: for any
/// letter `l` and octave text `o`, `l#o` is one above `lo` and `lbo` one
/// below.
pub proof fn lemma_note_accidentals(l: char, o: Seq<char>)
    requires
        o.len() > 0 ==> o[0] != '#' && o[0] != 'b',
    ensures
        pitch(seq![l, '#'] + o) == shifted(pitch(seq![l] + o), 1),
        pitch(seq![l, 'b'] + o) == shifted(pitch(seq![l] + o), -1),
{
    assert((seq![l, '#'] + o).drop_first() =~= seq!['#'] + o);
    assert((seq!['#'] + o).drop_first() =~= o);
    assert((seq![l, 'b'] + o).drop_first() =~= seq!['b'] + o);
    assert((seq!['b'] + o).drop_first() =~= o);
    assert((seq![l] + o).drop_first() =~= o);
}

/// A name with no white space around it names `pitch` of itself, kept only
/// inside 0–127: what `parse_note_name` returns for it.
pub proof fn lemma_note_number_of_bare_name(t: Seq<char>)
    requires
        t.len() > 0 ==> !is_space(t[0]) && !is_space(t.last()),
    ensures
        spec_note_number(t) == match pitch(t) {
            Some(n) => if 0 <= n <= 127 {
                Some(n as u8)
            } else {
                None
            },
            None => None,
        },
{
    assert(trim_start(t) == t);
    assert(trim_end(t) == t);
}

} // verus!
