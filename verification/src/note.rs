//! Note names, accidentals, and the pedal symbols used in diagrams.
use vstd::prelude::*;

verus! {

/// One of the seven note names; each name is governed by one pedal.
#[derive(Copy, Clone, Debug, Eq, Hash, PartialEq, Structural)]
pub enum Name {
    A,
    B,
    C,
    D,
    E,
    F,
    G,
}

/// The three positions a pedal can hold a string in.
#[derive(Copy, Clone, Debug, Eq, Hash, PartialEq, Structural)]
pub enum Accidental {
    Flat,
    Natural,
    Sharp,
}

/// A spelled pitch: a name together with its accidental.
#[derive(Copy, Clone, Debug, Eq, Hash, PartialEq, Structural)]
pub struct Note {
    pub name: Name,
    pub accidental: Accidental,
}

/// The character a pedal diagram uses for one accidental.
pub open spec fn spec_pedal_symbol(accidental: Accidental) -> char {
    match accidental {
        Accidental::Flat => '^',
        Accidental::Natural => '-',
        Accidental::Sharp => 'v',
    }
}

pub fn pedal_symbol(accidental: Accidental) -> (c: char)
    ensures
        c == spec_pedal_symbol(accidental),
{
    match accidental {
        Accidental::Flat => '^',
        Accidental::Natural => '-',
        Accidental::Sharp => 'v',
    }
}

/// The diagram character for a possibly unset pedal.
pub open spec fn spec_pedal_symbol_opt(accidental: Option<Accidental>) -> char {
    match accidental {
        Some(a) => spec_pedal_symbol(a),
        None => '~',
    }
}

pub fn pedal_symbol_opt(accidental: Option<Accidental>) -> (c: char)
    ensures
        c == spec_pedal_symbol_opt(accidental),
{
    match accidental {
        Some(a) => pedal_symbol(a),
        None => '~',
    }
}

impl Note {
    /// Whether this note's pedal is worked by the left foot (D, C, or B).
    pub open spec fn spec_is_left(self) -> bool {
        self.name == Name::D || self.name == Name::C || self.name == Name::B
    }

    pub fn is_left(&self) -> (r: bool)
        ensures
            r == self.spec_is_left(),
    {
        self.name == Name::D || self.name == Name::C || self.name == Name::B
    }

    pub fn is_right(&self) -> (r: bool)
        ensures
            r == !self.spec_is_left(),
    {
        !self.is_left()
    }
}

/// The note name a letter stands for, if it is one.
pub open spec fn spec_char_to_name(c: char) -> Option<Name> {
    match c {
        'A' => Some(Name::A),
        'B' => Some(Name::B),
        'C' => Some(Name::C),
        'D' => Some(Name::D),
        'E' => Some(Name::E),
        'F' => Some(Name::F),
        'G' => Some(Name::G),
        _ => None,
    }
}

/// The accidental a character stands for, if it is one: the letters `b`,
/// `f`, `n`, `s`, the `#` sign, or the flat, natural and sharp signs.
pub open spec fn spec_char_to_accidental(c: char) -> Option<Accidental> {
    match c {
        'b' => Some(Accidental::Flat),
        'f' => Some(Accidental::Flat),
        '\u{266d}' => Some(Accidental::Flat),
        'n' => Some(Accidental::Natural),
        '\u{266e}' => Some(Accidental::Natural),
        's' => Some(Accidental::Sharp),
        '#' => Some(Accidental::Sharp),
        '\u{266f}' => Some(Accidental::Sharp),
        _ => None,
    }
}

/// A note string: a name letter, optionally followed by an accidental letter.
pub open spec fn spec_valid_note_str(s: Seq<char>) -> bool {
    &&& s.len() >= 1
    &&& spec_char_to_name(s[0]) is Some
    &&& s.len() >= 2 ==> spec_char_to_accidental(s[1]) is Some
}

/// The note a valid note string spells; a missing accidental means natural.
pub open spec fn spec_read_note(s: Seq<char>) -> Note
    recommends
        spec_valid_note_str(s),
{
    Note {
        name: spec_char_to_name(s[0]).unwrap(),
        accidental: if s.len() >= 2 {
            spec_char_to_accidental(s[1]).unwrap()
        } else {
            Accidental::Natural
        },
    }
}

fn char_to_name(c: char) -> (r: Option<Name>)
    ensures
        r == spec_char_to_name(c),
{
    match c {
        'A' => Some(Name::A),
        'B' => Some(Name::B),
        'C' => Some(Name::C),
        'D' => Some(Name::D),
        'E' => Some(Name::E),
        'F' => Some(Name::F),
        'G' => Some(Name::G),
        _ => None,
    }
}

fn char_to_accidental(c: char) -> (r: Option<Accidental>)
    ensures
        r == spec_char_to_accidental(c),
{
    match c {
        'b' => Some(Accidental::Flat),
        'f' => Some(Accidental::Flat),
        '\u{266d}' => Some(Accidental::Flat),
        'n' => Some(Accidental::Natural),
        '\u{266e}' => Some(Accidental::Natural),
        's' => Some(Accidental::Sharp),
        '#' => Some(Accidental::Sharp),
        '\u{266f}' => Some(Accidental::Sharp),
        _ => None,
    }
}

/// Reads a note such as `"F#"`, `"Gb"`, or `"A"` (no accidental: natural).
pub fn read_note(s: &str) -> (n: Note)
    requires
        spec_valid_note_str(s@),
    ensures
        n == spec_read_note(s@),
{
    let len = s.unicode_len();
    let name = char_to_name(s.get_char(0)).unwrap();
    let accidental = if len >= 2 {
        char_to_accidental(s.get_char(1)).unwrap()
    } else {
        Accidental::Natural
    };
    Note { name, accidental }
}

} // verus!
