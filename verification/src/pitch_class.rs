//! Pitch classes (pitches modulo the octave) and their enharmonic spellings.
use vstd::prelude::*;
use crate::note::{Accidental, Name, Note};

verus! {

/// A pitch modulo the octave, numbered with 0 = A-flat.
pub type PitchClass = u8;

/// The semitone offset a name contributes: its flat spelling's pitch
/// class, before the accidental is added.
pub open spec fn spec_name_to_u8(name: Name) -> u8 {
    match name {
        Name::A => 0,
        Name::B => 2,
        Name::C => 3,
        Name::D => 5,
        Name::E => 7,
        Name::F => 8,
        Name::G => 10,
    }
}

/// The semitone offset of an accidental, counted from the flat.
pub open spec fn spec_accidental_to_u8(accidental: Accidental) -> u8 {
    match accidental {
        Accidental::Flat => 0,
        Accidental::Natural => 1,
        Accidental::Sharp => 2,
    }
}

/// The pitch class a spelled note sounds as.
pub open spec fn spec_note_to_pc(note: Note) -> u8 {
    ((spec_name_to_u8(note.name) + spec_accidental_to_u8(note.accidental)) % 12) as u8
}

fn name_to_u8(name: Name) -> (r: u8)
    ensures
        r == spec_name_to_u8(name),
{
    match name {
        Name::A => 0,
        Name::B => 2,
        Name::C => 3,
        Name::D => 5,
        Name::E => 7,
        Name::F => 8,
        Name::G => 10,
    }
}

fn accidental_to_u8(accidental: Accidental) -> (r: u8)
    ensures
        r == spec_accidental_to_u8(accidental),
{
    match accidental {
        Accidental::Flat => 0,
        Accidental::Natural => 1,
        Accidental::Sharp => 2,
    }
}

pub fn note_to_pc(note: Note) -> (pc: PitchClass)
    ensures
        pc == spec_note_to_pc(note),
        pc < 12,
{
    (name_to_u8(note.name) + accidental_to_u8(note.accidental)) % 12
}

/// The one or two spellings of a pitch class, the preferred one last:
/// natural where a natural spelling exists, otherwise flat.
pub open spec fn spec_pc_to_notes(pc: PitchClass) -> Seq<Note> {
    let n = |name: Name, accidental: Accidental| Note { name, accidental };
    match pc % 12 {
        0 => seq![n(Name::G, Accidental::Sharp), n(Name::A, Accidental::Flat)],
        1 => seq![n(Name::A, Accidental::Natural)],
        2 => seq![n(Name::A, Accidental::Sharp), n(Name::B, Accidental::Flat)],
        3 => seq![n(Name::C, Accidental::Flat), n(Name::B, Accidental::Natural)],
        4 => seq![n(Name::B, Accidental::Sharp), n(Name::C, Accidental::Natural)],
        5 => seq![n(Name::C, Accidental::Sharp), n(Name::D, Accidental::Flat)],
        6 => seq![n(Name::D, Accidental::Natural)],
        7 => seq![n(Name::D, Accidental::Sharp), n(Name::E, Accidental::Flat)],
        8 => seq![n(Name::F, Accidental::Flat), n(Name::E, Accidental::Natural)],
        9 => seq![n(Name::E, Accidental::Sharp), n(Name::F, Accidental::Natural)],
        10 => seq![n(Name::F, Accidental::Sharp), n(Name::G, Accidental::Flat)],
        _ => seq![n(Name::G, Accidental::Natural)],
    }
}

/// Every listed spelling sounds as its pitch class, and the spellings of one
/// pitch class sit on distinct names.
pub proof fn lemma_pc_to_notes_sound(pc: PitchClass)
    ensures
        forall|i: int|
            0 <= i < spec_pc_to_notes(pc).len() ==> spec_note_to_pc(
                #[trigger] spec_pc_to_notes(pc)[i],
            ) == pc % 12,
        forall|i: int, j: int|
            0 <= i < j < spec_pc_to_notes(pc).len() ==> spec_pc_to_notes(pc)[i].name
                != spec_pc_to_notes(pc)[j].name,
{
}

pub fn pc_to_notes(pc: PitchClass) -> (r: Vec<Note>)
    ensures
        r@ == spec_pc_to_notes(pc),
{
    let n = pc % 12;
    let mut out: Vec<Note> = Vec::new();
    if n == 0 {
        out.push(Note { name: Name::G, accidental: Accidental::Sharp });
        out.push(Note { name: Name::A, accidental: Accidental::Flat });
    } else if n == 1 {
        out.push(Note { name: Name::A, accidental: Accidental::Natural });
    } else if n == 2 {
        out.push(Note { name: Name::A, accidental: Accidental::Sharp });
        out.push(Note { name: Name::B, accidental: Accidental::Flat });
    } else if n == 3 {
        out.push(Note { name: Name::C, accidental: Accidental::Flat });
        out.push(Note { name: Name::B, accidental: Accidental::Natural });
    } else if n == 4 {
        out.push(Note { name: Name::B, accidental: Accidental::Sharp });
        out.push(Note { name: Name::C, accidental: Accidental::Natural });
    } else if n == 5 {
        out.push(Note { name: Name::C, accidental: Accidental::Sharp });
        out.push(Note { name: Name::D, accidental: Accidental::Flat });
    } else if n == 6 {
        out.push(Note { name: Name::D, accidental: Accidental::Natural });
    } else if n == 7 {
        out.push(Note { name: Name::D, accidental: Accidental::Sharp });
        out.push(Note { name: Name::E, accidental: Accidental::Flat });
    } else if n == 8 {
        out.push(Note { name: Name::F, accidental: Accidental::Flat });
        out.push(Note { name: Name::E, accidental: Accidental::Natural });
    } else if n == 9 {
        out.push(Note { name: Name::E, accidental: Accidental::Sharp });
        out.push(Note { name: Name::F, accidental: Accidental::Natural });
    } else if n == 10 {
        out.push(Note { name: Name::F, accidental: Accidental::Sharp });
        out.push(Note { name: Name::G, accidental: Accidental::Flat });
    } else {
        out.push(Note { name: Name::G, accidental: Accidental::Natural });
    }
    proof {
        assert(out@ =~= spec_pc_to_notes(pc));
    }
    out
}

/// The preferred spelling of a pitch class: natural if possible, else flat.
pub fn pc_to_note(pc: PitchClass) -> (n: Note)
    ensures
        n == spec_pc_to_notes(pc).last(),
{
    let mut notes = pc_to_notes(pc);
    let n = notes.pop().unwrap();
    n
}

} // verus!
