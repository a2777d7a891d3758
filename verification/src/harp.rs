//! The seven-pedal instrument state: one slot per pedal in mechanical
//! order D, C, B (left foot) then E, F, G, A (right foot).
use vstd::prelude::*;
use crate::note::{Accidental, Name, Note};
use crate::pitch_class::{spec_note_to_pc, note_to_pc};

verus! {

/// Slot 0 is D, 1 is C, 2 is B, 3 is E, 4 is F, 5 is G, 6 is A.
/// A slot holds 0 when unset, 1 for flat, 2 for natural, 3 for sharp.
pub type Harp = [u8; 7];

/// Every slot holds one of the four legal values.
pub open spec fn harp_wf(h: Seq<u8>) -> bool {
    h.len() == 7 && forall|i: int| 0 <= i < 7 ==> h[i] <= 3
}

/// The fixed mechanical position of each pedal.
pub open spec fn spec_name_to_usize(name: Name) -> usize {
    match name {
        Name::D => 0,
        Name::C => 1,
        Name::B => 2,
        Name::E => 3,
        Name::F => 4,
        Name::G => 5,
        Name::A => 6,
    }
}

pub fn name_to_usize(name: Name) -> (r: usize)
    ensures
        r == spec_name_to_usize(name),
        r < 7,
{
    match name {
        Name::D => 0,
        Name::C => 1,
        Name::B => 2,
        Name::E => 3,
        Name::F => 4,
        Name::G => 5,
        Name::A => 6,
    }
}

pub open spec fn spec_usize_to_name(u: usize) -> Name {
    match u {
        0 => Name::D,
        1 => Name::C,
        2 => Name::B,
        3 => Name::E,
        4 => Name::F,
        5 => Name::G,
        _ => Name::A,
    }
}

fn usize_to_name(u: usize) -> (r: Name)
    requires
        u < 7,
    ensures
        r == spec_usize_to_name(u),
{
    match u {
        0 => Name::D,
        1 => Name::C,
        2 => Name::B,
        3 => Name::E,
        4 => Name::F,
        5 => Name::G,
        _ => Name::A,
    }
}

/// Name and slot determine each other.
pub proof fn lemma_name_slot_roundtrip()
    ensures
        forall|n: Name| spec_usize_to_name(#[trigger] spec_name_to_usize(n)) == n,
        forall|u: usize| u < 7 ==> spec_name_to_usize(#[trigger] spec_usize_to_name(u)) == u,
{
}

/// The slot value an accidental is stored as.
pub open spec fn spec_modifier_to_u8(accidental: Accidental) -> u8 {
    match accidental {
        Accidental::Flat => 1,
        Accidental::Natural => 2,
        Accidental::Sharp => 3,
    }
}

fn modifier_to_u8(accidental: Accidental) -> (r: u8)
    ensures
        r == spec_modifier_to_u8(accidental),
{
    match accidental {
        Accidental::Flat => 1,
        Accidental::Natural => 2,
        Accidental::Sharp => 3,
    }
}

pub open spec fn spec_u8_to_modifier(u: u8) -> Option<Accidental> {
    match u {
        0u8 => None,
        1u8 => Some(Accidental::Flat),
        2u8 => Some(Accidental::Natural),
        _ => Some(Accidental::Sharp),
    }
}

fn u8_to_modifier(u: u8) -> (r: Option<Accidental>)
    requires
        u <= 3,
    ensures
        r == spec_u8_to_modifier(u),
{
    match u {
        0 => None,
        1 => Some(Accidental::Flat),
        2 => Some(Accidental::Natural),
        _ => Some(Accidental::Sharp),
    }
}

/// The note a set slot stands for; `None` for an unset slot.
pub open spec fn spec_idx_to_note(idx: usize, val: u8) -> Option<Note> {
    match spec_u8_to_modifier(val) {
        Some(m) => Some(Note { name: spec_usize_to_name(idx), accidental: m }),
        None => None,
    }
}

pub fn idx_to_note(idx: usize, val: u8) -> (r: Option<Note>)
    requires
        idx < 7,
        val <= 3,
    ensures
        r == spec_idx_to_note(idx, val),
{
    match u8_to_modifier(val) {
        Some(m) => Some(Note { name: usize_to_name(idx), accidental: m }),
        None => None,
    }
}

/// A harp with the given note's slot set to its accidental.
pub open spec fn spec_set_pedal(h: Seq<u8>, note: Note) -> Seq<u8> {
    h.update(spec_name_to_usize(note.name) as int, spec_modifier_to_u8(note.accidental))
}

pub fn set_pedal(harp: &mut Harp, note: Note)
    ensures
        final(harp)@ == spec_set_pedal(old(harp)@, note),
{
    harp[name_to_usize(note.name)] = modifier_to_u8(note.accidental);
}

/// The harp that records each listed note, later notes overriding earlier
/// ones that share a pedal.
pub open spec fn spec_notes_to_harp(notes: Seq<Note>) -> Seq<u8>
    decreases notes.len(),
{
    if notes.len() == 0 {
        seq![0u8, 0u8, 0u8, 0u8, 0u8, 0u8, 0u8]
    } else {
        spec_set_pedal(spec_notes_to_harp(notes.drop_last()), notes.last())
    }
}

pub proof fn lemma_notes_to_harp_wf(notes: Seq<Note>)
    ensures
        harp_wf(spec_notes_to_harp(notes)),
    decreases notes.len(),
{
    if notes.len() > 0 {
        lemma_notes_to_harp_wf(notes.drop_last());
    }
}

pub fn notes_to_harp(notes: &[Note]) -> (r: Harp)
    ensures
        r@ == spec_notes_to_harp(notes@),
{
    let mut out: Harp = [0; 7];
    assert(out@ =~= spec_notes_to_harp(notes@.subrange(0, 0)));
    for i in 0..notes.len()
        invariant
            out@ == spec_notes_to_harp(notes@.subrange(0, i as int)),
    {
        set_pedal(&mut out, notes[i]);
        proof {
            assert(notes@.subrange(0, i + 1).drop_last() =~= notes@.subrange(0, i as int));
            assert(notes@.subrange(0, i + 1).last() == notes@[i as int]);
        }
    }
    proof {
        assert(notes@.subrange(0, notes@.len() as int) =~= notes@);
    }
    out
}

/// A slot no listed note names stays unset.
pub proof fn lemma_notes_to_harp_unnamed(notes: Seq<Note>, t: int)
    requires
        0 <= t < 7,
        forall|j: int|
            0 <= j < notes.len() ==> spec_name_to_usize((#[trigger] notes[j]).name) != t,
    ensures
        spec_notes_to_harp(notes)[t] == 0,
    decreases notes.len(),
{
    if notes.len() > 0 {
        assert forall|j: int|
            0 <= j < notes.drop_last().len() implies spec_name_to_usize(
            (#[trigger] notes.drop_last()[j]).name,
        ) != t by {
            assert(notes.drop_last()[j] == notes[j]);
        }
        lemma_notes_to_harp_unnamed(notes.drop_last(), t);
        lemma_notes_to_harp_wf(notes.drop_last());
        assert(notes[notes.len() - 1] == notes.last());
    }
}

/// With pairwise distinct names, the recorded harp reads back exactly: each
/// listed note's slot holds its accidental.
pub proof fn lemma_notes_to_harp_index(notes: Seq<Note>)
    requires
        forall|i: int, j: int| 0 <= i < j < notes.len() ==> notes[i].name != notes[j].name,
    ensures
        forall|j: int|
            0 <= j < notes.len() ==> spec_notes_to_harp(notes)[spec_name_to_usize(
                (#[trigger] notes[j]).name,
            ) as int] == spec_modifier_to_u8(notes[j].accidental),
    decreases notes.len(),
{
    lemma_name_slot_roundtrip();
    if notes.len() > 0 {
        lemma_notes_to_harp_index(notes.drop_last());
        lemma_notes_to_harp_wf(notes.drop_last());
        let last = notes.last();
        assert forall|j: int|
            0 <= j < notes.len() implies spec_notes_to_harp(notes)[spec_name_to_usize(
            (#[trigger] notes[j]).name,
        ) as int] == spec_modifier_to_u8(notes[j].accidental) by {
            if j < notes.len() - 1 {
                assert(notes.drop_last()[j] == notes[j]);
                assert(notes[j].name != last.name);
                assert(spec_name_to_usize(notes[j].name) != spec_name_to_usize(last.name));
            }
        }
    }
}

/// The notes of the set slots in `[lo, hi)`, in slot order.
pub open spec fn spec_harp_notes(h: Seq<u8>, lo: int, hi: int) -> Seq<Note>
    decreases hi - lo,
{
    if lo >= hi {
        Seq::empty()
    } else {
        match spec_idx_to_note((hi - 1) as usize, h[hi - 1]) {
            Some(n) => spec_harp_notes(h, lo, hi - 1).push(n),
            None => spec_harp_notes(h, lo, hi - 1),
        }
    }
}

/// The notes a harp holds in the slot range `[lo, hi)`.
pub fn harp_notes(harp: Harp, lo: usize, hi: usize) -> (r: Vec<Note>)
    requires
        harp_wf(harp@),
        lo <= hi <= 7,
    ensures
        r@ == spec_harp_notes(harp@, lo as int, hi as int),
{
    let mut out: Vec<Note> = Vec::new();
    for i in lo..hi
        invariant
            harp_wf(harp@),
            lo <= i <= hi <= 7,
            out@ == spec_harp_notes(harp@, lo as int, i as int),
    {
        if let Some(n) = idx_to_note(i, harp[i]) {
            out.push(n);
        }
    }
    out
}

/// All notes a harp holds, in slot order.
pub fn harp_to_notes(harp: Harp) -> (r: Vec<Note>)
    requires
        harp_wf(harp@),
    ensures
        r@ == spec_harp_notes(harp@, 0, 7),
{
    harp_notes(harp, 0, 7)
}

/// Overlay: on each slot the overlay wins if it is set, else the base keeps
/// its value.
pub open spec fn spec_update_harp(state: Seq<u8>, change: Seq<u8>) -> Seq<u8> {
    Seq::new(7, |i: int| if change[i] != 0 { change[i] } else { state[i] })
}

pub fn update_harp(state: Harp, change: Harp) -> (r: Harp)
    ensures
        r@ == spec_update_harp(state@, change@),
{
    let mut out = state;
    for i in 0..7usize
        invariant
            out@.len() == 7,
            forall|j: int| 0 <= j < i ==> out@[j] == spec_update_harp(state@, change@)[j],
            forall|j: int| i <= j < 7 ==> out@[j] == state@[j],
    {
        if change[i] != 0 {
            out[i] = change[i];
        }
    }
    proof {
        assert(out@ =~= spec_update_harp(state@, change@));
    }
    out
}

/// The fold of `spec_update_harp` over a sequence of overlays.
pub open spec fn spec_update_harps(state: Seq<u8>, changes: Seq<Seq<u8>>) -> Seq<u8>
    decreases changes.len(),
{
    if changes.len() == 0 {
        state
    } else {
        spec_update_harp(spec_update_harps(state, changes.drop_last()), changes.last())
    }
}

/// Applies each overlay in order, later overlays winning on their set slots.
pub fn update_harps(state: Harp, changes: &Vec<Harp>) -> (r: Harp)
    ensures
        r@ == spec_update_harps(state@, changes@.map_values(|h: Harp| h@)),
{
    let ghost views = changes@.map_values(|h: Harp| h@);
    let mut out = state;
    assert(out@ =~= spec_update_harps(state@, views.subrange(0, 0)));
    for i in 0..changes.len()
        invariant
            views == changes@.map_values(|h: Harp| h@),
            out@ == spec_update_harps(state@, views.subrange(0, i as int)),
    {
        out = update_harp(out, changes[i]);
        proof {
            assert(views.subrange(0, i + 1).drop_last() =~= views.subrange(0, i as int));
            assert(views.subrange(0, i + 1).last() == views[i as int]);
        }
    }
    proof {
        assert(views.subrange(0, views.len() as int) =~= views);
    }
    out
}

/// Overlaying is associative: layering `a` then `b` on `h` is the same as
/// layering `b` on `a` first and the result on `h`. On every slot the
/// rightmost set value wins, regardless of grouping.
pub proof fn lemma_update_harp_assoc(h: Seq<u8>, a: Seq<u8>, b: Seq<u8>)
    ensures
        spec_update_harp(spec_update_harp(h, a), b) == spec_update_harp(h, spec_update_harp(a, b)),
{
    assert(spec_update_harp(spec_update_harp(h, a), b) =~= spec_update_harp(
        h,
        spec_update_harp(a, b),
    ));
}

/// On a set overlay slot the overlay wins; on an unset one the base shows.
pub proof fn lemma_update_harp_bias(state: Seq<u8>, change: Seq<u8>, i: int)
    requires
        0 <= i < 7,
    ensures
        change[i] != 0 ==> spec_update_harp(state, change)[i] == change[i],
        change[i] == 0 ==> spec_update_harp(state, change)[i] == state[i],
{
}

/// Overlaying well-formed harps yields a well-formed harp.
pub proof fn lemma_update_harp_wf(state: Seq<u8>, change: Seq<u8>)
    requires
        harp_wf(state),
        harp_wf(change),
    ensures
        harp_wf(spec_update_harp(state, change)),
{
}

/// Applies each group of notes as one overlay, in order.
pub fn update_harp_notes(state: Harp, changes: &Vec<Vec<Note>>) -> (r: Harp)
    ensures
        r@ == spec_update_harps(
            state@,
            changes@.map_values(|v: Vec<Note>| spec_notes_to_harp(v@)),
        ),
{
    let ghost views = changes@.map_values(|v: Vec<Note>| spec_notes_to_harp(v@));
    let mut out = state;
    assert(out@ =~= spec_update_harps(state@, views.subrange(0, 0)));
    for i in 0..changes.len()
        invariant
            views == changes@.map_values(|v: Vec<Note>| spec_notes_to_harp(v@)),
            out@ == spec_update_harps(state@, views.subrange(0, i as int)),
    {
        let h = notes_to_harp(changes[i].as_slice());
        out = update_harp(out, h);
        proof {
            assert(views.subrange(0, i + 1).drop_last() =~= views.subrange(0, i as int));
            assert(views.subrange(0, i + 1).last() == views[i as int]);
        }
    }
    proof {
        assert(views.subrange(0, views.len() as int) =~= views);
    }
    out
}

/// The all-flat harp: the default for pedals the music never pins down.
pub open spec fn spec_all_flat() -> Seq<u8> {
    seq![1u8, 1u8, 1u8, 1u8, 1u8, 1u8, 1u8]
}

/// The starting diagram a sequence of per-beat harps implies: on each slot,
/// the first set value in the sequence, or flat where none is.
pub open spec fn spec_full_initial(views: Seq<Seq<u8>>) -> Seq<u8>
    decreases views.len(),
{
    if views.len() == 0 {
        spec_all_flat()
    } else {
        spec_update_harp(spec_full_initial(views.drop_first()), views.first())
    }
}

pub fn full_initial(music: &Vec<Harp>) -> (r: Harp)
    ensures
        r@ == spec_full_initial(music@.map_values(|h: Harp| h@)),
{
    let ghost views = music@.map_values(|h: Harp| h@);
    let mut out: Harp = [1; 7];
    assert(out@ =~= spec_all_flat());
    let mut i = music.len();
    while i > 0
        invariant
            i <= music.len(),
            views == music@.map_values(|h: Harp| h@),
            out@ == spec_full_initial(views.subrange(i as int, views.len() as int)),
        decreases i,
    {
        i = i - 1;
        out = update_harp(out, music[i]);
        proof {
            let rest = views.subrange(i as int, views.len() as int);
            assert(rest.drop_first() =~= views.subrange(i + 1, views.len() as int));
            assert(rest.first() == views[i as int]);
        }
    }
    proof {
        assert(views.subrange(0, views.len() as int) =~= views);
    }
    out
}

/// The implied starting diagram of well-formed harps is well formed.
pub proof fn lemma_full_initial_wf(views: Seq<Seq<u8>>)
    requires
        forall|i: int| 0 <= i < views.len() ==> harp_wf(#[trigger] views[i]),
    ensures
        harp_wf(spec_full_initial(views)),
    decreases views.len(),
{
    if views.len() > 0 {
        assert forall|i: int|
            0 <= i < views.drop_first().len() implies harp_wf(
            #[trigger] views.drop_first()[i],
        ) by {
            assert(views.drop_first()[i] == views[i + 1]);
        }
        lemma_full_initial_wf(views.drop_first());
        lemma_update_harp_wf(spec_full_initial(views.drop_first()), views.first());
    }
}

/// The slots of `harp` that are set and differ from `state`: the changes a
/// beat newly demands.
pub open spec fn spec_new_only(state: Seq<u8>, harp: Seq<u8>) -> Seq<u8> {
    Seq::new(7, |i: int| if harp[i] != 0 && state[i] != harp[i] { harp[i] } else { 0 })
}

/// The per-beat overlays that remain once already-standing pedals are
/// removed, threading the accumulated state along.
pub open spec fn spec_unset_seen_rest(state: Seq<u8>, rest: Seq<Seq<u8>>) -> Seq<Seq<u8>>
    decreases rest.len(),
{
    if rest.len() == 0 {
        Seq::empty()
    } else {
        let new = spec_new_only(state, rest.first());
        seq![new] + spec_unset_seen_rest(spec_update_harp(state, new), rest.drop_first())
    }
}

/// The first entry is the implied full starting harp; each later entry keeps
/// only the slots its beat sets to a value not already standing.
pub open spec fn spec_unset_seen(views: Seq<Seq<u8>>) -> Seq<Seq<u8>> {
    seq![spec_full_initial(views)] + spec_unset_seen_rest(
        spec_full_initial(views),
        views.drop_first(),
    )
}

fn new_only(state: Harp, harp: Harp) -> (r: Harp)
    ensures
        r@ == spec_new_only(state@, harp@),
{
    let mut out: Harp = [0; 7];
    for i in 0..7usize
        invariant
            out@.len() == 7,
            forall|j: int| 0 <= j < i ==> out@[j] == spec_new_only(state@, harp@)[j],
            forall|j: int| i <= j < 7 ==> out@[j] == 0,
    {
        if harp[i] != 0 && state[i] != harp[i] {
            out[i] = harp[i];
        }
    }
    proof {
        assert(out@ =~= spec_new_only(state@, harp@));
    }
    out
}

/// Drops every pedal that is already standing where a beat wants it, so each
/// entry holds only that beat's genuinely new changes.
pub fn unset_seen(harps: &Vec<Harp>) -> (r: Vec<Harp>)
    requires
        harps@.len() >= 1,
    ensures
        r@.map_values(|h: Harp| h@) == spec_unset_seen(harps@.map_values(|h: Harp| h@)),
{
    let ghost views = harps@.map_values(|h: Harp| h@);
    let mut state = full_initial(harps);
    let mut out: Vec<Harp> = Vec::new();
    out.push(state);
    assert(out@.map_values(|h: Harp| h@) =~= seq![spec_full_initial(views)]);
    assert(out@.map_values(|h: Harp| h@) + spec_unset_seen_rest(
        state@,
        views.subrange(1, views.len() as int),
    ) =~= spec_unset_seen(views)) by {
        assert(views.drop_first() =~= views.subrange(1, views.len() as int));
    }
    for i in 1..harps.len()
        invariant
            1 <= i <= harps.len(),
            views == harps@.map_values(|h: Harp| h@),
            out@.map_values(|h: Harp| h@) + spec_unset_seen_rest(
                state@,
                views.subrange(i as int, views.len() as int),
            ) == spec_unset_seen(views),
            out@.len() == i,
    {
        let new = new_only(state, harps[i]);
        out.push(new);
        state = update_harp(state, new);
        proof {
            let rest = views.subrange(i as int, views.len() as int);
            assert(rest.drop_first() =~= views.subrange(i + 1, views.len() as int));
            assert(rest.first() == views[i as int]);
            assert(out@.map_values(|h: Harp| h@) + spec_unset_seen_rest(
                state@,
                views.subrange(i + 1, views.len() as int),
            ) =~= spec_unset_seen(views));
        }
    }
    proof {
        assert(out@.map_values(|h: Harp| h@) =~= spec_unset_seen(views));
    }
    out
}

/// The slots in `[lo, hi)` where both harps are set and disagree, paired
/// with the value the second harp wants.
pub open spec fn spec_harp_changes(a: Seq<u8>, b: Seq<u8>, lo: int, hi: int) -> Seq<(usize, u8)>
    decreases hi - lo,
{
    if lo >= hi {
        Seq::empty()
    } else if a[hi - 1] != 0 && b[hi - 1] != 0 && a[hi - 1] != b[hi - 1] {
        spec_harp_changes(a, b, lo, hi - 1).push((((hi - 1) as usize), b[hi - 1]))
    } else {
        spec_harp_changes(a, b, lo, hi - 1)
    }
}

/// The number of such slots: the mechanical changes the move needs.
pub open spec fn spec_num_changes(a: Seq<u8>, b: Seq<u8>, lo: int, hi: int) -> nat
    decreases hi - lo,
{
    if lo >= hi {
        0
    } else if a[hi - 1] != 0 && b[hi - 1] != 0 && a[hi - 1] != b[hi - 1] {
        spec_num_changes(a, b, lo, hi - 1) + 1
    } else {
        spec_num_changes(a, b, lo, hi - 1)
    }
}

pub proof fn lemma_num_changes_is_len(a: Seq<u8>, b: Seq<u8>, lo: int, hi: int)
    ensures
        spec_num_changes(a, b, lo, hi) == spec_harp_changes(a, b, lo, hi).len(),
    decreases hi - lo,
{
    if lo < hi {
        lemma_num_changes_is_len(a, b, lo, hi - 1);
    }
}

/// Every listed change lies in its slot range, wants the second harp's set
/// value there, and marks a genuine disagreement of two set slots; and every
/// slot is listed at most once.
pub open spec fn spec_change_entry_ok(a: Seq<u8>, b: Seq<u8>, lo: int, hi: int, e: (usize, u8)) -> bool {
    &&& lo <= e.0 < hi
    &&& e.1 == b[e.0 as int]
    &&& a[e.0 as int] != 0
    &&& b[e.0 as int] != 0
    &&& a[e.0 as int] != b[e.0 as int]
}

pub proof fn lemma_harp_changes_entries(a: Seq<u8>, b: Seq<u8>, lo: int, hi: int)
    requires
        0 <= lo,
        hi <= 7,
    ensures
        forall|k: int|
            0 <= k < spec_harp_changes(a, b, lo, hi).len() ==> spec_change_entry_ok(
                a,
                b,
                lo,
                hi,
                #[trigger] spec_harp_changes(a, b, lo, hi)[k],
            ),
        forall|k1: int, k2: int|
            0 <= k1 < k2 < spec_harp_changes(a, b, lo, hi).len()
                ==> (#[trigger] spec_harp_changes(a, b, lo, hi)[k1]).0 != (
            #[trigger] spec_harp_changes(a, b, lo, hi)[k2]).0,
    decreases hi - lo,
{
    if lo < hi {
        lemma_harp_changes_entries(a, b, lo, hi - 1);
        let prev = spec_harp_changes(a, b, lo, hi - 1);
        let s = spec_harp_changes(a, b, lo, hi);
        if a[hi - 1] != 0 && b[hi - 1] != 0 && a[hi - 1] != b[hi - 1] {
            let e = (((hi - 1) as usize), b[hi - 1]);
            assert(s == prev.push(e));
            assert forall|k: int| 0 <= k < s.len() implies spec_change_entry_ok(
                a,
                b,
                lo,
                hi,
                #[trigger] s[k],
            ) by {
                if k < prev.len() {
                    assert(s[k] == prev[k]);
                    assert(spec_change_entry_ok(a, b, lo, hi - 1, prev[k]));
                } else {
                    assert(s[k] == e);
                }
            }
            assert forall|k1: int, k2: int| 0 <= k1 < k2 < s.len() implies (#[trigger] s[k1]).0
                != (#[trigger] s[k2]).0 by {
                if k2 < prev.len() {
                    assert(s[k1] == prev[k1] && s[k2] == prev[k2]);
                } else {
                    assert(s[k2] == e);
                    assert(s[k1] == prev[k1]);
                    assert(spec_change_entry_ok(a, b, lo, hi - 1, prev[k1]));
                    assert((prev[k1]).0 < hi - 1);
                }
            }
        } else {
            assert(s == prev);
            assert forall|k: int| 0 <= k < s.len() implies spec_change_entry_ok(
                a,
                b,
                lo,
                hi,
                #[trigger] s[k],
            ) by {
                assert(spec_change_entry_ok(a, b, lo, hi - 1, prev[k]));
            }
        }
    }
}

/// A slot that both harps set to disagreeing values appears among the
/// changes of any range that covers it.
pub proof fn lemma_harp_changes_covers(a: Seq<u8>, b: Seq<u8>, lo: int, hi: int, i: int)
    requires
        lo <= i < hi,
        a[i] != 0,
        b[i] != 0,
        a[i] != b[i],
    ensures
        exists|k: int|
            0 <= k < spec_harp_changes(a, b, lo, hi).len() && (#[trigger] spec_harp_changes(
                a,
                b,
                lo,
                hi,
            )[k]) == (i as usize, b[i]),
    decreases hi - lo,
{
    if i == hi - 1 {
        let s = spec_harp_changes(a, b, lo, hi);
        assert(s[s.len() - 1] == (i as usize, b[i]));
    } else {
        lemma_harp_changes_covers(a, b, lo, hi - 1, i);
        let k = choose|k: int|
            0 <= k < spec_harp_changes(a, b, lo, hi - 1).len() && (#[trigger] spec_harp_changes(
                a,
                b,
                lo,
                hi - 1,
            )[k]) == (i as usize, b[i]);
        assert(spec_harp_changes(a, b, lo, hi)[k] == (i as usize, b[i]));
    }
}

/// The slots in `[lo, hi)` where both harps are set and disagree.
pub fn harp_changes(start: Harp, finish: Harp, lo: usize, hi: usize) -> (r: Vec<(usize, u8)>)
    requires
        lo <= hi <= 7,
    ensures
        r@ == spec_harp_changes(start@, finish@, lo as int, hi as int),
{
    let mut out: Vec<(usize, u8)> = Vec::new();
    for i in lo..hi
        invariant
            lo <= i <= hi <= 7,
            out@ == spec_harp_changes(start@, finish@, lo as int, i as int),
    {
        if start[i] != 0 && finish[i] != 0 && start[i] != finish[i] {
            out.push((i, finish[i]));
        }
    }
    out
}

/// Counts the slots in `[lo, hi)` where both harps are set and disagree.
pub fn num_changes(start: Harp, finish: Harp, lo: usize, hi: usize) -> (r: usize)
    requires
        lo <= hi <= 7,
    ensures
        r == spec_num_changes(start@, finish@, lo as int, hi as int),
{
    let mut out: usize = 0;
    for i in lo..hi
        invariant
            lo <= i <= hi <= 7,
            out == spec_num_changes(start@, finish@, lo as int, i as int),
            out <= i - lo,
    {
        if start[i] != 0 && finish[i] != 0 && start[i] != finish[i] {
            out = out + 1;
        }
    }
    out
}

/// How many slots of `[lo, hi)` hold different values in the two harps.
pub open spec fn spec_diff_count(a: Seq<u8>, b: Seq<u8>, lo: int, hi: int) -> nat
    decreases hi - lo,
{
    if lo >= hi {
        0
    } else if a[hi - 1] != b[hi - 1] {
        spec_diff_count(a, b, lo, hi - 1) + 1
    } else {
        spec_diff_count(a, b, lo, hi - 1)
    }
}

/// Rewriting some slots removes at most that many outstanding changes: the
/// changes `a` still owes against `e` exceed those `b` owes by at most the
/// number of slots where `a` and `b` differ.
pub proof fn lemma_num_changes_triangle(a: Seq<u8>, b: Seq<u8>, e: Seq<u8>, lo: int, hi: int)
    ensures
        spec_num_changes(a, e, lo, hi) <= spec_num_changes(b, e, lo, hi) + spec_diff_count(
            a,
            b,
            lo,
            hi,
        ),
    decreases hi - lo,
{
    if lo < hi {
        lemma_num_changes_triangle(a, b, e, lo, hi - 1);
    }
}

/// Two harps that agree outside two given slots differ in at most the slots
/// among those two where they really disagree.
pub proof fn lemma_diff_count_marks(a: Seq<u8>, b: Seq<u8>, lo: int, hi: int, j1: int, j2: int)
    requires
        forall|j: int| lo <= j < hi && j != j1 && j != j2 ==> a[j] == b[j],
    ensures
        spec_diff_count(a, b, lo, hi) <= (if lo <= j1 < hi && a[j1] != b[j1] {
            1int
        } else {
            0int
        }) + (if lo <= j2 < hi && a[j2] != b[j2] {
            1int
        } else {
            0int
        }),
    decreases hi - lo,
{
    if lo < hi {
        if j1 == hi - 1 && j2 == hi - 1 {
            lemma_diff_count_marks(a, b, lo, hi - 1, j1, j2);
        } else if j1 == hi - 1 {
            lemma_diff_count_marks(a, b, lo, hi - 1, j1, j2);
        } else if j2 == hi - 1 {
            lemma_diff_count_marks(a, b, lo, hi - 1, j1, j2);
        } else {
            lemma_diff_count_marks(a, b, lo, hi - 1, j1, j2);
        }
    }
}

/// A slot owing a change is in particular a slot where the harps differ.
pub proof fn lemma_num_changes_le_diff(a: Seq<u8>, b: Seq<u8>, lo: int, hi: int)
    ensures
        spec_num_changes(a, b, lo, hi) <= spec_diff_count(a, b, lo, hi),
    decreases hi - lo,
{
    if lo < hi {
        lemma_num_changes_le_diff(a, b, lo, hi - 1);
    }
}

/// Outstanding changes split over adjacent slot ranges.
pub proof fn lemma_num_changes_split(a: Seq<u8>, b: Seq<u8>, lo: int, m: int, hi: int)
    requires
        lo <= m <= hi,
    ensures
        spec_num_changes(a, b, lo, hi) == spec_num_changes(a, b, lo, m) + spec_num_changes(
            a,
            b,
            m,
            hi,
        ),
    decreases hi - m,
{
    if m < hi {
        lemma_num_changes_split(a, b, lo, m, hi - 1);
    }
}

/// A range owes no changes exactly when no slot in it is set differently in
/// both harps.
pub proof fn lemma_num_changes_zero_iff(a: Seq<u8>, b: Seq<u8>, lo: int, hi: int)
    ensures
        spec_num_changes(a, b, lo, hi) == 0 <==> forall|j: int|
            lo <= j < hi ==> !(a[j] != 0 && b[j] != 0 && a[j] != b[j]),
    decreases hi - lo,
{
    if lo < hi {
        lemma_num_changes_zero_iff(a, b, lo, hi - 1);
    }
}

/// How many of the two awkward string crossings a harp holds: C-flat against
/// B-sharp, and E-sharp against F-flat. Each pair counts independently.
pub open spec fn spec_num_crossed(h: Seq<u8>) -> nat {
    (if h[1] == 1 && h[2] == 3 {
        1nat
    } else {
        0nat
    }) + (if h[3] == 3 && h[4] == 1 {
        1nat
    } else {
        0nat
    })
}

pub fn num_crossed(state: Harp) -> (r: usize)
    ensures
        r == spec_num_crossed(state@),
        r <= 2,
{
    let mut out: usize = 0;
    if state[1] == 1 && state[2] == 3 {
        out = out + 1;
    }
    if state[3] == 3 && state[4] == 1 {
        out = out + 1;
    }
    out
}

/// How many entries of a sequence repeat an earlier entry.
pub open spec fn spec_dup_count(s: Seq<u8>) -> nat
    decreases s.len(),
{
    if s.len() == 0 {
        0
    } else if s.drop_last().contains(s.last()) {
        spec_dup_count(s.drop_last()) + 1
    } else {
        spec_dup_count(s.drop_last())
    }
}

/// The doubled-string count: how many of a harp's sounding pitches share a
/// pitch class with an earlier string. This is the number of notes minus the
/// number of distinct pitch classes.
pub open spec fn spec_num_same(h: Seq<u8>) -> nat {
    spec_dup_count(spec_harp_notes(h, 0, 7).map_values(|n: Note| spec_note_to_pc(n)))
}

pub fn num_same(state: Harp) -> (r: usize)
    requires
        harp_wf(state@),
    ensures
        r == spec_num_same(state@),
{
    let notes = harp_to_notes(state);
    let mut pcs: Vec<u8> = Vec::new();
    for i in 0..notes.len()
        invariant
            pcs@ == notes@.subrange(0, i as int).map_values(|n: Note| spec_note_to_pc(n)),
    {
        pcs.push(note_to_pc(notes[i]));
        proof {
            assert(notes@.subrange(0, i + 1) =~= notes@.subrange(0, i as int).push(notes@[
                i as int
            ]));
            assert(notes@.subrange(0, i + 1).map_values(|n: Note| spec_note_to_pc(n))
                =~= notes@.subrange(0, i as int).map_values(|n: Note| spec_note_to_pc(n)).push(
                spec_note_to_pc(notes@[i as int]),
            ));
        }
    }
    proof {
        assert(notes@.subrange(0, notes@.len() as int) =~= notes@);
    }
    let mut count: usize = 0;
    for i in 0..pcs.len()
        invariant
            count == spec_dup_count(pcs@.subrange(0, i as int)),
            count <= i,
    {
        let mut found = false;
        for j in 0..i
            invariant
                j <= i < pcs@.len(),
                found == pcs@.subrange(0, j as int).contains(pcs@[i as int]),
        {
            proof {
                assert(pcs@.subrange(0, j + 1).drop_last() =~= pcs@.subrange(0, j as int));
            }
            if pcs[j] == pcs[i] {
                found = true;
            }
            proof {
                if found {
                    if pcs@[j as int] == pcs@[i as int] {
                        assert(pcs@.subrange(0, j + 1)[j as int] == pcs@[i as int]);
                    } else {
                        let w = choose|w: int|
                            0 <= w < j && pcs@.subrange(0, j as int)[w] == pcs@[i as int];
                        assert(pcs@.subrange(0, j + 1)[w] == pcs@[i as int]);
                    }
                }
            }
        }
        if found {
            count = count + 1;
        }
        proof {
            let pre = pcs@.subrange(0, i + 1);
            assert(pre.drop_last() =~= pcs@.subrange(0, i as int));
            assert(pre.last() == pcs@[i as int]);
        }
    }
    proof {
        assert(pcs@.subrange(0, pcs@.len() as int) =~= pcs@);
    }
    count
}

/// The notes of the slots in `[lo, hi)` that `target` sets to a value
/// `state` does not already hold.
pub open spec fn spec_shift_notes(state: Seq<u8>, target: Seq<u8>, lo: int, hi: int) -> Seq<Note>
    decreases hi - lo,
{
    if lo >= hi {
        Seq::empty()
    } else if target[hi - 1] != 0 && state[hi - 1] != target[hi - 1] {
        spec_shift_notes(state, target, lo, hi - 1).push(
            spec_idx_to_note((hi - 1) as usize, target[hi - 1]).unwrap(),
        )
    } else {
        spec_shift_notes(state, target, lo, hi - 1)
    }
}

fn shift_notes(state: Harp, target: Harp, lo: usize, hi: usize) -> (r: Vec<Note>)
    requires
        harp_wf(target@),
        lo <= hi <= 7,
    ensures
        r@ == spec_shift_notes(state@, target@, lo as int, hi as int),
{
    let mut out: Vec<Note> = Vec::new();
    for i in lo..hi
        invariant
            harp_wf(target@),
            lo <= i <= hi <= 7,
            out@ == spec_shift_notes(state@, target@, lo as int, i as int),
    {
        if target[i] != 0 && state[i] != target[i] {
            if let Some(n) = idx_to_note(i, target[i]) {
                out.push(n);
            }
        }
    }
    out
}

/// The notes each foot must newly set to carry `state` onto `target`,
/// left-foot slots first.
pub fn get_pedal_changes(state: Harp, target: Harp) -> (r: (Vec<Note>, Vec<Note>))
    requires
        harp_wf(target@),
    ensures
        r.0@ == spec_shift_notes(state@, target@, 0, 3),
        r.1@ == spec_shift_notes(state@, target@, 3, 7),
{
    let left_shifts = shift_notes(state, target, 0, 3);
    let right_shifts = shift_notes(state, target, 3, 7);
    (left_shifts, right_shifts)
}

/// Whether playing this note would move a pedal that stands elsewhere.
pub fn is_change(state: Harp, note: Note) -> (r: bool)
    ensures
        r == (state@[spec_name_to_usize(note.name) as int] != 0
            && state@[spec_name_to_usize(note.name) as int] != spec_modifier_to_u8(
            note.accidental,
        )),
{
    let idx = name_to_usize(note.name);
    let m = modifier_to_u8(note.accidental);
    !(state[idx] == 0 || state[idx] == m)
}

/// One diagram character per slot.
pub open spec fn spec_slot_symbol(v: u8) -> char {
    crate::note::spec_pedal_symbol_opt(spec_u8_to_modifier(v))
}

/// The eight characters of a pedal diagram: the three left-foot slots, a
/// bar, then the four right-foot slots.
pub open spec fn spec_pedal_diagram(h: Seq<u8>) -> Seq<char> {
    seq![
        spec_slot_symbol(h[0]),
        spec_slot_symbol(h[1]),
        spec_slot_symbol(h[2]),
        '|',
        spec_slot_symbol(h[3]),
        spec_slot_symbol(h[4]),
        spec_slot_symbol(h[5]),
        spec_slot_symbol(h[6]),
    ]
}

fn slot_symbol_str(v: u8) -> (r: &'static str)
    requires
        v <= 3,
    ensures
        r@ =~= seq![spec_slot_symbol(v)],
{
    match v {
        0 => {
            proof {
                reveal_strlit("~");
            }
            "~"
        },
        1 => {
            proof {
                reveal_strlit("^");
            }
            "^"
        },
        2 => {
            proof {
                reveal_strlit("-");
            }
            "-"
        },
        _ => {
            proof {
                reveal_strlit("v");
            }
            "v"
        },
    }
}

/// Renders a harp as its eight-character pedal diagram.
pub fn pedal_diagram(harp: Harp) -> (r: String)
    requires
        harp_wf(harp@),
    ensures
        r@ == spec_pedal_diagram(harp@),
{
    let mut out = String::new();
    out.append(slot_symbol_str(harp[0]));
    out.append(slot_symbol_str(harp[1]));
    out.append(slot_symbol_str(harp[2]));
    proof {
        reveal_strlit("|");
    }
    out.append("|");
    out.append(slot_symbol_str(harp[3]));
    out.append(slot_symbol_str(harp[4]));
    out.append(slot_symbol_str(harp[5]));
    out.append(slot_symbol_str(harp[6]));
    proof {
        assert(out@ =~= spec_pedal_diagram(harp@));
    }
    out
}

} // verus!
