//! The spelling enumerator: every way to spell a chord's pitch classes on
//! distinct pedals, found by backtracking that abandons a branch as soon as
//! no completion of it can exist.
use vstd::prelude::*;
use crate::harp::{
    notes_to_harp, spec_modifier_to_u8, spec_name_to_usize, spec_notes_to_harp, spec_update_harp,
    update_harp, Harp,
};
use crate::note::{Name, Note};
use crate::pitch_class::{pc_to_notes, spec_pc_to_notes, PitchClass};
use crate::util::lemma_contains_push;

verus! {

/// The spellings of a pitch class whose pedal names are still free.
pub open spec fn spec_viable(pc: u8, used: Seq<Name>) -> Seq<Note> {
    spec_pc_to_notes(pc).filter(|n: Note| !used.contains(n.name))
}

fn contains_name(used: &Vec<Name>, n: Name) -> (r: bool)
    ensures
        r == used@.contains(n),
{
    for i in 0..used.len()
        invariant
            forall|j: int| 0 <= j < i ==> used@[j] != n,
    {
        if used[i] == n {
            assert(used@.contains(n));
            return true;
        }
    }
    false
}

/// What pedals can play this pitch class, avoiding names already claimed by
/// another note of the same chord.
fn viable_pedals(pc: PitchClass, used: &Vec<Name>) -> (r: Vec<Note>)
    ensures
        r@ == spec_viable(pc, used@),
{
    let notes = pc_to_notes(pc);
    let mut out: Vec<Note> = Vec::new();
    let ghost pred = |n: Note| !used@.contains(n.name);
    assert(out@ =~= notes@.subrange(0, 0).filter(pred));
    for i in 0..notes.len()
        invariant
            notes@ == spec_pc_to_notes(pc),
            pred == (|n: Note| !used@.contains(n.name)),
            out@ == notes@.subrange(0, i as int).filter(pred),
    {
        let keep = !contains_name(used, notes[i].name);
        if keep {
            out.push(notes[i]);
        }
        proof {
            let pre = notes@.subrange(0, i as int);
            let cur = notes@.subrange(0, i + 1);
            assert(cur.drop_last() =~= pre);
            assert(cur.last() == notes@[i as int]);
            reveal_with_fuel(Seq::filter, 2);
            assert(cur.filter(pred) == if pred(notes@[i as int]) {
                pre.filter(pred).push(notes@[i as int])
            } else {
                pre.filter(pred)
            });
        }
    }
    proof {
        assert(notes@.subrange(0, notes@.len() as int) =~= notes@);
    }
    out
}

/// Whether the pitch classes can all be spelled on mutually distinct pedal
/// names that also avoid the already-used ones.
pub open spec fn spec_assignable(pcs: Seq<u8>, used: Seq<Name>) -> bool
    decreases pcs.len(),
{
    if pcs.len() == 0 {
        true
    } else {
        exists|i: int|
            0 <= i < spec_viable(pcs[0], used).len() && spec_assignable(
                pcs.drop_first(),
                used.push(#[trigger] spec_viable(pcs[0], used)[i].name),
            )
    }
}

/// A complete spelling of the pitch classes: one viable note per pitch
/// class, each claiming its pedal name for the rest of the chord.
pub open spec fn spec_assignment_ok(path: Seq<Note>, pcs: Seq<u8>, used: Seq<Name>) -> bool
    decreases pcs.len(),
{
    if pcs.len() == 0 {
        path.len() == 0
    } else {
        &&& path.len() == pcs.len()
        &&& spec_viable(pcs[0], used).contains(path[0])
        &&& spec_assignment_ok(path.drop_first(), pcs.drop_first(), used.push(path[0].name))
    }
}

/// A complete spelling sounds the right pitch classes and claims each pedal
/// name at most once, never one already used.
pub proof fn lemma_assignment_names(path: Seq<Note>, pcs: Seq<u8>, used: Seq<Name>)
    requires
        spec_assignment_ok(path, pcs, used),
    ensures
        path.len() == pcs.len(),
        forall|i: int|
            0 <= i < path.len() ==> crate::pitch_class::spec_note_to_pc(#[trigger] path[i])
                == pcs[i] % 12,
        forall|i: int| 0 <= i < path.len() ==> !used.contains((#[trigger] path[i]).name),
        forall|i: int, j: int| 0 <= i < j < path.len() ==> path[i].name != path[j].name,
    decreases pcs.len(),
{
    if pcs.len() > 0 {
        lemma_assignment_names(path.drop_first(), pcs.drop_first(), used.push(path[0].name));
        let v = spec_viable(pcs[0], used);
        crate::pitch_class::lemma_pc_to_notes_sound(pcs[0]);
        crate::util::lemma_filter_members(
            spec_pc_to_notes(pcs[0]),
            |n: Note| !used.contains(n.name),
        );
        assert(v.contains(path[0]));
        assert(spec_pc_to_notes(pcs[0]).contains(path[0]));
        let w = choose|w: int|
            0 <= w < spec_pc_to_notes(pcs[0]).len() && spec_pc_to_notes(pcs[0])[w] == path[0];
        assert(crate::pitch_class::spec_note_to_pc(path[0]) == pcs[0] % 12);
        assert forall|i: int| 0 <= i < path.len() implies crate::pitch_class::spec_note_to_pc(
            #[trigger] path[i],
        ) == pcs[i] % 12 by {
            if i > 0 {
                assert(path.drop_first()[i - 1] == path[i]);
                assert(pcs.drop_first()[i - 1] == pcs[i]);
            }
        }
        assert(!used.contains(path[0].name)) by {
            assert(v.contains(path[0]));
        }
        assert forall|i: int| 0 <= i < path.len() implies !used.contains(
            (#[trigger] path[i]).name,
        ) by {
            if i > 0 {
                assert(path.drop_first()[i - 1] == path[i]);
                assert(!used.push(path[0].name).contains(path[i].name));
                lemma_contains_push(used, path[0].name);
            }
        }
        assert forall|i: int, j: int| 0 <= i < j < path.len() implies path[i].name != path[
            j
        ].name by {
            if i == 0 {
                assert(path.drop_first()[j - 1] == path[j]);
                assert(!used.push(path[0].name).contains(path[j].name));
                lemma_contains_push(used, path[0].name);
            } else {
                assert(path.drop_first()[i - 1] == path[i]);
                assert(path.drop_first()[j - 1] == path[j]);
            }
        }
    }
}

fn vec_push_copy(used: &Vec<Name>, n: Name) -> (r: Vec<Name>)
    ensures
        r@ == used@.push(n),
{
    let mut out: Vec<Name> = Vec::new();
    for i in 0..used.len()
        invariant
            out@ == used@.subrange(0, i as int),
    {
        out.push(used[i]);
        proof {
            assert(used@.subrange(0, i + 1) =~= used@.subrange(0, i as int).push(used@[i as int]));
        }
    }
    proof {
        assert(used@.subrange(0, used@.len() as int) =~= used@);
    }
    out.push(n);
    out
}

/// Appends one branch's completions, each prefixed with the branch's note.
fn append_branch(out: &mut Vec<Vec<Note>>, head: Note, sub: &Vec<Vec<Note>>)
    ensures
        final(out)@.len() == old(out)@.len() + sub@.len(),
        forall|x: int| 0 <= x < old(out)@.len() ==> final(out)@[x] == old(out)@[x],
        forall|y: int|
            0 <= y < sub@.len() ==> (#[trigger] final(out)@[old(out)@.len() + y])@ == seq![head]
                + sub@[y]@,
{
    let ghost base = out@;
    for y in 0..sub.len()
        invariant
            out@.len() == base.len() + y,
            forall|x: int| 0 <= x < base.len() ==> out@[x] == base[x],
            forall|y2: int|
                0 <= y2 < y ==> (#[trigger] out@[base.len() + y2])@ == seq![head] + sub@[y2]@,
    {
        let mut p2: Vec<Note> = Vec::new();
        p2.push(head);
        let branch = &sub[y];
        for z in 0..branch.len()
            invariant
                p2@ == seq![head] + branch@.subrange(0, z as int),
                out@.len() == base.len() + y,
                forall|x: int| 0 <= x < base.len() ==> out@[x] == base[x],
                forall|y2: int|
                    0 <= y2 < y ==> (#[trigger] out@[base.len() + y2])@ == seq![head] + sub@[y2]@,
                branch == sub@[y as int],
        {
            p2.push(branch[z]);
            proof {
                assert(seq![head] + branch@.subrange(0, z + 1) =~= (seq![head] + branch@.subrange(
                    0,
                    z as int,
                )).push(branch@[z as int]));
            }
        }
        proof {
            assert(branch@.subrange(0, branch@.len() as int) =~= branch@);
        }
        out.push(p2);
    }
}

/// All complete spellings of the pitch classes from `k` on, each listed
/// exactly once. A branch whose remaining pitch classes admit no completion
/// contributes nothing, so dead subtrees are abandoned as soon as they are
/// entered.
fn assign_rec(pcs: &[PitchClass], k: usize, used: &Vec<Name>) -> (r: Vec<Vec<Note>>)
    requires
        k <= pcs@.len(),
    ensures
        forall|x: int|
            0 <= x < r@.len() ==> spec_assignment_ok(
                (#[trigger] r@[x])@,
                pcs@.subrange(k as int, pcs@.len() as int),
                used@,
            ),
        r@.len() > 0 <==> spec_assignable(pcs@.subrange(k as int, pcs@.len() as int), used@),
        forall|path: Seq<Note>|
            #[trigger] spec_assignment_ok(path, pcs@.subrange(k as int, pcs@.len() as int), used@)
                ==> exists|x: int| 0 <= x < r@.len() && (#[trigger] r@[x])@ == path,
        forall|x: int, y: int|
            0 <= x < y < r@.len() ==> (#[trigger] r@[x])@ != (#[trigger] r@[y])@,
    decreases pcs@.len() - k,
{
    let ghost rest = pcs@.subrange(k as int, pcs@.len() as int);
    let mut out: Vec<Vec<Note>> = Vec::new();
    if k == pcs.len() {
        let empty: Vec<Note> = Vec::new();
        out.push(empty);
        proof {
            assert(rest.len() == 0);
            assert(out@[0]@ =~= Seq::<Note>::empty());
            assert forall|path: Seq<Note>| #[trigger] spec_assignment_ok(path, rest, used@)
                implies exists|x: int| 0 <= x < out@.len() && (#[trigger] out@[x])@ == path by {
                assert(path =~= Seq::<Note>::empty());
                assert(out@[0]@ == path);
            }
        }
        return out;
    }
    assert(k < pcs.len());
    let vs = viable_pedals(pcs[k], used);
    proof {
        assert(rest[0] == pcs@[k as int]);
        assert(rest.drop_first() =~= pcs@.subrange(k + 1, pcs@.len() as int));
        crate::pitch_class::lemma_pc_to_notes_sound(pcs@[k as int]);
        assert forall|a: int, b: int|
            0 <= a < b < spec_pc_to_notes(pcs@[k as int]).len() implies spec_pc_to_notes(
            pcs@[k as int],
        )[a] != spec_pc_to_notes(pcs@[k as int])[b] by {
            assert(spec_pc_to_notes(pcs@[k as int])[a].name != spec_pc_to_notes(pcs@[k as int])[
                b
            ].name);
        }
        crate::util::lemma_filter_no_dup(
            spec_pc_to_notes(pcs@[k as int]),
            |n: Note| !used@.contains(n.name),
        );
    }
    for i in 0..vs.len()
        invariant
            k < pcs@.len() <= usize::MAX,
            rest == pcs@.subrange(k as int, pcs@.len() as int),
            vs@ == spec_viable(pcs@[k as int], used@),
            forall|a: int, b: int| 0 <= a < b < vs@.len() ==> vs@[a] != vs@[b],
            forall|x: int|
                0 <= x < out@.len() ==> spec_assignment_ok((#[trigger] out@[x])@, rest, used@),
            (out@.len() > 0 <==> exists|ii: int|
                0 <= ii < i && spec_assignable(
                    rest.drop_first(),
                    used@.push(#[trigger] vs@[ii].name),
                )),
            forall|x: int|
                0 <= x < out@.len() ==> (#[trigger] out@[x])@.len() > 0 && exists|ii: int|
                    0 <= ii < i && out@[x]@[0] == #[trigger] vs@[ii],
            forall|x: int, y: int|
                0 <= x < y < out@.len() ==> (#[trigger] out@[x])@ != (#[trigger] out@[y])@,
            forall|path: Seq<Note>|
                (#[trigger] spec_assignment_ok(path, rest, used@)) && (exists|ii: int|
                    0 <= ii < i && path[0] == #[trigger] vs@[ii]) ==> exists|x: int|
                    0 <= x < out@.len() && (#[trigger] out@[x])@ == path,
    {
        let new_used = vec_push_copy(used, vs[i].name);
        let sub = assign_rec(pcs, k + 1, &new_used);
        let ghost pre = out@;
        append_branch(&mut out, vs[i], &sub);
        proof {
            assert(vs@.contains(vs@[i as int]));
            assert(rest.drop_first() =~= pcs@.subrange(k + 1, pcs@.len() as int));
            // every appended completion realizes the remaining chord
            assert forall|y: int| 0 <= y < sub@.len() implies spec_assignment_ok(
                (#[trigger] out@[pre.len() + y])@,
                rest,
                used@,
            ) by {
                assert(out@[pre.len() + y]@ == seq![vs@[i as int]] + sub@[y]@);
                assert(spec_assignment_ok(
                    sub@[y]@,
                    pcs@.subrange(k + 1, pcs@.len() as int),
                    new_used@,
                ));
                assert((seq![vs@[i as int]] + sub@[y]@).drop_first() =~= sub@[y]@);
                assert((seq![vs@[i as int]] + sub@[y]@)[0] == vs@[i as int]);
            }
            assert forall|x: int| 0 <= x < out@.len() implies spec_assignment_ok(
                (#[trigger] out@[x])@,
                rest,
                used@,
            ) by {
                if x < pre.len() {
                    assert(out@[x] == pre[x]);
                } else {
                    assert(spec_assignment_ok(out@[pre.len() + (x - pre.len())]@, rest, used@));
                }
            }
            // heads: each entry opens with its branch's note
            assert forall|x: int| 0 <= x < out@.len() implies (#[trigger] out@[x])@.len() > 0
                && exists|ii: int| 0 <= ii < i + 1 && out@[x]@[0] == #[trigger] vs@[ii] by {
                if x < pre.len() {
                    assert(out@[x] == pre[x]);
                } else {
                    let y0 = x - pre.len();
                    assert(out@[pre.len() + y0]@ == seq![vs@[i as int]] + sub@[y0]@);
                    assert(out@[x]@[0] == vs@[i as int]);
                }
            }
            // distinctness: branches differ in their head, completions of
            // one branch differ in their tail
            assert forall|x: int, y: int| 0 <= x < y < out@.len() implies (#[trigger] out@[x])@
                != (#[trigger] out@[y])@ by {
                if y < pre.len() {
                    assert(out@[x] == pre[x] && out@[y] == pre[y]);
                } else if x < pre.len() {
                    assert(out@[x] == pre[x]);
                    let ii = choose|ii: int| 0 <= ii < i && pre[x]@[0] == #[trigger] vs@[ii];
                    let y0 = y - pre.len();
                    assert(out@[pre.len() + y0]@ == seq![vs@[i as int]] + sub@[y0]@);
                    assert(out@[y]@[0] == vs@[i as int]);
                    assert(vs@[ii] != vs@[i as int]);
                    assert(out@[x]@[0] != out@[y]@[0]);
                } else {
                    let y1 = x - pre.len();
                    let y2 = y - pre.len();
                    assert(out@[pre.len() + y1]@ == seq![vs@[i as int]] + sub@[y1]@);
                    assert(out@[pre.len() + y2]@ == seq![vs@[i as int]] + sub@[y2]@);
                    assert(sub@[y1]@ != sub@[y2]@);
                    assert((seq![vs@[i as int]] + sub@[y1]@).drop_first() =~= sub@[y1]@);
                    assert((seq![vs@[i as int]] + sub@[y2]@).drop_first() =~= sub@[y2]@);
                }
            }
            // completeness: a spelling heading an already-handled branch was
            // already listed; one heading this branch closes over one of the
            // branch's completions
            assert forall|path: Seq<Note>|
                (#[trigger] spec_assignment_ok(path, rest, used@)) && (exists|ii: int|
                    0 <= ii < i + 1 && path[0] == #[trigger] vs@[ii]) implies exists|x: int|
                0 <= x < out@.len() && (#[trigger] out@[x])@ == path by {
                if exists|ii: int| 0 <= ii < i && path[0] == #[trigger] vs@[ii] {
                    let x0 = choose|x0: int| 0 <= x0 < pre.len() && (#[trigger] pre[x0])@ == path;
                    assert(out@[x0] == pre[x0]);
                } else {
                    assert(path[0] == vs@[i as int]);
                    assert(spec_assignment_ok(
                        path.drop_first(),
                        rest.drop_first(),
                        used@.push(path[0].name),
                    ));
                    assert(used@.push(path[0].name) == new_used@);
                    assert(spec_assignment_ok(
                        path.drop_first(),
                        pcs@.subrange(k + 1, pcs@.len() as int),
                        new_used@,
                    ));
                    let y = choose|y: int|
                        0 <= y < sub@.len() && (#[trigger] sub@[y])@ == path.drop_first();
                    assert(out@[pre.len() + y]@ == seq![vs@[i as int]] + sub@[y]@);
                    assert(seq![vs@[i as int]] + path.drop_first() =~= path);
                }
            }
            if sub@.len() > 0 {
                assert(spec_assignment_ok(sub@[0]@, pcs@.subrange(k + 1, pcs@.len() as int),
                    new_used@));
                lemma_assignment_ok_implies_assignable(
                    sub@[0]@,
                    pcs@.subrange(k + 1, pcs@.len() as int),
                    new_used@,
                );
                assert(spec_assignable(rest.drop_first(), used@.push(vs@[i as int].name)));
                assert(out@.len() > 0);
            } else {
                assert(!spec_assignable(pcs@.subrange(k + 1, pcs@.len() as int), new_used@));
                assert(!spec_assignable(rest.drop_first(), used@.push(vs@[i as int].name)));
            }
        }
    }
    proof {
        if out@.len() > 0 {
            let ii = choose|ii: int|
                0 <= ii < vs@.len() && spec_assignable(
                    rest.drop_first(),
                    used@.push(#[trigger] vs@[ii].name),
                );
            assert(spec_assignable(rest, used@));
        }
        if spec_assignable(rest, used@) {
            let ii = choose|ii: int|
                0 <= ii < spec_viable(rest[0], used@).len() && spec_assignable(
                    rest.drop_first(),
                    used@.push(#[trigger] spec_viable(rest[0], used@)[ii].name),
                );
            assert(vs@[ii] == spec_viable(rest[0], used@)[ii]);
            assert(out@.len() > 0);
        }
        // every complete spelling opens with some viable note, so it was
        // listed by that note's branch
        assert forall|path: Seq<Note>| #[trigger] spec_assignment_ok(path, rest, used@)
            implies exists|x: int| 0 <= x < out@.len() && (#[trigger] out@[x])@ == path by {
            assert(vs@.contains(path[0]));
            let ii = choose|ii: int| 0 <= ii < vs@.len() && vs@[ii] == path[0];
            assert(path[0] == vs@[ii]);
        }
    }
    out
}

/// A complete spelling witnesses assignability.
proof fn lemma_assignment_ok_implies_assignable(path: Seq<Note>, pcs: Seq<u8>, used: Seq<Name>)
    requires
        spec_assignment_ok(path, pcs, used),
    ensures
        spec_assignable(pcs, used),
    decreases pcs.len(),
{
    if pcs.len() > 0 {
        lemma_assignment_ok_implies_assignable(
            path.drop_first(),
            pcs.drop_first(),
            used.push(path[0].name),
        );
        let v = spec_viable(pcs[0], used);
        let k = choose|k: int| 0 <= k < v.len() && v[k] == path[0];
        assert(0 <= k < v.len() && spec_assignable(pcs.drop_first(), used.push(v[k].name)));
    }
}

/// The fixed screening order: pitch classes with a single spelling first,
/// so that colliding branches die as early as possible; repeats and values
/// outside one octave are dropped.
pub open spec fn spec_screen_order() -> Seq<u8> {
    seq![1u8, 6u8, 11u8, 0u8, 2u8, 3u8, 4u8, 5u8, 7u8, 8u8, 9u8, 10u8]
}

/// The chord's pitch classes in screening order.
pub open spec fn spec_sanitize(notes: Seq<u8>) -> Seq<u8> {
    spec_screen_order().filter(|x: u8| notes.contains(x))
}

fn slice_contains_u8(notes: &[PitchClass], x: u8) -> (r: bool)
    ensures
        r == notes@.contains(x),
{
    for i in 0..notes.len()
        invariant
            forall|j: int| 0 <= j < i ==> notes@[j] != x,
    {
        if notes[i] == x {
            assert(notes@.contains(x));
            return true;
        }
    }
    false
}

fn sanitize(notes: &[PitchClass]) -> (r: Vec<PitchClass>)
    ensures
        r@ == spec_sanitize(notes@),
{
    let order: [u8; 12] = [1, 6, 11, 0, 2, 3, 4, 5, 7, 8, 9, 10];
    proof {
        assert(order@ =~= spec_screen_order());
    }
    let ghost pred = |x: u8| notes@.contains(x);
    let mut out: Vec<PitchClass> = Vec::new();
    assert(out@ =~= order@.subrange(0, 0).filter(pred));
    for i in 0..12usize
        invariant
            order@ == spec_screen_order(),
            pred == (|x: u8| notes@.contains(x)),
            out@ == order@.subrange(0, i as int).filter(pred),
    {
        if slice_contains_u8(notes, order[i]) {
            out.push(order[i]);
        }
        proof {
            let pre = order@.subrange(0, i as int);
            let cur = order@.subrange(0, i + 1);
            assert(cur.drop_last() =~= pre);
            assert(cur.last() == order@[i as int]);
            reveal_with_fuel(Seq::filter, 2);
            assert(cur.filter(pred) == if pred(order@[i as int]) {
                pre.filter(pred).push(order@[i as int])
            } else {
                pre.filter(pred)
            });
        }
    }
    proof {
        assert(order@.subrange(0, 12) =~= order@);
    }
    out
}

/// The pedal names a preset claims.
pub open spec fn spec_names_of(notes: Seq<Note>) -> Seq<Name> {
    notes.map_values(|n: Note| n.name)
}

/// The screening order lists each pitch class once, all below one octave,
/// so a sanitized chord holds pairwise distinct pitch classes below 12.
pub proof fn lemma_sanitize_distinct(notes: Seq<u8>)
    ensures
        forall|i: int, j: int|
            0 <= i < j < spec_sanitize(notes).len() ==> spec_sanitize(notes)[i]
                != spec_sanitize(notes)[j],
        forall|i: int|
            0 <= i < spec_sanitize(notes).len() ==> #[trigger] spec_sanitize(notes)[i] < 12,
{
    let order = spec_screen_order();
    assert(forall|i: int, j: int| 0 <= i < j < order.len() ==> order[i] != order[j]);
    assert(forall|w: int| 0 <= w < order.len() ==> order[w] < 12);
    crate::util::lemma_filter_no_dup(order, |x: u8| notes.contains(x));
    crate::util::lemma_filter_members(order, |x: u8| notes.contains(x));
    assert forall|i: int|
        0 <= i < spec_sanitize(notes).len() implies #[trigger] spec_sanitize(notes)[i] < 12 by {
        assert(spec_sanitize(notes).contains(spec_sanitize(notes)[i]));
        assert(order.contains(spec_sanitize(notes)[i]));
        let w = choose|w: int| 0 <= w < order.len() && order[w] == spec_sanitize(notes)[i];
    }
}

/// Distinct complete spellings of a chord of pairwise distinct pitch
/// classes produce distinct harps: the first position where the spellings
/// disagree leaves a visible trace on some pedal.
pub proof fn lemma_assign_injective(p1: Seq<Note>, p2: Seq<Note>, pcs: Seq<u8>, preset: Seq<Note>)
    requires
        spec_assignment_ok(p1, pcs, spec_names_of(preset)),
        spec_assignment_ok(p2, pcs, spec_names_of(preset)),
        forall|i: int, j: int| 0 <= i < j < pcs.len() ==> pcs[i] != pcs[j],
        forall|i: int| 0 <= i < pcs.len() ==> #[trigger] pcs[i] < 12,
        p1 != p2,
    ensures
        spec_update_harp(spec_notes_to_harp(p1), spec_notes_to_harp(preset)) != spec_update_harp(
            spec_notes_to_harp(p2),
            spec_notes_to_harp(preset),
        ),
{
    let used = spec_names_of(preset);
    lemma_assignment_names(p1, pcs, used);
    lemma_assignment_names(p2, pcs, used);
    crate::harp::lemma_name_slot_roundtrip();
    crate::harp::lemma_notes_to_harp_index(p1);
    crate::harp::lemma_notes_to_harp_index(p2);
    if forall|i: int| 0 <= i < p1.len() ==> #[trigger] p1[i] == p2[i] {
        assert(p1 =~= p2);
    }
    let i = choose|i: int| 0 <= i < p1.len() && p1[i] != p2[i];
    let s1 = spec_name_to_usize(p1[i].name) as int;
    let h1 = spec_update_harp(spec_notes_to_harp(p1), spec_notes_to_harp(preset));
    let h2 = spec_update_harp(spec_notes_to_harp(p2), spec_notes_to_harp(preset));
    // the preset never touches this pedal
    assert(!used.contains(p1[i].name));
    assert forall|j: int|
        0 <= j < preset.len() implies spec_name_to_usize((#[trigger] preset[j]).name) != s1 by {
        assert(used[j] == preset[j].name);
        if preset[j].name == p1[i].name {
            assert(used.contains(p1[i].name));
        }
        if spec_name_to_usize(preset[j].name) == s1 {
            assert(preset[j].name == p1[i].name);
        }
    }
    crate::harp::lemma_notes_to_harp_unnamed(preset, s1);
    assert(h1[s1] == spec_modifier_to_u8(p1[i].accidental));
    if exists|j: int| 0 <= j < p2.len() && (#[trigger] p2[j]).name == p1[i].name {
        let j = choose|j: int| 0 <= j < p2.len() && (#[trigger] p2[j]).name == p1[i].name;
        assert(h2[s1] == spec_modifier_to_u8(p2[j].accidental));
        if p2[j].accidental == p1[i].accidental {
            assert(p2[j] == p1[i]);
            assert(crate::pitch_class::spec_note_to_pc(p2[j]) == pcs[j] % 12);
            assert(crate::pitch_class::spec_note_to_pc(p1[i]) == pcs[i] % 12);
            assert(pcs[j] % 12 == pcs[j] && pcs[i] % 12 == pcs[i]);
            assert(pcs[j] == pcs[i]);
            assert(j == i);
            assert(false);
        }
        assert(spec_modifier_to_u8(p1[i].accidental) != spec_modifier_to_u8(p2[j].accidental));
        assert(h1[s1] != h2[s1]);
    } else {
        assert forall|j: int|
            0 <= j < p2.len() implies spec_name_to_usize((#[trigger] p2[j]).name) != s1 by {
            assert(p2[j].name != p1[i].name);
            if spec_name_to_usize(p2[j].name) == s1 {
                assert(p2[j].name == p1[i].name);
            }
        }
        crate::harp::lemma_notes_to_harp_unnamed(p2, s1);
        assert(h2[s1] == 0);
        assert(h1[s1] != 0);
    }
    assert(h1[s1] != h2[s1]);
}

/// A harp that realizes the chord: some complete spelling of its free pitch
/// classes, overlaid with the preset notes.
pub open spec fn spec_spelling_ok(h: Harp, notes: Seq<u8>, preset: Seq<Note>) -> bool {
    exists|path: Seq<Note>|
        spec_assignment_ok(path, spec_sanitize(notes), spec_names_of(preset)) && h@
            == spec_update_harp(spec_notes_to_harp(path), spec_notes_to_harp(preset))
}

/// A harp that realizes a chord holds only legal slot values.
pub proof fn lemma_spelling_wf(h: Harp, notes: Seq<u8>, preset: Seq<Note>)
    requires
        spec_spelling_ok(h, notes, preset),
    ensures
        crate::harp::harp_wf(h@),
{
    let path = choose|path: Seq<Note>|
        spec_assignment_ok(path, spec_sanitize(notes), spec_names_of(preset)) && h@
            == spec_update_harp(spec_notes_to_harp(path), spec_notes_to_harp(preset));
    crate::harp::lemma_notes_to_harp_wf(path);
    crate::harp::lemma_notes_to_harp_wf(preset);
    crate::harp::lemma_update_harp_wf(spec_notes_to_harp(path), spec_notes_to_harp(preset));
}

/// Every spelling of the chord, each listed exactly once: the preset notes
/// keep their given spelling, and each remaining pitch class takes one of
/// its viable pedals, no pedal name serving two notes of the chord. Every
/// complete collision-free spelling appears. An empty result means the
/// chord is unsatisfiable, which is an expected outcome, not an error.
#[verifier::rlimit(60)]
pub fn assign(preset: &[Note], notes: &[PitchClass]) -> (r: Vec<Harp>)
    ensures
        forall|x: int| 0 <= x < r@.len() ==> spec_spelling_ok(#[trigger] r@[x], notes@, preset@),
        r@.len() > 0 <==> spec_assignable(spec_sanitize(notes@), spec_names_of(preset@)),
        forall|path: Seq<Note>|
            #[trigger] spec_assignment_ok(path, spec_sanitize(notes@), spec_names_of(preset@))
                ==> exists|x: int|
                0 <= x < r@.len() && (#[trigger] r@[x])@ == spec_update_harp(
                    spec_notes_to_harp(path),
                    spec_notes_to_harp(preset@),
                ),
        forall|x: int, y: int| 0 <= x < y < r@.len() ==> r@[x] != r@[y],
{
    let sanitized = sanitize(notes);
    let mut used: Vec<Name> = Vec::new();
    for i in 0..preset.len()
        invariant
            used@ == preset@.subrange(0, i as int).map_values(|n: Note| n.name),
    {
        used.push(preset[i].name);
        proof {
            assert(preset@.subrange(0, i + 1) =~= preset@.subrange(0, i as int).push(preset@[
                i as int
            ]));
            assert(preset@.subrange(0, i + 1).map_values(|n: Note| n.name) =~= preset@.subrange(
                0,
                i as int,
            ).map_values(|n: Note| n.name).push(preset@[i as int].name));
        }
    }
    proof {
        assert(preset@.subrange(0, preset@.len() as int) =~= preset@);
    }
    let paths = assign_rec(sanitized.as_slice(), 0, &used);
    proof {
        assert(sanitized@.subrange(0, sanitized@.len() as int) =~= sanitized@);
        assert forall|path: Seq<Note>|
            #[trigger] spec_assignment_ok(path, spec_sanitize(notes@), used@) implies exists|
                y: int,
            | 0 <= y < paths@.len() && (#[trigger] paths@[y])@ == path by {
            assert(spec_assignment_ok(
                path,
                sanitized@.subrange(0, sanitized@.len() as int),
                used@,
            ));
        }
    }
    let preset_harp = notes_to_harp(preset);
    let mut out: Vec<Harp> = Vec::new();
    for x in 0..paths.len()
        invariant
            used@ == spec_names_of(preset@),
            preset_harp@ == spec_notes_to_harp(preset@),
            forall|y: int|
                0 <= y < paths@.len() ==> spec_assignment_ok(
                    (#[trigger] paths@[y])@,
                    spec_sanitize(notes@),
                    used@,
                ),
            forall|path: Seq<Note>|
                #[trigger] spec_assignment_ok(path, spec_sanitize(notes@), used@) ==> exists|
                    y: int,
                | 0 <= y < paths@.len() && (#[trigger] paths@[y])@ == path,
            forall|y: int, z: int|
                0 <= y < z < paths@.len() ==> (#[trigger] paths@[y])@ != (#[trigger] paths@[z])@,
            out@.len() == x,
            forall|y: int|
                0 <= y < out@.len() ==> (#[trigger] out@[y])@ == spec_update_harp(
                    spec_notes_to_harp(paths@[y]@),
                    spec_notes_to_harp(preset@),
                ),
    {
        let h = notes_to_harp(paths[x].as_slice());
        let merged = update_harp(h, preset_harp);
        out.push(merged);
    }
    proof {
        assert forall|x: int| 0 <= x < out@.len() implies spec_spelling_ok(
            #[trigger] out@[x],
            notes@,
            preset@,
        ) by {
            let path = paths@[x]@;
            assert(spec_assignment_ok(path, spec_sanitize(notes@), spec_names_of(preset@)) && out@[
                x
            ]@ == spec_update_harp(spec_notes_to_harp(path), spec_notes_to_harp(preset@)));
        }
        assert forall|path: Seq<Note>|
            #[trigger] spec_assignment_ok(path, spec_sanitize(notes@), spec_names_of(preset@))
                implies exists|x: int|
            0 <= x < out@.len() && (#[trigger] out@[x])@ == spec_update_harp(
                spec_notes_to_harp(path),
                spec_notes_to_harp(preset@),
            ) by {
            assert(spec_assignment_ok(path, spec_sanitize(notes@), used@));
            let y = choose|y: int| 0 <= y < paths@.len() && (#[trigger] paths@[y])@ == path;
            assert(out@[y]@ == spec_update_harp(
                spec_notes_to_harp(path),
                spec_notes_to_harp(preset@),
            ));
        }
        lemma_sanitize_distinct(notes@);
        assert forall|x: int, y: int| 0 <= x < y < out@.len() implies out@[x] != out@[y] by {
            assert(paths@[x]@ != paths@[y]@);
            assert(spec_assignment_ok(paths@[x]@, spec_sanitize(notes@), spec_names_of(preset@)));
            assert(spec_assignment_ok(paths@[y]@, spec_sanitize(notes@), spec_names_of(preset@)));
            lemma_assign_injective(paths@[x]@, paths@[y]@, spec_sanitize(notes@), preset@);
            assert(out@[x]@ != out@[y]@);
        }
        if paths@.len() > 0 {
            assert(out@.len() > 0);
        }
    }
    out
}

/// Whether a chord of pitch classes can be spelled at all with no pedal
/// name serving two of its notes.
pub fn can_assign(notes: &[PitchClass]) -> (r: bool)
    ensures
        r == spec_assignable(spec_sanitize(notes@), Seq::<Name>::empty()),
{
    let preset: [Note; 0] = [];
    let candidates = assign(preset.as_slice(), notes);
    proof {
        assert(spec_names_of(preset@) =~= Seq::<Name>::empty());
    }
    candidates.len() > 0
}

} // verus!
