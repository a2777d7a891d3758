//! Rescheduling pedal changes: pushing each beat's surplus changes to later
//! beats, one change per beat, never contradicting the music sounding then.
use vstd::prelude::*;
use crate::note::Note;

verus! {

/// A pedal setting is compatible with a beat when every sounding note of
/// the same name already has that accidental.
pub open spec fn spec_can_change(music: Seq<Note>, change: Note) -> bool {
    forall|i: int|
        0 <= i < music.len() ==> ((#[trigger] music[i]).name == change.name ==> music[i].accidental
            == change.accidental)
}

pub fn can_change(music: &Vec<Note>, change: Note) -> (r: bool)
    ensures
        r == spec_can_change(music@, change),
{
    for i in 0..music.len()
        invariant
            forall|j: int|
                0 <= j < i ==> ((#[trigger] music@[j]).name == change.name ==> music@[
                    j
                ].accidental == change.accidental),
    {
        if music[i].name == change.name && music[i].accidental != change.accidental {
            return false;
        }
    }
    true
}

/// Every schedule of the owed changes over the remaining beats, each listed
/// from the last beat's choice back to the first's. A beat may absorb one
/// owed change it is compatible with, or stand idle when nothing is owed.
pub open spec fn spec_change_paths(mc: Seq<(Seq<Note>, Seq<Note>)>, acc: Seq<Note>) -> Seq<
    Seq<Option<Note>>,
>
    decreases mc.len(), 1int, 0int,
{
    if mc.len() == 0 {
        Seq::empty()
    } else {
        let acc2 = acc + mc[0].1;
        if acc2.len() > mc.len() {
            Seq::empty()
        } else if acc2.len() == 0 {
            if mc.len() == 1 {
                seq![seq![Option::<Note>::None]]
            } else {
                spec_change_paths(mc.drop_first(), Seq::empty()).map_values(
                    |p: Seq<Option<Note>>| p.push(None),
                )
            }
        } else {
            spec_change_branches(mc, acc2, 0)
        }
    }
}

/// The schedules that absorb one of the owed changes numbered `i` on, in
/// that order, on the first remaining beat.
pub open spec fn spec_change_branches(
    mc: Seq<(Seq<Note>, Seq<Note>)>,
    acc2: Seq<Note>,
    i: int,
) -> Seq<Seq<Option<Note>>>
    decreases mc.len(), 0int, acc2.len() - i,
{
    if i < 0 || i >= acc2.len() || mc.len() == 0 {
        Seq::empty()
    } else {
        let here: Seq<Seq<Option<Note>>> = if spec_can_change(mc[0].0, acc2[i]) {
            if mc.len() == 1 {
                seq![seq![Some(acc2[i])]]
            } else {
                spec_change_paths(mc.drop_first(), acc2.remove(i)).map_values(
                    |p: Seq<Option<Note>>| p.push(Some(acc2[i])),
                )
            }
        } else {
            Seq::empty()
        };
        here + spec_change_branches(mc, acc2, i + 1)
    }
}

fn concat_notes(a: &Vec<Note>, b: &Vec<Note>) -> (r: Vec<Note>)
    ensures
        r@ == a@ + b@,
{
    let mut out: Vec<Note> = Vec::new();
    for i in 0..a.len()
        invariant
            out@ == a@.subrange(0, i as int),
    {
        out.push(a[i]);
        proof {
            assert(a@.subrange(0, i + 1) =~= a@.subrange(0, i as int).push(a@[i as int]));
        }
    }
    proof {
        assert(a@.subrange(0, a@.len() as int) =~= a@);
    }
    for i in 0..b.len()
        invariant
            out@ == a@ + b@.subrange(0, i as int),
    {
        out.push(b[i]);
        proof {
            assert(a@ + b@.subrange(0, i + 1) =~= (a@ + b@.subrange(0, i as int)).push(b@[
                i as int
            ]));
        }
    }
    proof {
        assert(a@ + b@.subrange(0, b@.len() as int) =~= a@ + b@);
    }
    out
}

fn remove_at(a: &Vec<Note>, i: usize) -> (r: Vec<Note>)
    requires
        i < a@.len(),
    ensures
        r@ == a@.remove(i as int),
{
    let mut out: Vec<Note> = Vec::new();
    for j in 0..a.len()
        invariant
            i < a@.len(),
            out@ == if j <= i {
                a@.subrange(0, j as int)
            } else {
                a@.remove(i as int).subrange(0, j - 1)
            },
    {
        if j != i {
            out.push(a[j]);
        }
        proof {
            if j < i {
                assert(a@.subrange(0, j + 1) =~= a@.subrange(0, j as int).push(a@[j as int]));
            } else if j == i {
                assert(a@.remove(i as int).subrange(0, j as int) =~= a@.subrange(0, j as int));
            } else {
                assert(a@.remove(i as int).subrange(0, j as int) =~= a@.remove(
                    i as int,
                ).subrange(0, j - 1).push(a@[j as int]));
            }
        }
    }
    proof {
        assert(a@.remove(i as int).subrange(0, a@.len() - 1) =~= a@.remove(i as int));
    }
    out
}

fn copy_path_push(p: &Vec<Option<Note>>, last: Option<Note>) -> (r: Vec<Option<Note>>)
    ensures
        r@ == p@.push(last),
{
    let mut out: Vec<Option<Note>> = Vec::new();
    for j in 0..p.len()
        invariant
            out@ == p@.subrange(0, j as int),
    {
        out.push(p[j]);
        proof {
            assert(p@.subrange(0, j + 1) =~= p@.subrange(0, j as int).push(p@[j as int]));
        }
    }
    proof {
        assert(p@.subrange(0, p@.len() as int) =~= p@);
    }
    out.push(last);
    out
}

/// The view of a list of per-beat inputs.
pub open spec fn spec_mc_views(mc: Seq<(Vec<Note>, Vec<Note>)>) -> Seq<(Seq<Note>, Seq<Note>)> {
    mc.map_values(|p: (Vec<Note>, Vec<Note>)| (p.0@, p.1@))
}

/// The view of a list of schedules.
pub open spec fn spec_path_views(r: Seq<Vec<Option<Note>>>) -> Seq<Seq<Option<Note>>> {
    r.map_values(|p: Vec<Option<Note>>| p@)
}

fn change_rec(mc: &[(Vec<Note>, Vec<Note>)], k: usize, acc: Vec<Note>) -> (r: Vec<
    Vec<Option<Note>>,
>)
    requires
        k <= mc@.len(),
    ensures
        spec_path_views(r@) == spec_change_paths(
            spec_mc_views(mc@).subrange(k as int, mc@.len() as int),
            acc@,
        ),
    decreases mc@.len() - k,
{
    let ghost rest = spec_mc_views(mc@).subrange(k as int, mc@.len() as int);
    let mut out: Vec<Vec<Option<Note>>> = Vec::new();
    if k == mc.len() {
        proof {
            assert(spec_path_views(out@) =~= spec_change_paths(rest, acc@));
        }
        return out;
    }
    proof {
        assert(rest[0] == (mc@[k as int].0@, mc@[k as int].1@));
        assert(rest.drop_first() =~= spec_mc_views(mc@).subrange(k + 1, mc@.len() as int));
    }
    let acc2 = concat_notes(&acc, &mc[k].1);
    if acc2.len() > mc.len() - k {
        proof {
            assert(acc2@.len() > rest.len());
            assert(spec_path_views(out@) =~= spec_change_paths(rest, acc@));
        }
        return out;
    }
    if acc2.len() == 0 {
        if k + 1 == mc.len() {
            let mut p: Vec<Option<Note>> = Vec::new();
            p.push(None);
            out.push(p);
            proof {
                assert(rest.len() == 1);
                assert(out@[0]@ =~= seq![Option::<Note>::None]);
                assert(spec_path_views(out@) =~= spec_change_paths(rest, acc@));
            }
            return out;
        }
        let sub = change_rec(mc, k + 1, Vec::new());
        let ghost target = spec_change_paths(rest.drop_first(), Seq::empty()).map_values(
            |p: Seq<Option<Note>>| p.push(Option::<Note>::None),
        );
        for y in 0..sub.len()
            invariant
                spec_path_views(sub@) == spec_change_paths(rest.drop_first(), Seq::empty()),
                target == spec_change_paths(rest.drop_first(), Seq::empty()).map_values(
                    |p: Seq<Option<Note>>| p.push(Option::<Note>::None),
                ),
                out@.len() == y,
                forall|z: int| 0 <= z < y ==> (#[trigger] out@[z])@ == target[z],
        {
            let q = copy_path_push(&sub[y], None);
            proof {
                assert(spec_path_views(sub@)[y as int] == sub@[y as int]@);
            }
            out.push(q);
        }
        proof {
            assert(acc2@ =~= acc@ + rest[0].1);
            assert(spec_path_views(out@) =~= target);
            assert(spec_change_paths(rest, acc@) == target);
        }
        return out;
    }
    let ghost gacc2 = acc2@;
    proof {
        assert(gacc2 =~= acc@ + rest[0].1);
    }
    for i in 0..acc2.len()
        invariant
            k < mc@.len(),
            rest == spec_mc_views(mc@).subrange(k as int, mc@.len() as int),
            rest.drop_first() =~= spec_mc_views(mc@).subrange(k + 1, mc@.len() as int),
            rest[0] == (mc@[k as int].0@, mc@[k as int].1@),
            gacc2 == acc2@,
            0 < gacc2.len() <= rest.len(),
            spec_path_views(out@) + spec_change_branches(rest, gacc2, i as int)
                == spec_change_branches(rest, gacc2, 0),
    {
        let ghost pre = out@;
        if can_change(&mc[k].0, acc2[i]) {
            if k + 1 == mc.len() {
                let mut p: Vec<Option<Note>> = Vec::new();
                p.push(Some(acc2[i]));
                out.push(p);
                proof {
                    assert(out@[out@.len() - 1]@ =~= seq![Some(gacc2[i as int])]);
                    assert(spec_change_branches(rest, gacc2, i as int) == seq![
                        seq![Some(gacc2[i as int])],
                    ] + spec_change_branches(rest, gacc2, i + 1));
                    assert(spec_path_views(out@) =~= spec_path_views(pre) + seq![
                        seq![Some(gacc2[i as int])],
                    ]);
                    assert(spec_path_views(out@) + spec_change_branches(rest, gacc2, i + 1)
                        =~= spec_change_branches(rest, gacc2, 0));
                }
            } else {
                let rest_acc = remove_at(&acc2, i);
                let sub = change_rec(mc, k + 1, rest_acc);
                let ghost here = spec_change_paths(rest.drop_first(), gacc2.remove(
                    i as int,
                )).map_values(|p: Seq<Option<Note>>| p.push(Some(gacc2[i as int])));
                let ghost base = out@;
                for y in 0..sub.len()
                    invariant
                        gacc2 == acc2@,
                        spec_path_views(sub@) == spec_change_paths(
                            rest.drop_first(),
                            gacc2.remove(i as int),
                        ),
                        here == spec_change_paths(rest.drop_first(), gacc2.remove(
                            i as int,
                        )).map_values(|p: Seq<Option<Note>>| p.push(Some(gacc2[i as int]))),
                        i < gacc2.len(),
                        out@.len() == base.len() + y,
                        forall|z: int| 0 <= z < base.len() ==> out@[z] == base[z],
                        forall|z: int|
                            0 <= z < y ==> (#[trigger] out@[base.len() + z])@ == here[z],
                {
                    let q = copy_path_push(&sub[y], Some(acc2[i]));
                    proof {
                        assert(spec_path_views(sub@)[y as int] == sub@[y as int]@);
                    }
                    out.push(q);
                }
                proof {
                    assert(spec_change_branches(rest, gacc2, i as int) == here
                        + spec_change_branches(rest, gacc2, i + 1));
                    assert(here.len() == sub@.len());
                    assert(out@.len() == base.len() + sub@.len());
                    assert forall|z: int|
                        0 <= z < out@.len() implies spec_path_views(out@)[z] == (spec_path_views(
                        base,
                    ) + here)[z] by {
                        if z < base.len() {
                            assert(out@[z] == base[z]);
                        } else {
                            assert(out@[base.len() + (z - base.len())]@ == here[z - base.len()]);
                        }
                    }
                    assert(spec_path_views(out@) =~= spec_path_views(base) + here);
                    assert(spec_path_views(out@) + spec_change_branches(rest, gacc2, i + 1)
                        =~= spec_change_branches(rest, gacc2, 0));
                }
            }
        } else {
            proof {
                assert(spec_change_branches(rest, gacc2, i as int) == Seq::<
                    Seq<Option<Note>>,
                >::empty() + spec_change_branches(rest, gacc2, i + 1));
                assert(spec_change_branches(rest, gacc2, i as int) =~= spec_change_branches(
                    rest,
                    gacc2,
                    i + 1,
                ));
            }
        }
    }
    proof {
        assert(spec_change_branches(rest, gacc2, gacc2.len() as int) =~= Seq::<
            Seq<Option<Note>>,
        >::empty());
        assert(spec_path_views(out@) =~= spec_change_branches(rest, gacc2, 0));
        assert(spec_change_paths(rest, acc@) == spec_change_branches(rest, gacc2, 0));
    }
    out
}

/// All ways to absorb the owed changes into the given beats, newest first:
/// each returned schedule lists its choices from the last given beat back
/// to the first.
pub fn change_builder(music_changes: &[(Vec<Note>, Vec<Note>)], acc: Vec<Note>) -> (r: Vec<
    Vec<Option<Note>>,
>)
    ensures
        spec_path_views(r@) == spec_change_paths(spec_mc_views(music_changes@), acc@),
{
    let r = change_rec(music_changes, 0, acc);
    proof {
        assert(spec_mc_views(music_changes@).subrange(0, music_changes@.len() as int)
            =~= spec_mc_views(music_changes@));
    }
    r
}

/// Reschedules pedal changes later: beat `i`'s changes may land on beat `i`
/// or any later beat, one per beat, compatibly with the music sounding
/// there. The input is reversed so the builder pushes changes toward the
/// end; each returned schedule reads first beat first.
pub fn shift(music: &[Vec<Note>], changes: &[Vec<Note>]) -> (r: Vec<Vec<Option<Note>>>)
    requires
        music@.len() == changes@.len(),
    ensures
        spec_path_views(r@) == spec_change_paths(
            spec_reversed_pairs(
                music@.map_values(|v: Vec<Note>| v@),
                changes@.map_values(|v: Vec<Note>| v@),
            ),
            Seq::empty(),
        ),
{
    let mut vec: Vec<(Vec<Note>, Vec<Note>)> = Vec::new();
    let n = music.len();
    let mut i = n;
    while i > 0
        invariant
            n == music@.len() == changes@.len(),
            i <= n,
            vec@.len() == n - i,
            forall|j: int|
                0 <= j < vec@.len() ==> ((#[trigger] vec@[j]).0@ == music@[n - 1 - j]@ && vec@[
                    j
                ].1@ == changes@[n - 1 - j]@),
        decreases i,
    {
        i = i - 1;
        let mut m: Vec<Note> = Vec::new();
        let src_m = &music[i];
        for z in 0..src_m.len()
            invariant
                m@ == src_m@.subrange(0, z as int),
        {
            m.push(src_m[z]);
            proof {
                assert(src_m@.subrange(0, z + 1) =~= src_m@.subrange(0, z as int).push(src_m@[
                    z as int
                ]));
            }
        }
        proof {
            assert(src_m@.subrange(0, src_m@.len() as int) =~= src_m@);
        }
        let mut c: Vec<Note> = Vec::new();
        let src_c = &changes[i];
        for z in 0..src_c.len()
            invariant
                c@ == src_c@.subrange(0, z as int),
        {
            c.push(src_c[z]);
            proof {
                assert(src_c@.subrange(0, z + 1) =~= src_c@.subrange(0, z as int).push(src_c@[
                    z as int
                ]));
            }
        }
        proof {
            assert(src_c@.subrange(0, src_c@.len() as int) =~= src_c@);
        }
        vec.push((m, c));
    }
    let r = change_builder(vec.as_slice(), Vec::new());
    proof {
        assert(spec_mc_views(vec@) =~= spec_reversed_pairs(
            music@.map_values(|v: Vec<Note>| v@),
            changes@.map_values(|v: Vec<Note>| v@),
        ));
    }
    r
}

/// The beats and their changes paired up, last beat first.
pub open spec fn spec_reversed_pairs(music: Seq<Seq<Note>>, changes: Seq<Seq<Note>>) -> Seq<
    (Seq<Note>, Seq<Note>),
> {
    Seq::new(music.len(), |j: int| (music[music.len() - 1 - j], changes[music.len() - 1 - j]))
}

/// One product schedule, beat by beat: each beat lists the left foot's
/// change, then the right foot's, whichever of the two exist.
pub open spec fn spec_zip_changes(l: Seq<Option<Note>>, r: Seq<Option<Note>>) -> Seq<Seq<Note>> {
    Seq::new(
        l.len(),
        |j: int|
            match (l[j], r[j]) {
                (Some(a), Some(b)) => seq![a, b],
                (Some(a), None) => seq![a],
                (None, Some(b)) => seq![b],
                (None, None) => Seq::empty(),
            },
    )
}

/// The notes each sounding beat of the music holds.
pub open spec fn spec_music_notes(music: Seq<crate::harp::Harp>) -> Seq<Seq<Note>> {
    music.map_values(|h: crate::harp::Harp| crate::harp::spec_harp_notes(h@, 0, 7))
}

fn zip_one(l: &Vec<Option<Note>>, r: &Vec<Option<Note>>) -> (out: Vec<Vec<Note>>)
    requires
        l@.len() == r@.len(),
    ensures
        out@.map_values(|v: Vec<Note>| v@) == spec_zip_changes(l@, r@),
{
    let mut out: Vec<Vec<Note>> = Vec::new();
    for j in 0..l.len()
        invariant
            l@.len() == r@.len(),
            out@.len() == j,
            forall|z: int|
                0 <= z < j ==> (#[trigger] out@[z])@ == spec_zip_changes(l@, r@)[z],
    {
        let mut beat: Vec<Note> = Vec::new();
        if let Some(a) = l[j] {
            beat.push(a);
        }
        if let Some(b) = r[j] {
            beat.push(b);
        }
        proof {
            assert(beat@ =~= spec_zip_changes(l@, r@)[j as int]);
        }
        out.push(beat);
    }
    proof {
        assert(out@.map_values(|v: Vec<Note>| v@) =~= spec_zip_changes(l@, r@));
    }
    out
}

/// Every pairing of a left-foot schedule with a right-foot one, zipped
/// into per-beat change lists: left schedules outermost, in order.
pub fn shift_pedals(music: &[crate::harp::Harp], pedals: Vec<(Vec<Note>, Vec<Note>)>) -> (r: Vec<
    Vec<Vec<Note>>,
>)
    requires
        music@.len() == pedals@.len(),
        forall|i: int| 0 <= i < music@.len() ==> crate::harp::harp_wf((#[trigger] music@[i])@),
    ensures
        ({
            let mn = spec_music_notes(music@);
            let lp = spec_change_paths(
                spec_reversed_pairs(mn, pedals@.map_values(|p: (Vec<Note>, Vec<Note>)| p.0@)),
                Seq::empty(),
            );
            let rp = spec_change_paths(
                spec_reversed_pairs(mn, pedals@.map_values(|p: (Vec<Note>, Vec<Note>)| p.1@)),
                Seq::empty(),
            );
            &&& r@.len() == lp.len() * rp.len()
            &&& forall|a: int, b: int|
                0 <= a < lp.len() && 0 <= b < rp.len() ==> (#[trigger] r@[a * rp.len() + b])
                    @.map_values(|v: Vec<Note>| v@) == spec_zip_changes(lp[a], rp[b])
        }),
{
    let ghost gl = pedals@.map_values(|p: (Vec<Note>, Vec<Note>)| p.0@);
    let ghost gr = pedals@.map_values(|p: (Vec<Note>, Vec<Note>)| p.1@);
    let mut l: Vec<Vec<Note>> = Vec::new();
    let mut rr: Vec<Vec<Note>> = Vec::new();
    let n_beats = pedals.len();
    for i in 0..n_beats
        invariant
            n_beats == pedals@.len(),
            gl == pedals@.map_values(|p: (Vec<Note>, Vec<Note>)| p.0@),
            gr == pedals@.map_values(|p: (Vec<Note>, Vec<Note>)| p.1@),
            l@.len() == i,
            rr@.len() == i,
            forall|k: int| 0 <= k < i ==> (#[trigger] l@[k])@ == gl[k],
            forall|k: int| 0 <= k < i ==> (#[trigger] rr@[k])@ == gr[k],
    {
        let beat = &pedals[i];
        let mut a: Vec<Note> = Vec::new();
        for z in 0..beat.0.len()
            invariant
                a@ == beat.0@.subrange(0, z as int),
        {
            a.push(beat.0[z]);
            proof {
                assert(beat.0@.subrange(0, z + 1) =~= beat.0@.subrange(0, z as int).push(beat.0@[
                    z as int
                ]));
            }
        }
        proof {
            assert(beat.0@.subrange(0, beat.0@.len() as int) =~= beat.0@);
        }
        let mut b: Vec<Note> = Vec::new();
        for z in 0..beat.1.len()
            invariant
                b@ == beat.1@.subrange(0, z as int),
        {
            b.push(beat.1[z]);
            proof {
                assert(beat.1@.subrange(0, z + 1) =~= beat.1@.subrange(0, z as int).push(beat.1@[
                    z as int
                ]));
            }
        }
        proof {
            assert(beat.1@.subrange(0, beat.1@.len() as int) =~= beat.1@);
        }
        l.push(a);
        rr.push(b);
    }
    let mut mn: Vec<Vec<Note>> = Vec::new();
    for i in 0..music.len()
        invariant
            forall|k: int| 0 <= k < music@.len() ==> crate::harp::harp_wf((#[trigger] music@[k])@),
            mn@.len() == i,
            forall|k: int|
                0 <= k < i ==> (#[trigger] mn@[k])@ == crate::harp::spec_harp_notes(
                    music@[k]@,
                    0,
                    7,
                ),
    {
        mn.push(crate::harp::harp_to_notes(music[i]));
    }
    proof {
        assert(mn@.map_values(|v: Vec<Note>| v@) =~= spec_music_notes(music@));
        assert(l@.map_values(|v: Vec<Note>| v@) =~= gl);
        assert(rr@.map_values(|v: Vec<Note>| v@) =~= gr);
    }
    let lefts = shift(mn.as_slice(), l.as_slice());
    let rights = shift(mn.as_slice(), rr.as_slice());
    let ghost lp = spec_path_views(lefts@);
    let ghost rp = spec_path_views(rights@);
    let mut out: Vec<Vec<Vec<Note>>> = Vec::new();
    let rn = rights.len();
    proof {
        assert(out@.len() == 0 * rn) by (nonlinear_arith)
            requires
                out@.len() == 0,
        ;
    }
    for a in 0..lefts.len()
        invariant
            lp == spec_path_views(lefts@),
            rp == spec_path_views(rights@),
            lp == spec_change_paths(
                spec_reversed_pairs(spec_music_notes(music@), gl),
                Seq::empty(),
            ),
            rp == spec_change_paths(
                spec_reversed_pairs(spec_music_notes(music@), gr),
                Seq::empty(),
            ),
            rn == rp.len(),
            forall|x: int| 0 <= x < lp.len() ==> (#[trigger] lefts@[x])@ == lp[x],
            forall|x: int| 0 <= x < rp.len() ==> (#[trigger] rights@[x])@ == rp[x],
            out@.len() == a * rn,
            forall|a2: int, b2: int|
                0 <= a2 < a && 0 <= b2 < rn ==> (#[trigger] out@[a2 * rn + b2])@.map_values(
                    |v: Vec<Note>| v@,
                ) == spec_zip_changes(lp[a2], rp[b2]),
    {
        for b in 0..rn
            invariant
                lp == spec_path_views(lefts@),
                rp == spec_path_views(rights@),
                lp == spec_change_paths(
                    spec_reversed_pairs(spec_music_notes(music@), gl),
                    Seq::empty(),
                ),
                rp == spec_change_paths(
                    spec_reversed_pairs(spec_music_notes(music@), gr),
                    Seq::empty(),
                ),
                rn == rp.len(),
                a < lp.len(),
                forall|x: int| 0 <= x < lp.len() ==> (#[trigger] lefts@[x])@ == lp[x],
                forall|x: int| 0 <= x < rp.len() ==> (#[trigger] rights@[x])@ == rp[x],
                out@.len() == a * rn + b,
                forall|a2: int, b2: int|
                    0 <= a2 < a && 0 <= b2 < rn ==> (#[trigger] out@[a2 * rn + b2])@.map_values(
                        |v: Vec<Note>| v@,
                    ) == spec_zip_changes(lp[a2], rp[b2]),
                forall|b2: int|
                    0 <= b2 < b ==> (#[trigger] out@[a * rn + b2])@.map_values(|v: Vec<Note>| v@)
                        == spec_zip_changes(lp[a as int], rp[b2]),
        {
            proof {
                let mnv = spec_music_notes(music@);
                lemma_change_paths_len(spec_reversed_pairs(mnv, gl), Seq::empty());
                lemma_change_paths_len(spec_reversed_pairs(mnv, gr), Seq::empty());
                assert(lefts@[a as int]@ == lp[a as int]);
                assert(rights@[b as int]@ == rp[b as int]);
            }
            let z = zip_one(&lefts[a], &rights[b]);
            let ghost pre = out@;
            out.push(z);
            proof {
                assert(out@[a * rn + b]@.map_values(|v: Vec<Note>| v@) == spec_zip_changes(
                    lp[a as int],
                    rp[b as int],
                ));
                assert forall|a2: int, b2: int|
                    0 <= a2 < a && 0 <= b2 < rn implies (#[trigger] out@[a2 * rn + b2])
                    @.map_values(|v: Vec<Note>| v@) == spec_zip_changes(lp[a2], rp[b2]) by {
                    assert(0 <= a2 * rn + b2 < a * rn) by (nonlinear_arith)
                        requires
                            0 <= a2 < a,
                            0 <= b2 < rn,
                    ;
                    assert(out@[a2 * rn + b2] == pre[a2 * rn + b2]);
                }
            }
        }
        proof {
            assert((a + 1) * rn == a * rn + rn) by (nonlinear_arith);
            assert forall|a2: int, b2: int|
                0 <= a2 < a + 1 && 0 <= b2 < rn implies (#[trigger] out@[a2 * rn + b2])
                @.map_values(|v: Vec<Note>| v@) == spec_zip_changes(lp[a2], rp[b2]) by {
                if a2 < a {
                    assert(0 <= a2 * rn + b2 < a * rn) by (nonlinear_arith)
                        requires
                            0 <= a2 < a,
                            0 <= b2 < rn,
                    ;
                    assert(out@[a2 * rn + b2]@.map_values(|v: Vec<Note>| v@) == spec_zip_changes(
                        lp[a2],
                        rp[b2],
                    ));
                } else {
                    assert(a2 * rn + b2 == a * rn + b2);
                }
            }
        }
    }
    proof {
        assert(out@.len() == lp.len() * rp.len()) by (nonlinear_arith)
            requires
                out@.len() == lp.len() * rp.len(),
        ;
    }
    out
}

/// Every schedule covers exactly the given beats: one choice per beat.
pub proof fn lemma_change_paths_len(mc: Seq<(Seq<Note>, Seq<Note>)>, acc: Seq<Note>)
    ensures
        forall|x: int|
            0 <= x < spec_change_paths(mc, acc).len() ==> (#[trigger] spec_change_paths(
                mc,
                acc,
            )[x]).len() == mc.len(),
    decreases mc.len(), 1int, 0int,
{
    if mc.len() > 0 {
        let acc2 = acc + mc[0].1;
        let whole = spec_change_paths(mc, acc);
        if acc2.len() > mc.len() {
        } else if acc2.len() == 0 {
            if mc.len() == 1 {
                assert(whole[0].len() == 1);
            } else {
                lemma_change_paths_len(mc.drop_first(), Seq::empty());
                let sub = spec_change_paths(mc.drop_first(), Seq::empty());
                assert forall|x: int| 0 <= x < whole.len() implies (#[trigger] whole[x]).len()
                    == mc.len() by {
                    assert(whole[x] == sub[x].push(Option::<Note>::None));
                    assert(sub[x].len() == mc.drop_first().len());
                }
            }
        } else {
            lemma_change_branches_len(mc, acc2, 0);
            assert(whole == spec_change_branches(mc, acc2, 0));
        }
    }
}

proof fn lemma_change_branches_len(mc: Seq<(Seq<Note>, Seq<Note>)>, acc2: Seq<Note>, i: int)
    ensures
        forall|x: int|
            0 <= x < spec_change_branches(mc, acc2, i).len() ==> (#[trigger] spec_change_branches(
                mc,
                acc2,
                i,
            )[x]).len() == mc.len(),
    decreases mc.len(), 0int, acc2.len() - i,
{
    if 0 <= i && i < acc2.len() && mc.len() > 0 {
        lemma_change_branches_len(mc, acc2, i + 1);
        let whole = spec_change_branches(mc, acc2, i);
        let tail = spec_change_branches(mc, acc2, i + 1);
        if spec_can_change(mc[0].0, acc2[i]) {
            if mc.len() == 1 {
                assert forall|x: int| 0 <= x < whole.len() implies (#[trigger] whole[x]).len()
                    == mc.len() by {
                    if x == 0 {
                        assert(whole[0] == seq![Some(acc2[i])]);
                    } else {
                        assert(whole[x] == tail[x - 1]);
                    }
                }
            } else {
                lemma_change_paths_len(mc.drop_first(), acc2.remove(i));
                let sub = spec_change_paths(mc.drop_first(), acc2.remove(i));
                assert forall|x: int| 0 <= x < whole.len() implies (#[trigger] whole[x]).len()
                    == mc.len() by {
                    if x < sub.len() {
                        assert(whole[x] == sub[x].push(Some(acc2[i])));
                        assert(sub[x].len() == mc.drop_first().len());
                    } else {
                        assert(whole[x] == tail[x - sub.len()]);
                    }
                }
            }
        } else {
            assert forall|x: int| 0 <= x < whole.len() implies (#[trigger] whole[x]).len()
                == mc.len() by {
                assert(whole[x] == tail[x]);
            }
        }
    }
}

/// Folds one beat into the running shift count: a beat with anything owed
/// absorbs one change, and the rest stays owed.
pub open spec fn spec_accumulate(total: int, acc: int, new: int) -> (int, int) {
    let here: int = if acc + new > 0 {
        1
    } else {
        0
    };
    (total + here, acc + new - here)
}

/// The running (shifts made, changes still owed) over the given beats.
pub open spec fn spec_num_shifts_fold(lens: Seq<int>) -> (int, int)
    decreases lens.len(),
{
    if lens.len() == 0 {
        (0, 0)
    } else {
        let prev = spec_num_shifts_fold(lens.drop_last());
        spec_accumulate(prev.0, prev.1, lens.last())
    }
}

/// The total number of listed changes.
pub open spec fn spec_len_sum(lens: Seq<int>) -> int
    decreases lens.len(),
{
    if lens.len() == 0 {
        0
    } else {
        spec_len_sum(lens.drop_last()) + lens.last()
    }
}

proof fn lemma_len_sum_prefix_bound(lens: Seq<int>, i: int)
    requires
        0 <= i <= lens.len(),
        forall|j: int| 0 <= j < lens.len() ==> lens[j] >= 0,
    ensures
        spec_len_sum(lens.subrange(0, i)) <= spec_len_sum(lens),
    decreases lens.len() - i,
{
    if i < lens.len() {
        lemma_len_sum_prefix_bound(lens, i + 1);
        assert(lens.subrange(0, i + 1).drop_last() =~= lens.subrange(0, i));
        assert(lens.subrange(0, lens.len() as int) =~= lens);
    } else {
        assert(lens.subrange(0, i) =~= lens);
    }
}

/// How many beats must make a pedal change to absorb all listed changes;
/// `usize::MAX` when they cannot all be absorbed in time.
pub fn num_shifts(pedals: &[Vec<Note>]) -> (r: usize)
    requires
        pedals@.len() < usize::MAX,
        spec_len_sum(pedals@.map_values(|v: Vec<Note>| v@.len() as int)) < usize::MAX,
    ensures
        ({
            let f = spec_num_shifts_fold(pedals@.map_values(|v: Vec<Note>| v@.len() as int));
            if f.1 > 0 {
                r == usize::MAX
            } else {
                r == f.0
            }
        }),
{
    let ghost lens = pedals@.map_values(|v: Vec<Note>| v@.len() as int);
    proof {
        assert(forall|j: int| 0 <= j < lens.len() ==> lens[j] >= 0);
    }
    let mut total: usize = 0;
    let mut acc: usize = 0;
    for i in 0..pedals.len()
        invariant
            lens == pedals@.map_values(|v: Vec<Note>| v@.len() as int),
            pedals@.len() < usize::MAX,
            spec_len_sum(lens) < usize::MAX,
            forall|j: int| 0 <= j < lens.len() ==> lens[j] >= 0,
            (total as int, acc as int) == spec_num_shifts_fold(lens.subrange(0, i as int)),
            total <= i,
            acc as int <= spec_len_sum(lens.subrange(0, i as int)),
    {
        proof {
            assert(lens.subrange(0, i + 1).drop_last() =~= lens.subrange(0, i as int));
            assert(lens.subrange(0, i + 1).last() == lens[i as int]);
            lemma_len_sum_prefix_bound(lens, i + 1);
        }
        let new = pedals[i].len();
        if acc > 0 || new > 0 {
            total = total + 1;
            acc = acc + new - 1;
        }
    }
    proof {
        assert(lens.subrange(0, lens.len() as int) =~= lens);
    }
    if acc > 0 {
        usize::MAX
    } else {
        total
    }
}

} // verus!
