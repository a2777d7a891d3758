//! From music to pedal schedules: spell every beat, search the schedules,
//! and read the per-beat changes back out of a finished plan.
use vstd::prelude::*;
use crate::assign::{assign, spec_spelling_ok};
use crate::astar::{
    find_solutions, spec_solution, spec_path_cost, spec_mid_wf, AstarState,
    lemma_valid_path_shape, spec_initial_of, spec_start_choice, spec_valid_path,
};
use crate::candidate::{CandidateBuilder, MusicInput, Pedals};
use crate::cost::Config;
use crate::harp::{
    harp_to_notes, harp_wf, spec_harp_notes, spec_unset_seen, unset_seen, Harp,
};
use crate::note::Note;
use crate::pitch_class::PitchClass;

verus! {

/// Whether one beat's chord can be spelled at all.
pub open spec fn spec_beat_assignable(beat: (Vec<Note>, Vec<PitchClass>)) -> bool {
    crate::assign::spec_assignable(
        crate::assign::spec_sanitize(beat.1@),
        crate::assign::spec_names_of(beat.0@),
    )
}

/// The error report for unsatisfiable music: the indices of exactly the
/// beats whose chords admit no spelling.
pub open spec fn spec_unassignable_report(
    idxs: Seq<usize>,
    music: Seq<(Vec<Note>, Vec<PitchClass>)>,
) -> bool {
    &&& idxs.len() > 0
    &&& forall|j: int|
        0 <= j < idxs.len() ==> (#[trigger] idxs[j]) < music.len() && !spec_beat_assignable(
            music[idxs[j] as int],
        )
    &&& forall|i: int|
        0 <= i < music.len() && !spec_beat_assignable(#[trigger] music[i]) ==> idxs.contains(
            i as usize,
        )
}

/// The per-beat spelling a schedule realizes: the pedal harps of its inner
/// vertices, between the start vertex and the final settling vertex.
pub open spec fn spec_project(p: Seq<AstarState>) -> Seq<Harp> {
    p.subrange(1, p.len() - 1).map_values(|s: AstarState| s.pedals)
}

/// Each beat's alternatives all realize that beat's chord, every beat has
/// at least one, and every harp realizing a beat's chord is among that
/// beat's alternatives: the family is the complete set of spellings.
pub open spec fn spec_mid_spells(
    gmid: Seq<Seq<Harp>>,
    music: Seq<(Vec<Note>, Vec<PitchClass>)>,
) -> bool {
    &&& gmid.len() == music.len()
    &&& forall|i: int, x: int|
        0 <= i < gmid.len() && 0 <= x < gmid[i].len() ==> spec_spelling_ok(
            #[trigger] gmid[i][x],
            music[i].1@,
            music[i].0@,
        )
    &&& forall|i: int| 0 <= i < gmid.len() ==> (#[trigger] gmid[i]).len() > 0
    &&& forall|i: int, h: Harp|
        0 <= i < gmid.len() && #[trigger] spec_spelling_ok(h, music[i].1@, music[i].0@)
            ==> gmid[i].contains(h)
}

/// The spelling sequence is the projection of a cheapest schedule.
pub open spec fn spec_minimal_projection(
    v: Seq<Harp>,
    start: Harp,
    gmid: Seq<Seq<Harp>>,
    end: Harp,
    cost: u64,
    cfg: Config,
) -> bool {
    exists|p: Seq<AstarState>|
        spec_solution(p, start, gmid, end, cfg) && spec_path_cost(p, cfg) == cost && v
            == #[trigger] spec_project(p)
}

/// What a successful spelling search returns: projections of exactly the
/// cheapest schedules over beat alternatives that realize the music, or an
/// empty list when no schedule exists at all.
pub open spec fn spec_spellings_ok(
    sp: Seq<Vec<Harp>>,
    cost: u64,
    input: MusicInput,
    cfg: Config,
) -> bool {
    exists|gmid: Seq<Seq<Harp>>|
        #[trigger] spec_mid_spells(gmid, input.music@) && {
            &&& (sp.len() == 0 ==> (forall|p: Seq<AstarState>|
                !spec_solution(p, input.diagram, gmid, input.goal, cfg)) && cost == 0)
            &&& forall|x: int|
                0 <= x < sp.len() ==> spec_minimal_projection(
                    (#[trigger] sp[x])@,
                    input.diagram,
                    gmid,
                    input.goal,
                    cost,
                    cfg,
                )
            &&& (sp.len() > 0 ==> forall|p: Seq<AstarState>|
                spec_solution(p, input.diagram, gmid, input.goal, cfg) ==> spec_path_cost(p, cfg)
                    >= cost)
            &&& (sp.len() > 0 ==> forall|p: Seq<AstarState>|
                spec_solution(p, input.diagram, gmid, input.goal, cfg) && spec_path_cost(p, cfg)
                    == cost ==> exists|x: int| 0 <= x < sp.len() && (#[trigger] sp[x])@
                    == spec_project(p))
        }
}

/// Spells every beat and searches the pedal schedules: `Ok` carries every
/// cheapest spelling sequence and the shared cost (an empty list means no
/// playable schedule, a normal outcome); `Err` lists exactly the beats
/// whose chords admit no spelling.
#[verifier::rlimit(60)]
pub fn get_spellings(input: &MusicInput, cfg: &Config) -> (r: Result<
    (Vec<Vec<Harp>>, u64),
    Vec<usize>,
>)
    requires
        input.wf(),
        cfg.wf(),
        input.music@.len() + 2 <= 0x4_0000,
    ensures
        (r matches Err(idxs) ==> spec_unassignable_report(idxs@, input.music@)),
        (r is Err <==> exists|i: int|
            0 <= i < input.music@.len() && !spec_beat_assignable(#[trigger] input.music@[i])),
        (r matches Ok((sp, cost)) ==> spec_spellings_ok(sp@, cost, *input, *cfg)),
{
    let mut mid: Vec<Vec<Harp>> = Vec::new();
    let mut bad: Vec<usize> = Vec::new();
    for i in 0..input.music.len()
        invariant
            mid@.len() == i,
            forall|k: int, x: int|
                0 <= k < i && 0 <= x < mid@[k]@.len() ==> spec_spelling_ok(
                    #[trigger] mid@[k]@[x],
                    input.music@[k].1@,
                    input.music@[k].0@,
                ),
            forall|k: int, h: Harp|
                0 <= k < i && #[trigger] spec_spelling_ok(h, input.music@[k].1@, input.music@[k].0@)
                    ==> mid@[k]@.contains(h),
            forall|k: int|
                0 <= k < i ==> ((#[trigger] mid@[k])@.len() > 0 <==> spec_beat_assignable(
                    input.music@[k],
                )),
            forall|j: int|
                0 <= j < bad@.len() ==> (#[trigger] bad@[j]) < i && !spec_beat_assignable(
                    input.music@[bad@[j] as int],
                ),
            forall|k: int|
                0 <= k < i && !spec_beat_assignable(#[trigger] input.music@[k]) ==> bad@.contains(
                    k as usize,
                ),
    {
        let beat = &input.music[i];
        let cands = assign(beat.0.as_slice(), beat.1.as_slice());
        proof {
            // every harp realizing this chord is among assign's results
            assert forall|h: Harp|
                #[trigger] spec_spelling_ok(h, input.music@[i as int].1@, input.music@[
                    i as int
                ].0@) implies cands@.contains(h) by {
                let notesv = input.music@[i as int].1@;
                let presetv = input.music@[i as int].0@;
                let path = choose|path: Seq<Note>|
                    crate::assign::spec_assignment_ok(
                        path,
                        crate::assign::spec_sanitize(notesv),
                        crate::assign::spec_names_of(presetv),
                    ) && h@ == crate::harp::spec_update_harp(
                        crate::harp::spec_notes_to_harp(path),
                        crate::harp::spec_notes_to_harp(presetv),
                    );
                let x = choose|x: int|
                    0 <= x < cands@.len() && (#[trigger] cands@[x])@
                        == crate::harp::spec_update_harp(
                        crate::harp::spec_notes_to_harp(path),
                        crate::harp::spec_notes_to_harp(presetv),
                    );
                assert(cands@[x] =~= h);
                assert(cands@.contains(cands@[x]));
            }
        }
        if cands.len() == 0 {
            let ghost pre = bad@;
            proof {
                crate::util::lemma_contains_push(bad@, i);
            }
            bad.push(i);
            proof {
                assert forall|k: int|
                    0 <= k < i + 1 && !spec_beat_assignable(#[trigger] input.music@[k]) implies
                    bad@.contains(k as usize) by {
                    if k < i {
                        assert(pre.contains(k as usize));
                    }
                }
            }
        }
        mid.push(cands);
    }
    if bad.len() > 0 {
        proof {
            assert(!spec_beat_assignable(input.music@[bad@[0] as int]));
        }
        return Err(bad);
    }
    let ghost gmid = mid@.map_values(|v: Vec<Harp>| v@);
    proof {
        assert(spec_mid_spells(gmid, input.music@)) by {
            assert forall|i: int, x: int|
                0 <= i < gmid.len() && 0 <= x < gmid[i].len() implies spec_spelling_ok(
                #[trigger] gmid[i][x],
                input.music@[i].1@,
                input.music@[i].0@,
            ) by {
                assert(gmid[i] == mid@[i]@);
            }
            assert forall|i: int| 0 <= i < gmid.len() implies (#[trigger] gmid[i]).len() > 0 by {
                assert(gmid[i] == mid@[i]@);
                if mid@[i]@.len() == 0 {
                    assert(!spec_beat_assignable(input.music@[i]));
                    assert(bad@.contains(i as usize));
                }
            }
            assert forall|i: int, h: Harp|
                0 <= i < gmid.len() && #[trigger] spec_spelling_ok(
                    h,
                    input.music@[i].1@,
                    input.music@[i].0@,
                ) implies gmid[i].contains(h) by {
                assert(mid@[i]@.contains(h));
                assert(gmid[i] == mid@[i]@);
            }
        }
        assert(spec_mid_wf(gmid)) by {
            assert forall|k: int, j: int|
                0 <= k < gmid.len() && 0 <= j < gmid[k].len() implies harp_wf(
                (#[trigger] gmid[k][j])@,
            ) by {
                assert(spec_spelling_ok(gmid[k][j], input.music@[k].1@, input.music@[k].0@));
                crate::assign::lemma_spelling_wf(
                    gmid[k][j],
                    input.music@[k].1@,
                    input.music@[k].0@,
                );
            }
        }
    }
    match find_solutions(input.diagram, &mid, input.goal, cfg) {
        None => {
            proof {
                assert(spec_spellings_ok(Seq::<Vec<Harp>>::empty(), 0, *input, *cfg));
            }
            let sp: Vec<Vec<Harp>> = Vec::new();
            Ok((sp, 0))
        },
        Some((paths, cost)) => {
            let mut sp: Vec<Vec<Harp>> = Vec::new();
            for x in 0..paths.len()
                invariant
                    gmid == mid@.map_values(|v: Vec<Harp>| v@),
                    gmid.len() == input.music@.len(),
                    input.music@.len() + 2 <= 0x4_0000,
                    paths@.len() >= 1,
                    forall|y: int|
                        0 <= y < paths@.len() ==> spec_solution(
                            (#[trigger] paths@[y])@,
                            input.diagram,
                            gmid,
                            input.goal,
                            *cfg,
                        ) && spec_path_cost(paths@[y]@, *cfg) == cost,
                    sp@.len() == x,
                    forall|y: int|
                        0 <= y < sp@.len() ==> (#[trigger] sp@[y])@ == spec_project(paths@[y]@),
            {
                let path = &paths[x];
                proof {
                    assert(spec_solution(paths@[x as int]@, input.diagram, gmid, input.goal, *cfg));
                    let (h, s) = choose|h: Harp, s: AstarState|
                        spec_start_choice(input.diagram, h) && #[trigger] spec_initial_of(h, s)
                            && spec_valid_path(paths@[x as int]@, s, gmid, input.goal,
                        cfg.forget_after);
                    lemma_valid_path_shape(paths@[x as int]@, s, gmid, input.goal,
                        cfg.forget_after);
                    assert(path@.len() == gmid.len() + 2);
                }
                let n = path.len();
                let mut v: Vec<Harp> = Vec::new();
                for j in 1..(n - 1)
                    invariant
                        n == path@.len(),
                        n >= 2,
                        1 <= j <= n - 1,
                        v@.len() == j - 1,
                        forall|z: int| 0 <= z < v@.len() ==> v@[z] == path@[z + 1].pedals,
                {
                    v.push(path[j].pedals);
                }
                proof {
                    assert(v@ =~= spec_project(path@)) by {
                        assert(spec_project(path@).len() == path@.len() - 2);
                        assert forall|z: int|
                            0 <= z < v@.len() implies v@[z] == spec_project(path@)[z] by {
                            assert(path@.subrange(1, path@.len() - 1)[z] == path@[z + 1]);
                        }
                    }
                }
                sp.push(v);
            }
            proof {
                assert forall|x: int| 0 <= x < sp@.len() implies spec_minimal_projection(
                    (#[trigger] sp@[x])@,
                    input.diagram,
                    gmid,
                    input.goal,
                    cost,
                    *cfg,
                ) by {
                    let p = paths@[x]@;
                    assert(spec_solution(p, input.diagram, gmid, input.goal, *cfg)
                        && spec_path_cost(p, *cfg) == cost && sp@[x]@ == spec_project(p));
                }
                assert forall|p: Seq<AstarState>|
                    spec_solution(p, input.diagram, gmid, input.goal, *cfg) && spec_path_cost(
                        p,
                        *cfg,
                    ) == cost implies exists|x: int|
                    0 <= x < sp@.len() && (#[trigger] sp@[x])@ == spec_project(p) by {
                    let x = choose|x: int|
                        0 <= x < paths@.len() && (#[trigger] paths@[x])@ == p;
                    assert(sp@[x]@ == spec_project(p));
                }
                assert(spec_spellings_ok(sp@, cost, *input, *cfg));
            }
            Ok((sp, cost))
        },
    }
}

/// The per-beat pedal moves a finished builder implies: overlay the
/// starting diagram, the spelling, and the destination in order, keep only
/// each beat's genuinely new changes, and read them out as notes. The
/// result is one entry longer than the spelling; the last entry settles
/// into the destination.
pub fn get_pedal_changes(input: &CandidateBuilder) -> (r: Pedals)
    requires
        (input.diagram matches Some(d) && harp_wf(d@)),
        (input.destination matches Some(d) && harp_wf(d@)),
        (input.spelling matches Some(sp) && forall|i: int|
            0 <= i < sp@.len() ==> harp_wf((#[trigger] sp@[i])@)),
    ensures
        ({
            let with_diagram = seq![input.diagram.unwrap()] + input.spelling.unwrap()@ + seq![
                input.destination.unwrap(),
            ];
            let views = with_diagram.map_values(|h: Harp| h@);
            &&& r@.len() == input.spelling.unwrap()@.len() + 1
            &&& forall|i: int|
                0 <= i < r@.len() ==> (#[trigger] r@[i])@ == spec_harp_notes(
                    spec_unset_seen(views)[i + 1],
                    0,
                    7,
                )
        }),
{
    let spelling = match &input.spelling {
        Some(s) => s,
        None => {
            proof {
                assert(false);
            }
            unreached()
        },
    };
    let diagram = match &input.diagram {
        Some(d) => *d,
        None => {
            proof {
                assert(false);
            }
            unreached()
        },
    };
    let destination = match &input.destination {
        Some(d) => *d,
        None => {
            proof {
                assert(false);
            }
            unreached()
        },
    };
    let mut with_diagram: Vec<Harp> = Vec::new();
    with_diagram.push(diagram);
    for i in 0..spelling.len()
        invariant
            with_diagram@.len() == i + 1,
            with_diagram@[0] == diagram,
            forall|k: int| 0 <= k < i ==> with_diagram@[k + 1] == spelling@[k],
            input.spelling matches Some(spx) && spx == spelling,
            forall|k: int| 0 <= k < spelling@.len() ==> harp_wf((#[trigger] spelling@[k])@),
    {
        with_diagram.push(spelling[i]);
    }
    with_diagram.push(destination);
    proof {
        assert(with_diagram@ =~= seq![diagram] + spelling@ + seq![destination]);
    }
    let changes = unset_seen(&with_diagram);
    let ghost views = with_diagram@.map_values(|h: Harp| h@);
    proof {
        assert(changes@.map_values(|h: Harp| h@) == spec_unset_seen(views));
        lemma_unset_seen_wf(views);
        assert forall|i: int| 0 <= i < views.len() implies harp_wf(#[trigger] views[i]) by {
            if i == 0 {
            } else if i < views.len() - 1 {
                assert(with_diagram@[i] == spelling@[i - 1]);
            }
        }
    }
    let mut out: Pedals = Vec::new();
    let n = changes.len();
    for i in 1..n
        invariant
            n == changes@.len(),
            n == spec_unset_seen(views).len(),
            changes@.map_values(|h: Harp| h@) == spec_unset_seen(views),
            forall|k: int|
                0 <= k < spec_unset_seen(views).len() ==> harp_wf(
                    #[trigger] spec_unset_seen(views)[k],
                ),
            out@.len() == i - 1,
            forall|k: int|
                0 <= k < out@.len() ==> (#[trigger] out@[k])@ == spec_harp_notes(
                    spec_unset_seen(views)[k + 1],
                    0,
                    7,
                ),
    {
        proof {
            assert(changes@[i as int]@ == spec_unset_seen(views)[i as int]);
        }
        out.push(harp_to_notes(changes[i]));
    }
    proof {
        assert(spec_unset_seen(views).len() == views.len());
    }
    out
}

/// Clearing already-standing pedals keeps slot values legal.
proof fn lemma_unset_seen_wf(views: Seq<Seq<u8>>)
    requires
        views.len() >= 1,
        forall|i: int| 0 <= i < views.len() ==> harp_wf(#[trigger] views[i]),
    ensures
        spec_unset_seen(views).len() == views.len(),
        forall|k: int|
            0 <= k < spec_unset_seen(views).len() ==> harp_wf(#[trigger] spec_unset_seen(views)[k]),
{
    crate::harp::lemma_full_initial_wf(views);
    lemma_unset_seen_rest_wf(crate::harp::spec_full_initial(views), views.drop_first());
    let rest = crate::harp::spec_unset_seen_rest(
        crate::harp::spec_full_initial(views),
        views.drop_first(),
    );
    assert forall|k: int|
        0 <= k < spec_unset_seen(views).len() implies harp_wf(
        #[trigger] spec_unset_seen(views)[k],
    ) by {
        if k > 0 {
            assert(spec_unset_seen(views)[k] == rest[k - 1]);
        }
    }
}

proof fn lemma_unset_seen_rest_wf(state: Seq<u8>, rest: Seq<Seq<u8>>)
    requires
        forall|i: int| 0 <= i < rest.len() ==> harp_wf(#[trigger] rest[i]),
        harp_wf(state),
    ensures
        crate::harp::spec_unset_seen_rest(state, rest).len() == rest.len(),
        forall|k: int|
            0 <= k < rest.len() ==> harp_wf(
                #[trigger] crate::harp::spec_unset_seen_rest(state, rest)[k],
            ),
    decreases rest.len(),
{
    if rest.len() > 0 {
        let new = crate::harp::spec_new_only(state, rest.first());
        crate::harp::lemma_update_harp_wf(state, new);
        lemma_unset_seen_rest_wf(crate::harp::spec_update_harp(state, new), rest.drop_first());
        let whole = crate::harp::spec_unset_seen_rest(state, rest);
        let sub = crate::harp::spec_unset_seen_rest(
            crate::harp::spec_update_harp(state, new),
            rest.drop_first(),
        );
        assert forall|k: int| 0 <= k < rest.len() implies harp_wf(#[trigger] whole[k]) by {
            if k == 0 {
                assert(whole[0] == new);
            } else {
                assert(whole[k] == sub[k - 1]);
            }
        }
    }
}

} // verus!
