//! The solver's inputs and outputs: the music to realize, and the fully
//! assembled, cost-annotated pedal plans it offers back.
use vstd::prelude::*;
use crate::harp::{harp_wf, spec_idx_to_note, Harp};
use crate::note::Note;
use crate::pitch_class::{spec_note_to_pc, note_to_pc, PitchClass};

verus! {

/// Per-beat pedal changes: for each beat, the notes newly set that beat.
pub type Pedals = Vec<Vec<Note>>;

/// What the notation layer hands the solver: a possibly partial starting
/// diagram, per-beat fixed notes and free pitch classes, and a possibly
/// partial goal diagram.
pub struct MusicInput {
    pub diagram: Harp,
    pub music: Vec<(Vec<Note>, Vec<PitchClass>)>,
    pub goal: Harp,
}

impl MusicInput {
    /// Both partial diagrams hold legal slot values.
    pub open spec fn wf(self) -> bool {
        harp_wf(self.diagram@) && harp_wf(self.goal@)
    }
}

/// Splits per-beat changes into what each foot works: left-foot notes (D,
/// C, B) and right-foot notes (E, F, G, A), keeping their order.
pub fn unzip_pedals(pedals: &Pedals) -> (r: (Pedals, Pedals))
    ensures
        r.0@.len() == pedals@.len(),
        r.1@.len() == pedals@.len(),
        forall|i: int|
            0 <= i < pedals@.len() ==> (#[trigger] r.0@[i])@ == pedals@[i]@.filter(
                |n: Note| n.spec_is_left(),
            ),
        forall|i: int|
            0 <= i < pedals@.len() ==> (#[trigger] r.1@[i])@ == pedals@[i]@.filter(
                |n: Note| !n.spec_is_left(),
            ),
{
    let mut lefts: Pedals = Vec::new();
    let mut rights: Pedals = Vec::new();
    for i in 0..pedals.len()
        invariant
            lefts@.len() == i,
            rights@.len() == i,
            forall|k: int|
                0 <= k < i ==> (#[trigger] lefts@[k])@ == pedals@[k]@.filter(
                    |n: Note| n.spec_is_left(),
                ),
            forall|k: int|
                0 <= k < i ==> (#[trigger] rights@[k])@ == pedals@[k]@.filter(
                    |n: Note| !n.spec_is_left(),
                ),
    {
        let beat = &pedals[i];
        let mut l: Vec<Note> = Vec::new();
        let mut rr: Vec<Note> = Vec::new();
        let ghost lp = |n: Note| n.spec_is_left();
        let ghost rp = |n: Note| !n.spec_is_left();
        assert(l@ =~= beat@.subrange(0, 0).filter(lp));
        assert(rr@ =~= beat@.subrange(0, 0).filter(rp));
        for j in 0..beat.len()
            invariant
                lp == (|n: Note| n.spec_is_left()),
                rp == (|n: Note| !n.spec_is_left()),
                l@ == beat@.subrange(0, j as int).filter(lp),
                rr@ == beat@.subrange(0, j as int).filter(rp),
        {
            if beat[j].is_left() {
                l.push(beat[j]);
            } else {
                rr.push(beat[j]);
            }
            proof {
                let pre = beat@.subrange(0, j as int);
                let cur = beat@.subrange(0, j + 1);
                assert(cur.drop_last() =~= pre);
                assert(cur.last() == beat@[j as int]);
                reveal_with_fuel(Seq::filter, 2);
            }
        }
        proof {
            assert(beat@.subrange(0, beat@.len() as int) =~= beat@);
        }
        lefts.push(l);
        rights.push(rr);
    }
    (lefts, rights)
}

/// Whether a refined spelling keeps this slot: an unset slot stays, and a
/// set one survives only if its note is a fixed note of the beat or sounds
/// one of the beat's free pitch classes.
pub open spec fn spec_keep_slot(v: u8, beat: (Vec<Note>, Vec<PitchClass>), j: int) -> bool {
    ||| v == 0
    ||| beat.0@.contains(spec_idx_to_note(j as usize, v).unwrap())
    ||| beat.1@.contains(spec_note_to_pc(spec_idx_to_note(j as usize, v).unwrap()))
}

/// One beat of a spelling with its incidental pedals cleared: only slots
/// the beat itself asks for stay set.
pub open spec fn spec_refine_one(h: Seq<u8>, beat: (Vec<Note>, Vec<PitchClass>)) -> Seq<u8> {
    Seq::new(7, |j: int| if spec_keep_slot(h[j], beat, j) { h[j] } else { 0 })
}

fn contains_note(notes: &Vec<Note>, n: Note) -> (r: bool)
    ensures
        r == notes@.contains(n),
{
    for i in 0..notes.len()
        invariant
            forall|j: int| 0 <= j < i ==> notes@[j] != n,
    {
        if notes[i] == n {
            assert(notes@.contains(n));
            return true;
        }
    }
    false
}

fn contains_pc(pcs: &Vec<PitchClass>, x: u8) -> (r: bool)
    ensures
        r == pcs@.contains(x),
{
    for i in 0..pcs.len()
        invariant
            forall|j: int| 0 <= j < i ==> pcs@[j] != x,
    {
        if pcs[i] == x {
            assert(pcs@.contains(x));
            return true;
        }
    }
    false
}

fn refine_one(h: Harp, beat: &(Vec<Note>, Vec<PitchClass>)) -> (r: Harp)
    requires
        harp_wf(h@),
    ensures
        r@ == spec_refine_one(h@, *beat),
{
    let mut out = h;
    for j in 0..7usize
        invariant
            harp_wf(h@),
            out@.len() == 7,
            forall|k: int| 0 <= k < j ==> out@[k] == spec_refine_one(h@, *beat)[k],
            forall|k: int| j <= k < 7 ==> out@[k] == h@[k],
    {
        if h[j] != 0 {
            let note = crate::harp::idx_to_note(j, h[j]).unwrap();
            let keep = contains_note(&beat.0, note) || contains_pc(&beat.1, note_to_pc(note));
            if !keep {
                out[j] = 0;
            }
        }
    }
    proof {
        assert(out@ =~= spec_refine_one(h@, *beat));
    }
    out
}

/// A pedal plan under construction: every field is filled before the plan
/// is finalized, and a missing field makes finalization fail fast.
#[derive(Clone, Debug)]
pub struct CandidateBuilder {
    pub diagram: Option<Harp>,
    pub destination: Option<Harp>,
    pub spelling: Option<Vec<Harp>>,
    pub pedals: Option<Pedals>,
    pub cost: Option<u64>,
}

impl CandidateBuilder {
    pub fn new() -> (r: CandidateBuilder)
        ensures
            r.diagram is None,
            r.destination is None,
            r.spelling is None,
            r.pedals is None,
            r.cost is None,
    {
        CandidateBuilder {
            diagram: None,
            destination: None,
            spelling: None,
            pedals: None,
            cost: None,
        }
    }

    pub fn set_diagram(&mut self, diagram: Harp)
        ensures
            (*final(self) == CandidateBuilder { diagram: Some(diagram), ..*old(self) }),
    {
        self.diagram = Some(diagram);
    }

    pub fn set_destination(&mut self, destination: Harp)
        ensures
            (*final(self) == CandidateBuilder { destination: Some(destination), ..*old(self) }),
    {
        self.destination = Some(destination);
    }

    pub fn set_spelling(&mut self, spelling: Vec<Harp>)
        ensures
            (*final(self) == CandidateBuilder { spelling: Some(spelling), ..*old(self) }),
    {
        self.spelling = Some(spelling);
    }

    pub fn set_pedals(&mut self, pedals: Pedals)
        ensures
            (*final(self) == CandidateBuilder { pedals: Some(pedals), ..*old(self) }),
    {
        self.pedals = Some(pedals);
    }

    pub fn set_cost(&mut self, cost: u64)
        ensures
            (*final(self) == CandidateBuilder { cost: Some(cost), ..*old(self) }),
    {
        self.cost = Some(cost);
    }

    /// Clears every spelled pedal its beat does not itself ask for, so the
    /// rendered spelling shows only the music's own notes.
    pub fn refine_spelling(&mut self, input: &MusicInput)
        requires
            (old(self).spelling matches Some(sp) ==> sp@.len() >= input.music@.len() && (forall|
                i: int,
            | 0 <= i < sp@.len() ==> harp_wf((#[trigger] sp@[i])@))),
        ensures
            (old(self).spelling is None ==> *final(self) == *old(self)),
            (old(self).spelling matches Some(sp) ==> ((*final(self) == CandidateBuilder {
                spelling: final(self).spelling,
                ..*old(self)
            }) && (final(self).spelling matches Some(sp2) && sp2@.len() == sp@.len() && (forall|
                i: int,
            |
                0 <= i < input.music@.len() ==> (#[trigger] sp2@[i])@ == spec_refine_one(
                    sp@[i]@,
                    input.music@[i],
                )) && (forall|i: int| input.music@.len() <= i < sp@.len() ==> sp2@[i] == sp@[i])))),
    {
        let sp = match &self.spelling {
            Some(sp) => sp,
            None => {
                return ;
            },
        };
        let mut out: Vec<Harp> = Vec::new();
        for i in 0..sp.len()
            invariant
                self.spelling matches Some(spx) && spx == sp,
                sp@.len() >= input.music@.len(),
                forall|k: int| 0 <= k < sp@.len() ==> harp_wf((#[trigger] sp@[k])@),
                out@.len() == i,
                forall|k: int|
                    0 <= k < i && k < input.music@.len() ==> (#[trigger] out@[k])@
                        == spec_refine_one(sp@[k]@, input.music@[k]),
                forall|k: int| input.music@.len() <= k < i ==> out@[k] == sp@[k],
        {
            if i < input.music.len() {
                out.push(refine_one(sp[i], &input.music[i]));
            } else {
                out.push(sp[i]);
            }
        }
        self.spelling = Some(out);
    }

    /// Finalizes the plan; a builder missing any field yields `None`.
    pub fn try_init(self) -> (r: Option<Candidate>)
        ensures
            r is Some <==> (self.diagram is Some && self.destination is Some
                && self.spelling is Some && self.pedals is Some && self.cost is Some),
            r matches Some(c) ==> {
                &&& Some(c.diagram) == self.diagram
                &&& Some(c.destination) == self.destination
                &&& Some(c.spelling) == self.spelling
                &&& Some(c.pedals) == self.pedals
                &&& Some(c.cost) == self.cost
            },
    {
        let diagram = match self.diagram {
            Some(d) => d,
            None => {
                return None;
            },
        };
        let destination = match self.destination {
            Some(d) => d,
            None => {
                return None;
            },
        };
        let spelling = match self.spelling {
            Some(s) => s,
            None => {
                return None;
            },
        };
        let pedals = match self.pedals {
            Some(p) => p,
            None => {
                return None;
            },
        };
        let cost = match self.cost {
            Some(c) => c,
            None => {
                return None;
            },
        };
        Some(Candidate { diagram, destination, spelling, pedals, cost })
    }
}

impl Default for CandidateBuilder {
    fn default() -> (r: Self)
        ensures
            r.diagram is None,
            r.destination is None,
            r.spelling is None,
            r.pedals is None,
            r.cost is None,
    {
        CandidateBuilder::new()
    }
}

/// A finished pedal plan: the fully resolved starting diagram, the final
/// destination, the per-beat spelling, the per-beat pedal changes (one entry
/// longer than the spelling: the last settles into the destination), and
/// the plan's total cost.
#[derive(Clone, Debug)]
pub struct Candidate {
    pub diagram: Harp,
    pub destination: Harp,
    pub spelling: Vec<Harp>,
    pub pedals: Pedals,
    pub cost: u64,
}

/// How a finished plan relates to the raw spelling it was assembled from:
/// the diagram resolves every never-pinned pedal to flat under the implied
/// initial setting, the goal and the given diagram; the destination folds
/// the whole spelling forward onto the goal; the rendered spelling is the
/// raw one with incidental pedals cleared; the pedal list reads the
/// genuinely new changes of each beat, the last entry settling into the
/// destination; and the cost is the schedule cost averaged over the beats.
pub open spec fn spec_candidate_ok(c: Candidate, raw: Seq<Harp>, total: u64, input: MusicInput) -> bool {
    let views = raw.map_values(|h: Harp| h@);
    let pviews = (seq![c.diagram] + raw + seq![c.destination]).map_values(|h: Harp| h@);
    &&& c.diagram@ == crate::harp::spec_update_harp(
        crate::harp::spec_all_flat(),
        crate::harp::spec_update_harp(
            input.goal@,
            crate::harp::spec_update_harp(crate::harp::spec_full_initial(views), input.diagram@),
        ),
    )
    &&& c.destination@ == crate::harp::spec_update_harp(
        crate::harp::spec_update_harp(
            crate::harp::spec_all_flat(),
            crate::harp::spec_update_harps(input.diagram@, views),
        ),
        input.goal@,
    )
    &&& c.spelling@.len() == raw.len()
    &&& raw.len() == input.music@.len()
    &&& forall|i: int|
        0 <= i < raw.len() ==> (#[trigger] c.spelling@[i])@ == spec_refine_one(
            raw[i]@,
            input.music@[i],
        )
    &&& c.pedals@.len() == raw.len() + 1
    &&& forall|i: int|
        0 <= i < c.pedals@.len() ==> (#[trigger] c.pedals@[i])@ == crate::harp::spec_harp_notes(
            crate::harp::spec_unset_seen(pviews)[i + 1],
            0,
            7,
        )
    &&& c.cost == total as int / input.music@.len() as int
}

/// Builds one finished plan for every cheapest spelling sequence: `Err`
/// lists exactly the beats whose chords cannot be spelled; `Ok` with an
/// empty list means no playable schedule exists, a normal outcome.
#[verifier::rlimit(60)]
pub fn find_candidates(input: &MusicInput, cfg: &crate::cost::Config) -> (r: Result<
    Vec<Candidate>,
    Vec<usize>,
>)
    requires
        input.wf(),
        cfg.wf(),
        input.music@.len() >= 1,
        input.music@.len() + 2 <= 0x4_0000,
    ensures
        (r matches Err(idxs) ==> crate::solve::spec_unassignable_report(idxs@, input.music@)),
        (r is Err <==> exists|i: int|
            0 <= i < input.music@.len() && !crate::solve::spec_beat_assignable(
                #[trigger] input.music@[i],
            )),
        (r matches Ok(cands) ==> exists|sp: Seq<Vec<Harp>>, total: u64|
            #[trigger] crate::solve::spec_spellings_ok(sp, total, *input, *cfg) && cands@.len()
                == sp.len() && (forall|x: int|
                0 <= x < cands@.len() ==> spec_candidate_ok(
                    #[trigger] cands@[x],
                    sp[x]@,
                    total,
                    *input,
                ))),
{
    let (spellings, total) = match crate::solve::get_spellings(input, cfg) {
        Ok(st) => st,
        Err(idxs) => {
            return Err(idxs);
        },
    };
    let avg = total / (input.music.len() as u64);
    let mut out: Vec<Candidate> = Vec::new();
    let flat: Harp = [1;7];
    proof {
        assert(flat@ =~= crate::harp::spec_all_flat());
    }
    for x in 0..spellings.len()
        invariant
            input.wf(),
            cfg.wf(),
            input.music@.len() >= 1,
            input.music@.len() + 2 <= 0x4_0000,
            flat@ == crate::harp::spec_all_flat(),
            avg == total as int / input.music@.len() as int,
            crate::solve::spec_spellings_ok(spellings@, total, *input, *cfg),
            out@.len() == x,
            forall|y: int|
                0 <= y < out@.len() ==> spec_candidate_ok(
                    #[trigger] out@[y],
                    spellings@[y]@,
                    total,
                    *input,
                ),
    {
        let src = &spellings[x];
        proof {
            lemma_projection_shape(spellings@, total, *input, *cfg, x as int);
        }
        let mut s: Vec<Harp> = Vec::new();
        for j in 0..src.len()
            invariant
                s@ == src@.subrange(0, j as int),
        {
            s.push(src[j]);
            proof {
                assert(src@.subrange(0, j + 1) =~= src@.subrange(0, j as int).push(src@[j as int]));
            }
        }
        proof {
            assert(src@.subrange(0, src@.len() as int) =~= src@);
            assert(s@ == spellings@[x as int]@);
        }
        let fi = crate::harp::full_initial(&s);
        let diag = crate::harp::update_harp(
            flat,
            crate::harp::update_harp(input.goal, crate::harp::update_harp(fi, input.diagram)),
        );
        let dest = crate::harp::update_harp(
            crate::harp::update_harp(flat, crate::harp::update_harps(input.diagram, &s)),
            input.goal,
        );
        proof {
            let views = s@.map_values(|h: Harp| h@);
            assert forall|i: int| 0 <= i < views.len() implies harp_wf(#[trigger] views[i]) by {
                assert(views[i] == s@[i]@);
            }
            crate::harp::lemma_full_initial_wf(views);
            crate::harp::lemma_update_harp_wf(fi@, input.diagram@);
            crate::harp::lemma_update_harp_wf(
                input.goal@,
                crate::harp::spec_update_harp(fi@, input.diagram@),
            );
            assert(harp_wf(crate::harp::spec_all_flat()));
            crate::harp::lemma_update_harp_wf(
                crate::harp::spec_all_flat(),
                crate::harp::spec_update_harp(
                    input.goal@,
                    crate::harp::spec_update_harp(fi@, input.diagram@),
                ),
            );
            lemma_update_harps_wf(input.diagram@, views);
            crate::harp::lemma_update_harp_wf(
                crate::harp::spec_all_flat(),
                crate::harp::spec_update_harps(input.diagram@, views),
            );
            crate::harp::lemma_update_harp_wf(
                crate::harp::spec_update_harp(
                    crate::harp::spec_all_flat(),
                    crate::harp::spec_update_harps(input.diagram@, views),
                ),
                input.goal@,
            );
        }
        let mut cand = CandidateBuilder::new();
        cand.set_diagram(diag);
        cand.set_destination(dest);
        cand.set_spelling(s);
        let pedals = crate::solve::get_pedal_changes(&cand);
        cand.set_pedals(pedals);
        cand.refine_spelling(input);
        cand.set_cost(avg);
        let c = match cand.try_init() {
            Some(c) => c,
            None => {
                proof {
                    assert(false);
                }
                unreached()
            },
        };
        proof {
            assert(spec_candidate_ok(c, spellings@[x as int]@, total, *input)) by {
                let raw = spellings@[x as int]@;
                let views = raw.map_values(|h: Harp| h@);
                assert(c.spelling@.len() == raw.len());
                let pviews = (seq![c.diagram] + raw + seq![c.destination]).map_values(
                    |h: Harp| h@,
                );
                assert(pviews =~= (seq![diag] + raw + seq![dest]).map_values(|h: Harp| h@));
            }
        }
        out.push(c);
    }
    proof {
        assert(exists|sp: Seq<Vec<Harp>>, total2: u64|
            #[trigger] crate::solve::spec_spellings_ok(sp, total2, *input, *cfg) && out@.len()
                == sp.len() && (forall|x: int|
                0 <= x < out@.len() ==> spec_candidate_ok(
                    #[trigger] out@[x],
                    sp[x]@,
                    total2,
                    *input,
                ))) by {
            assert(crate::solve::spec_spellings_ok(spellings@, total, *input, *cfg) && out@.len()
                == spellings@.len() && (forall|x: int|
                0 <= x < out@.len() ==> spec_candidate_ok(
                    #[trigger] out@[x],
                    spellings@[x]@,
                    total,
                    *input,
                )));
        }
    }
    Ok(out)
}

/// Folding well-formed overlays keeps the harp well formed.
proof fn lemma_update_harps_wf(state: Seq<u8>, changes: Seq<Seq<u8>>)
    requires
        harp_wf(state),
        forall|i: int| 0 <= i < changes.len() ==> harp_wf(#[trigger] changes[i]),
    ensures
        harp_wf(crate::harp::spec_update_harps(state, changes)),
    decreases changes.len(),
{
    if changes.len() > 0 {
        lemma_update_harps_wf(state, changes.drop_last());
        crate::harp::lemma_update_harp_wf(
            crate::harp::spec_update_harps(state, changes.drop_last()),
            changes.last(),
        );
    }
}

/// A cheapest projection has one harp per beat, every one well formed.
proof fn lemma_projection_shape(
    sp: Seq<Vec<Harp>>,
    total: u64,
    input: MusicInput,
    cfg: crate::cost::Config,
    x: int,
)
    requires
        crate::solve::spec_spellings_ok(sp, total, input, cfg),
        input.music@.len() + 2 <= 0x4_0000,
        0 <= x < sp.len(),
    ensures
        sp[x]@.len() == input.music@.len(),
        forall|i: int| 0 <= i < sp[x]@.len() ==> harp_wf((#[trigger] sp[x]@[i])@),
{
    let gmid = choose|gmid: Seq<Seq<Harp>>|
        #[trigger] crate::solve::spec_mid_spells(gmid, input.music@) && {
            &&& (sp.len() == 0 ==> (forall|p: Seq<crate::astar::AstarState>|
                !crate::astar::spec_solution(p, input.diagram, gmid, input.goal, cfg)) && total
                == 0)
            &&& forall|y: int|
                0 <= y < sp.len() ==> crate::solve::spec_minimal_projection(
                    (#[trigger] sp[y])@,
                    input.diagram,
                    gmid,
                    input.goal,
                    total,
                    cfg,
                )
            &&& (sp.len() > 0 ==> forall|p: Seq<crate::astar::AstarState>|
                crate::astar::spec_solution(p, input.diagram, gmid, input.goal, cfg)
                    ==> crate::astar::spec_path_cost(p, cfg) >= total)
            &&& (sp.len() > 0 ==> forall|p: Seq<crate::astar::AstarState>|
                crate::astar::spec_solution(p, input.diagram, gmid, input.goal, cfg)
                    && crate::astar::spec_path_cost(p, cfg) == total ==> exists|y: int|
                    0 <= y < sp.len() && (#[trigger] sp[y])@ == crate::solve::spec_project(p))
        };
    assert(crate::solve::spec_minimal_projection(
        sp[x]@,
        input.diagram,
        gmid,
        input.goal,
        total,
        cfg,
    ));
    let p = choose|p: Seq<crate::astar::AstarState>|
        crate::astar::spec_solution(p, input.diagram, gmid, input.goal, cfg)
            && crate::astar::spec_path_cost(p, cfg) == total && sp[x]@
            == #[trigger] crate::solve::spec_project(p);
    let (h, s) = choose|h: Harp, s: crate::astar::AstarState|
        crate::astar::spec_start_choice(input.diagram, h) && #[trigger] crate::astar::spec_initial_of(
            h,
            s,
        ) && crate::astar::spec_valid_path(p, s, gmid, input.goal, cfg.forget_after);
    crate::astar::lemma_valid_path_shape(p, s, gmid, input.goal, cfg.forget_after);
    assert(harp_wf(s.pedals@)) by {
        assert forall|i: int| 0 <= i < 7 implies s.pedals@[i] <= 3 by {
            assert(1 <= h@[i] <= 3);
        }
    }
    crate::astar::lemma_path_states_wf(p, s, gmid, input.goal, cfg.forget_after);
    assert(sp[x]@.len() == gmid.len());
    assert forall|i: int| 0 <= i < sp[x]@.len() implies harp_wf((#[trigger] sp[x]@[i])@) by {
        assert(sp[x]@[i] == p.subrange(1, p.len() - 1)[i].pedals);
        assert(p.subrange(1, p.len() - 1)[i] == p[i + 1]);
        assert(p[i + 1].wf());
    }
}

} // verus!
