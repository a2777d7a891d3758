//! The search-graph vertex: both feet's pedal settings, each foot's memory
//! of its last change, and the per-pedal early-change markers.
use vstd::prelude::*;
use crate::cost::{
    astar_cost, lemma_astar_cost_bound, spec_astar_cost, spec_search_heuristic, Config,
};
use crate::harp::{
    harp_changes, harp_wf, lemma_harp_changes_covers, lemma_harp_changes_entries,
    lemma_name_slot_roundtrip, lemma_num_changes_is_len, lemma_diff_count_marks,
    lemma_num_changes_split, lemma_num_changes_triangle, lemma_num_changes_zero_iff,
    name_to_usize, set_pedal, spec_change_entry_ok, spec_diff_count, spec_harp_changes,
    spec_idx_to_note, spec_modifier_to_u8, spec_name_to_usize, spec_num_changes, spec_set_pedal,
    idx_to_note, Harp,
};
use crate::note::{Name, Note};
use crate::util::lemma_contains_push;

verus! {

/// One foot's memory: the note it last moved to, and how many beats ago.
#[derive(Copy, Clone, Debug, Eq, Hash, PartialEq, Structural)]
pub struct Change {
    pub note: Note,
    pub time: u64,
}

impl Change {
    /// A change made on the current beat.
    pub fn new(note: Note) -> (r: Change)
        ensures
            r.note == note,
            r.time == 0,
    {
        Change { note, time: 0 }
    }

    /// One more beat has passed since the change.
    pub fn advance(&mut self)
        requires
            old(self).time < u64::MAX,
        ensures
            final(self).note == old(self).note,
            final(self).time == old(self).time + 1,
    {
        self.time = self.time + 1;
    }
}

/// The memory after an idle beat: it ages by one, and expires once it is
/// `forget_after` beats old.
pub open spec fn spec_advance_memory(m: Option<Change>, forget_after: u64) -> Option<Change> {
    match m {
        Some(change) => if change.time >= forget_after {
            None
        } else {
            Some(Change { note: change.note, time: (change.time + 1) as u64 })
        },
        None => None,
    }
}

fn advance_memory(m: Option<Change>, forget_after: u64) -> (r: Option<Change>)
    ensures
        r == spec_advance_memory(m, forget_after),
{
    if let Some(change) = m {
        if change.time >= forget_after {
            None
        } else {
            let mut c = change;
            c.advance();
            Some(c)
        }
    } else {
        None
    }
}

/// A vertex of the pedal-schedule search graph. Equality and hashing are
/// structural: two vertices with the same fields are the same search node.
#[derive(Copy, Clone, Debug, Eq, Hash, PartialEq)]
pub struct AstarState {
    pub beat: usize,
    pub pedals: Harp,
    pub last_left: Option<Change>,
    pub last_right: Option<Change>,
    pub early: [bool; 7],
}

/// The pedals after this beat's moves: each moved note's slot takes its
/// accidental, left foot first (the feet share no slots).
pub open spec fn spec_pedals_after(p: Seq<u8>, left: Option<Note>, right: Option<Note>) -> Seq<
    u8,
> {
    let after_left = match left {
        Some(n) => spec_set_pedal(p, n),
        None => p,
    };
    match right {
        Some(n) => spec_set_pedal(after_left, n),
        None => after_left,
    }
}

/// One foot's memory after this beat: a move starts a fresh memory, an idle
/// beat ages the old one.
pub open spec fn spec_mem_after(m: Option<Change>, mv: Option<Note>, forget_after: u64) -> Option<
    Change,
> {
    match mv {
        Some(n) => Some(Change { note: n, time: 0 }),
        None => spec_advance_memory(m, forget_after),
    }
}

/// Whether this beat moved the pedal in the given slot.
pub open spec fn spec_moved_slot(left: Option<Note>, right: Option<Note>, i: int) -> bool {
    ||| (left matches Some(n) && spec_name_to_usize(n.name) == i)
    ||| (right matches Some(n) && spec_name_to_usize(n.name) == i)
}

/// The early markers after this beat: a moved pedal becomes early, and every
/// marker survives only while the target leaves its pedal unresolved.
pub open spec fn spec_early_after(
    e: Seq<bool>,
    left: Option<Note>,
    right: Option<Note>,
    target: Seq<u8>,
) -> Seq<bool> {
    Seq::new(7, |i: int| (e[i] || spec_moved_slot(left, right, i)) && target[i] == 0)
}

/// How `t` must relate to `s` for this beat's moves against `target`.
pub open spec fn spec_is_next(
    s: AstarState,
    t: AstarState,
    left: Option<Note>,
    right: Option<Note>,
    target: Harp,
    forget_after: u64,
) -> bool {
    &&& t.beat == s.beat + 1
    &&& t.pedals@ == spec_pedals_after(s.pedals@, left, right)
    &&& t.last_left == spec_mem_after(s.last_left, left, forget_after)
    &&& t.last_right == spec_mem_after(s.last_right, right, forget_after)
    &&& t.early@ == spec_early_after(s.early@, left, right, target@)
}

/// Two states that follow `s` by the same moves are the same state.
pub proof fn lemma_is_next_unique(
    s: AstarState,
    t1: AstarState,
    t2: AstarState,
    left: Option<Note>,
    right: Option<Note>,
    target: Harp,
    forget_after: u64,
)
    requires
        spec_is_next(s, t1, left, right, target, forget_after),
        spec_is_next(s, t2, left, right, target, forget_after),
    ensures
        t1 == t2,
{
    assert(t1.pedals =~= t2.pedals);
    assert(t1.early =~= t2.early);
}

impl AstarState {
    /// The pedal slots all hold legal values.
    pub open spec fn wf(self) -> bool {
        harp_wf(self.pedals@)
    }

    /// The search's starting vertex: beat zero, no memories, nothing early.
    pub fn new(pedals: Harp) -> (r: AstarState)
        ensures
            r.beat == 0,
            r.pedals == pedals,
            r.last_left is None,
            r.last_right is None,
            r.early@ =~= Seq::new(7, |i: int| false),
    {
        AstarState { beat: 0, pedals, last_left: None, last_right: None, early: [false;7] }
    }

    /// Marks the named pedal as changed early.
    pub fn set_early(&mut self, name: Name)
        ensures
            final(self).early@ == old(self).early@.update(
                spec_name_to_usize(name) as int,
                true,
            ),
            final(self).beat == old(self).beat,
            final(self).pedals == old(self).pedals,
            final(self).last_left == old(self).last_left,
            final(self).last_right == old(self).last_right,
    {
        self.early[name_to_usize(name)] = true;
    }

    /// Clears the markers of pedals the target now resolves.
    pub fn unset_early(&mut self, target: Harp)
        ensures
            final(self).early@ == Seq::new(
                7,
                |i: int| old(self).early@[i] && target@[i] == 0,
            ),
            final(self).beat == old(self).beat,
            final(self).pedals == old(self).pedals,
            final(self).last_left == old(self).last_left,
            final(self).last_right == old(self).last_right,
    {
        let ghost orig = self.early@;
        self.early[0] = self.early[0] && target[0] == 0;
        self.early[1] = self.early[1] && target[1] == 0;
        self.early[2] = self.early[2] && target[2] == 0;
        self.early[3] = self.early[3] && target[3] == 0;
        self.early[4] = self.early[4] && target[4] == 0;
        self.early[5] = self.early[5] && target[5] == 0;
        self.early[6] = self.early[6] && target[6] == 0;
        proof {
            assert(self.early@ =~= Seq::new(7, |i: int| orig[i] && target@[i] == 0));
        }
    }

    /// Carries the state across one beat: each foot either moves one pedal
    /// or lets its memory age, and the early markers are refreshed against
    /// the target.
    pub fn advance(
        &mut self,
        left: Option<Note>,
        right: Option<Note>,
        target: Harp,
        forget_after: u64,
    )
        requires
            old(self).beat < usize::MAX,
        ensures
            spec_is_next(*old(self), *final(self), left, right, target, forget_after),
            old(self).wf() ==> final(self).wf(),
    {
        self.beat = self.beat + 1;
        match left {
            Some(note) => {
                set_pedal(&mut self.pedals, note);
                self.last_left = Some(Change::new(note));
                self.set_early(note.name);
            },
            None => {
                self.last_left = advance_memory(self.last_left, forget_after);
            },
        }
        match right {
            Some(note) => {
                set_pedal(&mut self.pedals, note);
                self.last_right = Some(Change::new(note));
                self.set_early(note.name);
            },
            None => {
                self.last_right = advance_memory(self.last_right, forget_after);
            },
        }
        self.unset_early(target);
        proof {
            assert(self.pedals@ =~= spec_pedals_after(old(self).pedals@, left, right));
            assert(self.early@ =~= spec_early_after(old(self).early@, left, right, target@));
        }
    }
}

/// An anticipatory move a foot may make while nothing is forced: it sets a
/// pedal the target leaves open, in the foot's own slot range, to a value
/// it does not already hold.
pub open spec fn spec_early_move(
    s: AstarState,
    target: Harp,
    note: Note,
    lo: int,
    hi: int,
) -> bool {
    let j = spec_name_to_usize(note.name) as int;
    &&& lo <= j < hi
    &&& target@[j] == 0
    &&& s.pedals@[j] != spec_modifier_to_u8(note.accidental)
}

/// The single change the target forces on this foot.
pub open spec fn spec_forced_note(s: AstarState, target: Harp, lo: int, hi: int) -> Note {
    let e = spec_harp_changes(s.pedals@, target@, lo, hi)[0];
    spec_idx_to_note(e.0, e.1).unwrap()
}

/// What one foot may do against a target, over its slot range `[lo, hi)`:
/// with no forced change it may stay still or move early; with exactly one
/// it must make that change; with more the beat is a dead end.
pub open spec fn spec_foot_move(
    s: AstarState,
    target: Harp,
    m: Option<Note>,
    lo: int,
    hi: int,
) -> bool {
    let n = spec_num_changes(s.pedals@, target@, lo, hi);
    if n == 0 {
        match m {
            None => true,
            Some(note) => spec_early_move(s, target, note, lo, hi),
        }
    } else if n == 1 {
        m == Some(spec_forced_note(s, target, lo, hi))
    } else {
        false
    }
}

/// The moves one foot may make this beat, over its slot range.
fn foot_targets(state: &AstarState, target: Harp, lo: usize, hi: usize) -> (r: Vec<Option<Note>>)
    requires
        harp_wf(target@),
        lo <= hi <= 7,
    ensures
        forall|m: Option<Note>|
            r@.contains(m) <==> spec_foot_move(*state, target, m, lo as int, hi as int),
{
    proof {
        lemma_num_changes_is_len(state.pedals@, target@, lo as int, hi as int);
        lemma_harp_changes_entries(state.pedals@, target@, lo as int, hi as int);
        lemma_name_slot_roundtrip();
    }
    let changes = harp_changes(state.pedals, target, lo, hi);
    let mut out: Vec<Option<Note>> = Vec::new();
    if changes.len() == 0 {
        out.push(None);
        proof {
            lemma_contains_push(Seq::empty(), Option::<Note>::None);
        }
        for j in lo..hi
            invariant
                harp_wf(target@),
                lo <= j <= hi <= 7,
                forall|m: Option<Note>|
                    out@.contains(m) <==> match m {
                        None => true,
                        Some(note) => spec_early_move(*state, target, note, lo as int, j as int),
                    },
        {
            let ghost pre = out@;
            if target[j] == 0 {
                if state.pedals[j] != 1 {
                    let n = idx_to_note(j, 1).unwrap();
                    proof {
                        lemma_contains_push(out@, Some(n));
                    }
                    out.push(Some(n));
                }
                if state.pedals[j] != 2 {
                    let n = idx_to_note(j, 2).unwrap();
                    proof {
                        lemma_contains_push(out@, Some(n));
                    }
                    out.push(Some(n));
                }
                if state.pedals[j] != 3 {
                    let n = idx_to_note(j, 3).unwrap();
                    proof {
                        lemma_contains_push(out@, Some(n));
                    }
                    out.push(Some(n));
                }
            }
            proof {
                assert forall|m: Option<Note>| out@.contains(m) implies match m {
                    None => true,
                    Some(note) => spec_early_move(*state, target, note, lo as int, j + 1),
                } by {
                    match m {
                        Some(note) => {
                            if pre.contains(m) {
                                assert(spec_early_move(*state, target, note, lo as int, j as int));
                            }
                        },
                        None => {},
                    }
                }
                assert forall|m: Option<Note>|
                    match m {
                        None => true,
                        Some(note) => spec_early_move(*state, target, note, lo as int, j + 1),
                    } implies out@.contains(m) by {
                    match m {
                        None => {
                            assert(pre.contains(m));
                        },
                        Some(note) => {
                            let k = spec_name_to_usize(note.name) as int;
                            if k < j {
                                assert(pre.contains(m));
                            } else {
                                assert(k == j);
                                assert(note.name == crate::harp::spec_usize_to_name(j));
                                assert(m == Some(
                                    Note {
                                        name: note.name,
                                        accidental: note.accidental,
                                    },
                                ));
                            }
                        },
                    }
                }
            }
        }
        assert(spec_num_changes(state.pedals@, target@, lo as int, hi as int) == 0);
    } else if changes.len() == 1 {
        let e = changes[0];
        assert(spec_change_entry_ok(
            state.pedals@,
            target@,
            lo as int,
            hi as int,
            spec_harp_changes(state.pedals@, target@, lo as int, hi as int)[0],
        ));
        let note = idx_to_note(e.0, e.1).unwrap();
        proof {
            lemma_contains_push(Seq::empty(), Some(note));
        }
        out.push(Some(note));
        assert(note == spec_forced_note(*state, target, lo as int, hi as int));
    } else {
        assert(spec_num_changes(state.pedals@, target@, lo as int, hi as int) >= 2);
    }
    out
}

/// Whether `t` is a state this beat can reach against `target`: some pair
/// of per-foot moves produces it.
pub open spec fn spec_target_state(s: AstarState, target: Harp, fa: u64, t: AstarState) -> bool {
    exists|l: Option<Note>, r: Option<Note>|
        spec_foot_move(s, target, l, 0, 3) && spec_foot_move(s, target, r, 3, 7) && #[trigger]
        spec_is_next(s, t, l, r, target, fa)
}

/// A reachable state advances the beat by one and stays well formed.
pub proof fn lemma_target_state_wf(s: AstarState, target: Harp, fa: u64, t: AstarState)
    requires
        s.wf(),
        spec_target_state(s, target, fa, t),
    ensures
        t.wf(),
        t.beat == s.beat + 1,
{
    let (l, r) = choose|l: Option<Note>, r: Option<Note>|
        spec_foot_move(s, target, l, 0, 3) && spec_foot_move(s, target, r, 3, 7) && #[trigger]
        spec_is_next(s, t, l, r, target, fa);
    assert(harp_wf(spec_pedals_after(s.pedals@, l, r)));
}

/// Every state one beat can reach against a target, as the cross product
/// of the two feet's move choices.
fn get_targets(state: &AstarState, target: Harp, fa: u64) -> (r: Vec<AstarState>)
    requires
        harp_wf(target@),
        state.beat < usize::MAX,
    ensures
        forall|t: AstarState| r@.contains(t) <==> spec_target_state(*state, target, fa, t),
{
    let lefts = foot_targets(state, target, 0, 3);
    let rights = foot_targets(state, target, 3, 7);
    let mut out: Vec<AstarState> = Vec::new();
    for li in 0..lefts.len()
        invariant
            state.beat < usize::MAX,
            forall|t: AstarState|
                out@.contains(t) <==> exists|a: int, b: int|
                    #![trigger lefts@[a], rights@[b]]
                    0 <= a < li && 0 <= b < rights@.len() && spec_is_next(
                        *state,
                        t,
                        lefts@[a],
                        rights@[b],
                        target,
                        fa,
                    ),
    {
        for ri in 0..rights.len()
            invariant
                state.beat < usize::MAX,
                li < lefts@.len(),
                forall|t: AstarState|
                    out@.contains(t) <==> (exists|a: int, b: int|
                        #![trigger lefts@[a], rights@[b]]
                        0 <= a < li && 0 <= b < rights@.len() && spec_is_next(
                            *state,
                            t,
                            lefts@[a],
                            rights@[b],
                            target,
                            fa,
                        )) || (exists|b: int|
                        0 <= b < ri && spec_is_next(
                            *state,
                            t,
                            lefts@[li as int],
                            #[trigger] rights@[b],
                            target,
                            fa,
                        )),
        {
            let ghost pre = out@;
            let mut ns = *state;
            ns.advance(lefts[li], rights[ri], target, fa);
            proof {
                lemma_contains_push(out@, ns);
            }
            out.push(ns);
            proof {
                assert forall|t: AstarState| out@.contains(t) implies (exists|a: int, b: int|
                    #![trigger lefts@[a], rights@[b]]
                    0 <= a < li && 0 <= b < rights@.len() && spec_is_next(
                        *state,
                        t,
                        lefts@[a],
                        rights@[b],
                        target,
                        fa,
                    )) || (exists|b: int|
                    0 <= b < ri + 1 && spec_is_next(
                        *state,
                        t,
                        lefts@[li as int],
                        #[trigger] rights@[b],
                        target,
                        fa,
                    )) by {
                    if t == ns {
                        assert(spec_is_next(
                            *state,
                            t,
                            lefts@[li as int],
                            rights@[ri as int],
                            target,
                            fa,
                        ));
                    } else {
                        assert(pre.contains(t));
                    }
                }
                assert forall|t: AstarState|
                    (exists|a: int, b: int|
                        #![trigger lefts@[a], rights@[b]]
                        0 <= a < li && 0 <= b < rights@.len() && spec_is_next(
                            *state,
                            t,
                            lefts@[a],
                            rights@[b],
                            target,
                            fa,
                        )) || (exists|b: int|
                        0 <= b < ri + 1 && spec_is_next(
                            *state,
                            t,
                            lefts@[li as int],
                            #[trigger] rights@[b],
                            target,
                            fa,
                        )) implies out@.contains(t) by {
                    if exists|b: int|
                        0 <= b < ri + 1 && spec_is_next(
                            *state,
                            t,
                            lefts@[li as int],
                            #[trigger] rights@[b],
                            target,
                            fa,
                        ) {
                        let b = choose|b: int|
                            0 <= b < ri + 1 && spec_is_next(
                                *state,
                                t,
                                lefts@[li as int],
                                #[trigger] rights@[b],
                                target,
                                fa,
                            );
                        if b == ri {
                            lemma_is_next_unique(
                                *state,
                                t,
                                ns,
                                lefts@[li as int],
                                rights@[ri as int],
                                target,
                                fa,
                            );
                        } else {
                            assert(pre.contains(t));
                        }
                    } else {
                        assert(pre.contains(t));
                    }
                }
            }
        }
    }
    proof {
        assert forall|t: AstarState| out@.contains(t) implies spec_target_state(
            *state,
            target,
            fa,
            t,
        ) by {
            let (a, b) = choose|a: int, b: int|
                #![trigger lefts@[a], rights@[b]]
                0 <= a < lefts@.len() && 0 <= b < rights@.len() && spec_is_next(
                    *state,
                    t,
                    lefts@[a],
                    rights@[b],
                    target,
                    fa,
                );
            assert(lefts@.contains(lefts@[a]));
            assert(rights@.contains(rights@[b]));
        }
        assert forall|t: AstarState| spec_target_state(*state, target, fa, t) implies out@.contains(
            t,
        ) by {
            let (l, r) = choose|l: Option<Note>, r: Option<Note>|
                spec_foot_move(*state, target, l, 0, 3) && spec_foot_move(*state, target, r, 3, 7)
                    && #[trigger] spec_is_next(*state, t, l, r, target, fa);
            assert(lefts@.contains(l));
            assert(rights@.contains(r));
            let a = choose|a: int| 0 <= a < lefts@.len() && lefts@[a] == l;
            let b = choose|b: int| 0 <= b < rights@.len() && rights@[b] == r;
            assert(spec_is_next(*state, t, lefts@[a], rights@[b], target, fa));
        }
    }
    out
}

/// A successor's annotated cost: the exact transition cost of §4.3.
pub open spec fn spec_edge_cost_ok(s: AstarState, t: AstarState, c: u64, cfg: Config) -> bool {
    c == spec_astar_cost(s, t, cfg)
}

/// The reachable states for each alternative target of one beat, each
/// annotated with its exact transition cost.
fn target_costs(state: &AstarState, targets: &Vec<Harp>, cfg: &Config) -> (r: Vec<
    (AstarState, u64),
>)
    requires
        cfg.wf(),
        state.wf(),
        state.beat < usize::MAX,
        forall|k: int| 0 <= k < targets@.len() ==> harp_wf((#[trigger] targets@[k])@),
    ensures
        forall|t: AstarState, c: u64|
            #[trigger] r@.contains((t, c)) <==> (exists|k: int|
                0 <= k < targets@.len() && spec_target_state(
                    *state,
                    #[trigger] targets@[k],
                    cfg.forget_after,
                    t,
                )) && spec_edge_cost_ok(*state, t, c, *cfg),
{
    let mut out: Vec<(AstarState, u64)> = Vec::new();
    for k in 0..targets.len()
        invariant
            cfg.wf(),
            state.wf(),
            state.beat < usize::MAX,
            forall|j: int| 0 <= j < targets@.len() ==> harp_wf((#[trigger] targets@[j])@),
            forall|t: AstarState, c: u64|
                #[trigger] out@.contains((t, c)) <==> (exists|j: int|
                    0 <= j < k && spec_target_state(
                        *state,
                        #[trigger] targets@[j],
                        cfg.forget_after,
                        t,
                    )) && spec_edge_cost_ok(*state, t, c, *cfg),
    {
        let ts = get_targets(state, targets[k], cfg.forget_after);
        for x in 0..ts.len()
            invariant
                cfg.wf(),
                state.wf(),
                state.beat < usize::MAX,
                k < targets@.len(),
                forall|j: int| 0 <= j < targets@.len() ==> harp_wf((#[trigger] targets@[j])@),
                forall|t: AstarState|
                    ts@.contains(t) <==> spec_target_state(
                        *state,
                        targets@[k as int],
                        cfg.forget_after,
                        t,
                    ),
                forall|t: AstarState, c: u64|
                    #[trigger] out@.contains((t, c)) <==> ((exists|j: int|
                        0 <= j < k && spec_target_state(
                            *state,
                            #[trigger] targets@[j],
                            cfg.forget_after,
                            t,
                        )) || (exists|y: int|
                        0 <= y < x && ts@[y] == t)) && spec_edge_cost_ok(*state, t, c, *cfg),
        {
            proof {
                assert(ts@.contains(ts@[x as int]));
                lemma_target_state_wf(
                    *state,
                    targets@[k as int],
                    cfg.forget_after,
                    ts@[x as int],
                );
            }
            let t = ts[x];
            let c = astar_cost(state, &t, cfg);
            let ghost pre = out@;
            proof {
                lemma_contains_push(out@, (t, c));
            }
            out.push((t, c));
            proof {
                assert forall|t2: AstarState, c2: u64| #[trigger] out@.contains((t2, c2)) implies ((
                exists|j: int|
                    0 <= j < k && spec_target_state(
                        *state,
                        #[trigger] targets@[j],
                        cfg.forget_after,
                        t2,
                    )) || (exists|y: int| 0 <= y < x + 1 && ts@[y] == t2)) && spec_edge_cost_ok(
                    *state,
                    t2,
                    c2,
                    *cfg,
                ) by {
                    if (t2, c2) == (t, c) {
                        assert(ts@[x as int] == t2);
                    } else {
                        assert(pre.contains((t2, c2)));
                    }
                }
                assert forall|t2: AstarState, c2: u64|
                    ((exists|j: int|
                        0 <= j < k && spec_target_state(
                            *state,
                            #[trigger] targets@[j],
                            cfg.forget_after,
                            t2,
                        )) || (exists|y: int| 0 <= y < x + 1 && ts@[y] == t2))
                        && spec_edge_cost_ok(*state, t2, c2, *cfg) implies #[trigger] out@.contains(
                    (t2, c2),
                ) by {
                    if exists|y: int| 0 <= y < x + 1 && ts@[y] == t2 {
                        let y = choose|y: int| 0 <= y < x + 1 && ts@[y] == t2;
                        if y == x {
                            assert(t2 == t && c2 == c);
                        } else {
                            assert(pre.contains((t2, c2)));
                        }
                    } else {
                        assert(pre.contains((t2, c2)));
                    }
                }
            }
        }
        proof {
            assert forall|t: AstarState, c: u64| #[trigger] out@.contains((t, c)) implies (exists|
                j: int,
            |
                0 <= j < k + 1 && spec_target_state(
                    *state,
                    #[trigger] targets@[j],
                    cfg.forget_after,
                    t,
                )) && spec_edge_cost_ok(*state, t, c, *cfg) by {
                if exists|y: int| 0 <= y < ts@.len() && ts@[y] == t {
                    let y = choose|y: int| 0 <= y < ts@.len() && ts@[y] == t;
                    assert(ts@.contains(t));
                    assert(spec_target_state(
                        *state,
                        targets@[k as int],
                        cfg.forget_after,
                        t,
                    ));
                }
            }
            assert forall|t: AstarState, c: u64|
                (exists|j: int|
                    0 <= j < k + 1 && spec_target_state(
                        *state,
                        #[trigger] targets@[j],
                        cfg.forget_after,
                        t,
                    )) && spec_edge_cost_ok(*state, t, c, *cfg) implies #[trigger] out@.contains(
                (t, c),
            ) by {
                let j = choose|j: int|
                    0 <= j < k + 1 && spec_target_state(
                        *state,
                        #[trigger] targets@[j],
                        cfg.forget_after,
                        t,
                    );
                if j == k {
                    assert(ts@.contains(t));
                    let y = choose|y: int| 0 <= y < ts@.len() && ts@[y] == t;
                    assert(0 <= y < ts@.len() && ts@[y] == t);
                }
            }
        }
    }
    out
}

/// The alternative targets one beat offers: one of the beat's spellings
/// while music remains, the destination harp on the settling beat after the
/// last one, and nothing beyond.
pub open spec fn spec_beat_options(beat: int, mid: Seq<Seq<Harp>>, end: Harp) -> Seq<Harp> {
    if beat < mid.len() {
        mid[beat]
    } else if beat == mid.len() {
        seq![end]
    } else {
        Seq::empty()
    }
}

/// Every harp of every beat holds legal slot values.
pub open spec fn spec_mid_wf(mid: Seq<Seq<Harp>>) -> bool {
    forall|k: int, j: int|
        0 <= k < mid.len() && 0 <= j < mid[k].len() ==> harp_wf((#[trigger] mid[k][j])@)
}

/// Whether the search graph has an edge from `s` to `t`: some alternative
/// target of `s`'s beat lets both feet reach `t`.
pub open spec fn spec_edge(
    s: AstarState,
    t: AstarState,
    mid: Seq<Seq<Harp>>,
    end: Harp,
    fa: u64,
) -> bool {
    exists|k: int|
        0 <= k < spec_beat_options(s.beat as int, mid, end).len() && spec_target_state(
            s,
            #[trigger] spec_beat_options(s.beat as int, mid, end)[k],
            fa,
            t,
        )
}

/// The states one beat away from `s`, each with its exact transition cost.
fn succ(state: &AstarState, mid: &Vec<Vec<Harp>>, end: Harp, cfg: &Config) -> (r: Vec<
    (AstarState, u64),
>)
    requires
        cfg.wf(),
        state.wf(),
        mid@.len() < usize::MAX,
        spec_mid_wf(mid@.map_values(|v: Vec<Harp>| v@)),
        harp_wf(end@),
    ensures
        forall|t: AstarState, c: u64|
            #[trigger] r@.contains((t, c)) <==> spec_edge(
                *state,
                t,
                mid@.map_values(|v: Vec<Harp>| v@),
                end,
                cfg.forget_after,
            ) && spec_edge_cost_ok(*state, t, c, *cfg),
{
    let ghost gmid = mid@.map_values(|v: Vec<Harp>| v@);
    let i = state.beat;
    if i < mid.len() {
        proof {
            assert(gmid[i as int] == mid@[i as int]@);
            assert forall|k: int| 0 <= k < mid@[i as int]@.len() implies harp_wf(
                (#[trigger] mid@[i as int]@[k])@,
            ) by {
                assert(harp_wf((gmid[i as int][k])@));
            }
        }
        let r = target_costs(state, &mid[i], cfg);
        proof {
            assert(spec_beat_options(i as int, gmid, end) == mid@[i as int]@);
        }
        r
    } else if i == mid.len() {
        let mut targets: Vec<Harp> = Vec::new();
        targets.push(end);
        let r = target_costs(state, &targets, cfg);
        proof {
            assert(spec_beat_options(i as int, gmid, end) =~= targets@);
        }
        r
    } else {
        let r: Vec<(AstarState, u64)> = Vec::new();
        proof {
            assert(spec_beat_options(i as int, gmid, end).len() == 0);
        }
        r
    }
}

/// A goal vertex: the beat index has passed the settling transition that
/// follows the last musical beat.
pub open spec fn spec_is_goal(s: AstarState, mid: Seq<Seq<Harp>>) -> bool {
    s.beat > mid.len()
}

fn search_done(state: &AstarState, n_mid: usize) -> (r: bool)
    ensures
        r == (state.beat > n_mid),
{
    state.beat > n_mid
}

/// Every consecutive pair of the sequence is a search-graph edge.
pub open spec fn spec_chain(p: Seq<AstarState>, mid: Seq<Seq<Harp>>, end: Harp, fa: u64) -> bool {
    forall|i: int| 0 <= i < p.len() - 1 ==> spec_edge(#[trigger] p[i], p[i + 1], mid, end, fa)
}

/// A playable schedule: a chain from the start vertex to a goal vertex.
/// Opaque: the search plumbing handles whole paths and never needs to look
/// inside one.
#[verifier::opaque]
pub open spec fn spec_valid_path(
    p: Seq<AstarState>,
    start: AstarState,
    mid: Seq<Seq<Harp>>,
    end: Harp,
    fa: u64,
) -> bool {
    &&& p.len() >= 1
    &&& p[0] == start
    &&& spec_chain(p, mid, end, fa)
    &&& spec_is_goal(p.last(), mid)
}

/// The total cost of a path: the sum of its transitions' exact costs.
pub open spec fn spec_path_cost(p: Seq<AstarState>, cfg: Config) -> int
    decreases p.len(),
{
    if p.len() <= 1 {
        0
    } else {
        spec_path_cost(p.drop_last(), cfg) + spec_astar_cost(p[p.len() - 2], p[p.len() - 1], cfg)
    }
}

/// A vertex the search can visit: one some chain from the start reaches.
pub open spec fn spec_reachable(
    start: AstarState,
    s: AstarState,
    mid: Seq<Seq<Harp>>,
    end: Harp,
    fa: u64,
) -> bool {
    exists|q: Seq<AstarState>|
        #![trigger spec_chain(q, mid, end, fa)]
        q.len() >= 1 && q[0] == start && spec_chain(q, mid, end, fa) && q.last() == s
}

/// What the search's steering bound must satisfy for `astar_bag` to return
/// exactly the minimal paths: at no vertex it visits may the bound exceed
/// the cost of any remaining way to a goal.
pub open spec fn spec_admissible_reachable(
    start: AstarState,
    mid: Seq<Seq<Harp>>,
    end: Harp,
    cfg: Config,
) -> bool {
    forall|p: Seq<AstarState>|
        #![trigger spec_chain(p, mid, end, cfg.forget_after)]
        p.len() >= 1 && spec_reachable(start, p[0], mid, end, cfg.forget_after) && spec_chain(
            p,
            mid,
            end,
            cfg.forget_after,
        ) && spec_is_goal(p.last(), mid) ==> crate::cost::spec_search_heuristic(p[0], end, cfg)
            <= spec_path_cost(p, cfg)
}

/// Relies on `pathfinding::directed::astar::astar_bag_collect`: it returns
/// every start-to-goal path of minimal total cost together with that cost,
/// or `None` when no goal is reachable. Its documentation makes the minimal
/// bag conditional on the heuristic never overestimating the remaining cost
/// at the vertices it evaluates, which are the reachable ones; the library
/// proves that condition before relying on those clauses. Its caveat that a
/// path never repeats a vertex excludes nothing here: the beat index grows
/// along every edge, so no path in this graph can revisit a vertex.
#[verifier::external_body]
fn astar_bag_search(start: &AstarState, mid: &Vec<Vec<Harp>>, end: Harp, cfg: &Config) -> (r:
    Option<(Vec<Vec<AstarState>>, u64)>)
    requires
        cfg.wf(),
        start.wf(),
        start.beat == 0,
        spec_mid_wf(mid@.map_values(|v: Vec<Harp>| v@)),
        harp_wf(end@),
        mid@.len() + 2 <= 0x4_0000,
    ensures
        ({
            let gmid = mid@.map_values(|v: Vec<Harp>| v@);
            let fa = cfg.forget_after;
            match r {
                None => forall|p: Seq<AstarState>|
                    !spec_valid_path(p, *start, gmid, end, fa),
                Some((paths, best)) => spec_admissible_reachable(*start, gmid, end, *cfg) ==> {
                    &&& paths@.len() >= 1
                    &&& forall|x: int|
                        0 <= x < paths@.len() ==> spec_valid_path(
                            (#[trigger] paths@[x])@,
                            *start,
                            gmid,
                            end,
                            fa,
                        ) && spec_path_cost(paths@[x]@, *cfg) == best
                    &&& forall|p: Seq<AstarState>|
                        spec_valid_path(p, *start, gmid, end, fa) ==> spec_path_cost(p, *cfg)
                            >= best
                    &&& forall|p: Seq<AstarState>|
                        spec_valid_path(p, *start, gmid, end, fa) && spec_path_cost(p, *cfg)
                            == best ==> exists|x: int|
                            0 <= x < paths@.len() && (#[trigger] paths@[x])@ == p
                },
            }
        }),
{
    pathfinding::directed::astar::astar_bag_collect(
        start,
        |s: &AstarState| succ(s, mid, end, cfg),
        |s: &AstarState| crate::cost::search_heuristic(s, end, cfg),
        |s: &AstarState| search_done(s, mid.len()),
    )
}

/// Whether `h` is a fully set harp that agrees with `base` wherever `base`
/// is set: one way a player may pre-set the unspecified pedals.
pub open spec fn spec_start_choice(base: Harp, h: Harp) -> bool {
    forall|i: int|
        0 <= i < 7 ==> (base@[i] != 0 ==> #[trigger] h@[i] == base@[i]) && 1 <= h@[i] <= 3
}

/// A compatible pre-setting of the first `i` slots, the rest still open.
pub open spec fn spec_start_prefix(base: Seq<u8>, s: Seq<u8>, i: int) -> bool {
    &&& s.len() == 7
    &&& forall|j: int|
        0 <= j < i ==> (base[j] != 0 ==> #[trigger] s[j] == base[j]) && 1 <= s[j] <= 3
    &&& forall|j: int| i <= j < 7 ==> s[j] == 0
}

/// One step of pre-setting: `s` is `t` with slot `i` chosen compatibly.
pub open spec fn spec_start_expand(base: Seq<u8>, t: Seq<u8>, s: Seq<u8>, i: int) -> bool {
    if base[i] != 0 {
        s == t.update(i, base[i])
    } else {
        s == t.update(i, 1u8) || s == t.update(i, 2u8) || s == t.update(i, 3u8)
    }
}

/// Every compatible pre-setting of the first `i` slots has a witness in
/// `out`.
pub open spec fn spec_starts_complete(base: Seq<u8>, out: Seq<Harp>, i: int) -> bool {
    forall|s: Seq<u8>|
        #[trigger] spec_start_prefix(base, s, i) ==> exists|k: int|
            0 <= k < out.len() && (#[trigger] out[k])@ == s
}

/// Expanding two distinct compatible prefixes, by any choices, keeps them
/// distinct: they already disagree on an earlier slot.
proof fn lemma_expand_distinct(
    base: Seq<u8>,
    t1: Seq<u8>,
    t2: Seq<u8>,
    e1: Seq<u8>,
    e2: Seq<u8>,
    i: int,
)
    requires
        0 <= i < 7,
        spec_start_prefix(base, t1, i),
        spec_start_prefix(base, t2, i),
        t1 != t2,
        spec_start_expand(base, t1, e1, i),
        spec_start_expand(base, t2, e2, i),
    ensures
        e1 != e2,
{
    if forall|j: int| 0 <= j < 7 ==> #[trigger] t1[j] == t2[j] {
        assert(t1 =~= t2);
    }
    let j = choose|j: int| 0 <= j < 7 && t1[j] != t2[j];
    assert(j < i);
    assert(e1[j] == t1[j]);
    assert(e2[j] == t2[j]);
}

/// Every fully set harp compatible with the given, possibly partial one:
/// each unset pedal may be pre-set to any of its three positions, and each
/// compatible harp is listed exactly once.
pub fn possible_starts(state: Harp) -> (r: Vec<Harp>)
    requires
        harp_wf(state@),
    ensures
        forall|h: Harp| r@.contains(h) <==> spec_start_choice(state, h),
        forall|x: int, y: int| 0 <= x < y < r@.len() ==> r@[x] != r@[y],
{
    let mut out: Vec<Harp> = Vec::new();
    out.push([0;7]);
    proof {
        assert forall|s: Seq<u8>| #[trigger] spec_start_prefix(state@, s, 0) implies exists|
            k: int,
        | 0 <= k < out@.len() && (#[trigger] out@[k])@ == s by {
            assert(out@[0]@ =~= s);
            assert(0 <= 0 < out@.len() && out@[0]@ == s);
        }
        assert(spec_starts_complete(state@, out@, 0));
    }
    for i in 0..7usize
        invariant
            harp_wf(state@),
            forall|t: Harp| #[trigger] out@.contains(t) ==> spec_start_prefix(state@, t@, i as int),
            spec_starts_complete(state@, out@, i as int),
            forall|x: int, y: int| 0 <= x < y < out@.len() ==> out@[x] != out@[y],
    {
        let ghost base = state@;
        let mut next: Vec<Harp> = Vec::new();
        let n = out.len();
        for k in 0..n
            invariant
                harp_wf(state@),
                i < 7,
                n == out@.len(),
                forall|t: Harp|
                    #[trigger] out@.contains(t) ==> spec_start_prefix(state@, t@, i as int),
                spec_starts_complete(state@, out@, i as int),
                forall|x: int, y: int| 0 <= x < y < out@.len() ==> out@[x] != out@[y],
                forall|x: int, y: int| 0 <= x < y < next@.len() ==> next@[x] != next@[y],
                forall|t: Harp|
                    #[trigger] next@.contains(t) ==> exists|k2: int|
                        0 <= k2 < k && spec_start_expand(
                            state@,
                            (#[trigger] out@[k2])@,
                            t@,
                            i as int,
                        ),
                forall|k2: int, s: Seq<u8>|
                    0 <= k2 < k && #[trigger] spec_start_expand(state@, out@[k2]@, s, i as int)
                        ==> exists|y: int| 0 <= y < next@.len() && (#[trigger] next@[y])@ == s,
        {
            let ghost pre = next@;
            let t = out[k];
            if state[i] != 0 {
                let mut t2 = t;
                t2[i] = state[i];
                proof {
                    lemma_contains_push(next@, t2);
                }
                next.push(t2);
            } else {
                let mut t2 = t;
                t2[i] = 1;
                proof {
                    lemma_contains_push(next@, t2);
                }
                next.push(t2);
                let mut t3 = t;
                t3[i] = 2;
                proof {
                    lemma_contains_push(next@, t3);
                }
                next.push(t3);
                let mut t4 = t;
                t4[i] = 3;
                proof {
                    lemma_contains_push(next@, t4);
                }
                next.push(t4);
            }
            proof {
                assert(out@.contains(out@[k as int]));
                // the new entries expand this source with pairwise different
                // slot values, and differ from all earlier entries, which
                // expand strictly earlier, distinct sources
                assert forall|x: int, y: int| 0 <= x < y < next@.len() implies next@[x] != next@[
                    y
                ] by {
                    if y < pre.len() {
                        assert(next@[x] == pre[x] && next@[y] == pre[y]);
                    } else if x >= pre.len() {
                        assert(state@[i as int] == 0);
                        assert(next@[x]@[i as int] != next@[y]@[i as int]);
                    } else {
                        assert(next@[x] == pre[x]);
                        assert(pre.contains(pre[x]));
                        let k2 = choose|k2: int|
                            0 <= k2 < k && spec_start_expand(
                                state@,
                                (#[trigger] out@[k2])@,
                                pre[x]@,
                                i as int,
                            );
                        assert(out@[k2] != out@[k as int]);
                        assert(out@[k2]@ != out@[k as int]@) by {
                            if out@[k2]@ == out@[k as int]@ {
                                assert(out@[k2] =~= out@[k as int]);
                            }
                        }
                        assert(out@.contains(out@[k2]));
                        assert(spec_start_prefix(state@, out@[k2]@, i as int));
                        assert(spec_start_prefix(state@, out@[k as int]@, i as int));
                        assert(spec_start_expand(state@, out@[k as int]@, next@[y]@, i as int))
                            by {
                            if state@[i as int] != 0 {
                                assert(next@[y]@ == t@.update(i as int, state@[i as int]));
                            }
                        }
                        lemma_expand_distinct(
                            state@,
                            out@[k2]@,
                            out@[k as int]@,
                            pre[x]@,
                            next@[y]@,
                            i as int,
                        );
                        assert(next@[x]@ != next@[y]@);
                    }
                }
                assert forall|t9: Harp| #[trigger] next@.contains(t9) implies exists|k2: int|
                    0 <= k2 < k + 1 && spec_start_expand(
                        state@,
                        (#[trigger] out@[k2])@,
                        t9@,
                        i as int,
                    ) by {
                    if pre.contains(t9) {
                    } else {
                        assert(spec_start_expand(state@, out@[k as int]@, t9@, i as int));
                    }
                }
                assert forall|k2: int, s: Seq<u8>|
                    0 <= k2 < k + 1 && #[trigger] spec_start_expand(
                        state@,
                        out@[k2]@,
                        s,
                        i as int,
                    ) implies exists|y: int| 0 <= y < next@.len() && (#[trigger] next@[y])@
                    == s by {
                    if k2 < k {
                        let y = choose|y: int| 0 <= y < pre.len() && (#[trigger] pre[y])@ == s;
                        assert(next@[y]@ == s);
                    } else {
                        if state@[i as int] != 0 {
                            assert(next@[next@.len() - 1]@ == s);
                        } else {
                            if s == t@.update(i as int, 1u8) {
                                assert(next@[next@.len() - 3]@ == s);
                            } else if s == t@.update(i as int, 2u8) {
                                assert(next@[next@.len() - 2]@ == s);
                            } else {
                                assert(next@[next@.len() - 1]@ == s);
                            }
                        }
                    }
                }
            }
        }
        proof {
            assert forall|t: Harp| #[trigger] next@.contains(t) implies spec_start_prefix(
                state@,
                t@,
                i + 1,
            ) by {
                let k2 = choose|k2: int|
                    0 <= k2 < n && spec_start_expand(state@, (#[trigger] out@[k2])@, t@, i as int);
                assert(out@.contains(out@[k2]));
                assert(spec_start_prefix(state@, out@[k2]@, i as int));
            }
            assert forall|s: Seq<u8>| #[trigger] spec_start_prefix(state@, s, i + 1) implies exists|
                k: int,
            | 0 <= k < next@.len() && (#[trigger] next@[k])@ == s by {
                let w = s.update(i as int, 0u8);
                assert(spec_start_prefix(state@, w, i as int));
                assert(exists|k: int| 0 <= k < out@.len() && (#[trigger] out@[k])@ == w);
                let k2 = choose|k2: int| 0 <= k2 < out@.len() && (#[trigger] out@[k2])@ == w;
                assert(spec_start_expand(state@, out@[k2]@, s, i as int)) by {
                    if state@[i as int] != 0 {
                        assert(s =~= w.update(i as int, state@[i as int]));
                    } else if s[i as int] == 1 {
                        assert(s =~= w.update(i as int, 1u8));
                    } else if s[i as int] == 2 {
                        assert(s =~= w.update(i as int, 2u8));
                    } else {
                        assert(s =~= w.update(i as int, 3u8));
                    }
                }
            }
            assert(spec_starts_complete(state@, next@, i + 1));
        }
        out = next;
    }
    proof {
        assert forall|h: Harp| out@.contains(h) implies spec_start_choice(state, h) by {
            assert(spec_start_prefix(state@, h@, 7));
        }
        assert(spec_starts_complete(state@, out@, 7));
        assert forall|h: Harp| spec_start_choice(state, h) implies out@.contains(h) by {
            assert(spec_start_prefix(state@, h@, 7));
            let k = choose|k: int| 0 <= k < out@.len() && (#[trigger] out@[k])@ == h@;
            assert(out@[k] =~= h);
            assert(out@.contains(out@[k]));
        }
    }
    out
}

/// The slot one foot's move touches, or a sentinel outside every range.
pub open spec fn spec_move_slot(m: Option<Note>) -> int {
    match m {
        Some(n) => spec_name_to_usize(n.name) as int,
        None => -1,
    }
}

/// One transition never helps the steering bound by more than it costs: the
/// bound at the source is at most the transition's cost plus the bound at
/// the target.
proof fn lemma_edge_consistent(
    s: AstarState,
    t: AstarState,
    mid: Seq<Seq<Harp>>,
    end: Harp,
    cfg: Config,
)
    requires
        cfg.wf(),
        spec_edge(s, t, mid, end, cfg.forget_after),
    ensures
        spec_search_heuristic(s, end, cfg) <= spec_astar_cost(s, t, cfg) + spec_search_heuristic(
            t,
            end,
            cfg,
        ),
{
    let fa = cfg.forget_after;
    let k = choose|k: int|
        0 <= k < spec_beat_options(s.beat as int, mid, end).len() && spec_target_state(
            s,
            #[trigger] spec_beat_options(s.beat as int, mid, end)[k],
            fa,
            t,
        );
    let target = spec_beat_options(s.beat as int, mid, end)[k];
    let (l, r) = choose|l: Option<Note>, r: Option<Note>|
        spec_foot_move(s, target, l, 0, 3) && spec_foot_move(s, target, r, 3, 7) && #[trigger]
        spec_is_next(s, t, l, r, target, fa);
    let a = s.pedals@;
    let b = t.pedals@;
    let e = end@;
    let j1 = spec_move_slot(l);
    let j2 = spec_move_slot(r);
    assert forall|j: int| 0 <= j < 7 && j != j1 && j != j2 implies a[j] == b[j] by {}
    lemma_diff_count_marks(a, b, 0, 7, j1, j2);
    let moved = (if l is Some {
        1int
    } else {
        0int
    }) + (if r is Some {
        1int
    } else {
        0int
    });
    assert(spec_diff_count(a, b, 0, 7) <= moved);
    lemma_num_changes_triangle(a, b, e, 0, 7);
    // each moved foot is charged the flat pedal cost
    lemma_pedal_cost_parts(s.last_left, t.last_left, l, cfg);
    lemma_pedal_cost_parts(s.last_right, t.last_right, r, cfg);
    lemma_cost_other_terms_nonneg(s, t, cfg);
    assert(spec_astar_cost(s, t, cfg) >= cfg.pedal_cost * moved) by (nonlinear_arith)
        requires
            spec_pedal_cost(s.last_left, t.last_left, cfg) >= (if l is Some {
                cfg.pedal_cost as int
            } else {
                0int
            }),
            spec_pedal_cost(s.last_right, t.last_right, cfg) >= (if r is Some {
                cfg.pedal_cost as int
            } else {
                0int
            }),
            moved == (if l is Some {
                1int
            } else {
                0int
            }) + (if r is Some {
                1int
            } else {
                0int
            }),
            spec_astar_cost(s, t, cfg) >= spec_pedal_cost(s.last_left, t.last_left, cfg)
                + spec_pedal_cost(s.last_right, t.last_right, cfg),
    ;
    assert(cfg.pedal_cost * spec_num_changes(a, e, 0, 7) <= cfg.pedal_cost * (spec_num_changes(
        b,
        e,
        0,
        7,
    ) + moved)) by (nonlinear_arith)
        requires
            spec_num_changes(a, e, 0, 7) <= spec_num_changes(b, e, 0, 7) + moved,
            cfg.pedal_cost >= 0,
    ;
    assert(cfg.pedal_cost * (spec_num_changes(b, e, 0, 7) + moved) == cfg.pedal_cost
        * spec_num_changes(b, e, 0, 7) + cfg.pedal_cost * moved) by (nonlinear_arith);
}

use crate::cost::spec_pedal_cost;

/// The flat charge of a foot that moved, and nonnegativity otherwise.
proof fn lemma_pedal_cost_parts(
    old_m: Option<Change>,
    new_m: Option<Change>,
    mv: Option<Note>,
    cfg: Config,
)
    requires
        cfg.wf(),
        new_m == spec_mem_after(old_m, mv, cfg.forget_after),
    ensures
        spec_pedal_cost(old_m, new_m, cfg) >= (if mv is Some {
            cfg.pedal_cost as int
        } else {
            0int
        }),
{
    match mv {
        Some(n) => {
            match old_m {
                Some(o) => {
                    assert(cfg.pedal_distance_cost * crate::cost::spec_pedal_diff(o.note, n)
                        >= 0) by (nonlinear_arith)
                        requires
                            cfg.pedal_distance_cost >= 0,
                            crate::cost::spec_pedal_diff(o.note, n) >= 0,
                    ;
                },
                None => {},
            }
        },
        None => {
            match new_m {
                Some(nm) => {
                    match old_m {
                        Some(o) => {
                            assert(nm.note == o.note);
                            assert(crate::cost::spec_pedal_diff(o.note, nm.note) == 0);
                            assert(nm.time == o.time + 1);
                        },
                        None => {},
                    }
                },
                None => {},
            }
        },
    }
}

/// Every term of the exact cost other than the two flat charges is
/// nonnegative.
proof fn lemma_cost_other_terms_nonneg(s: AstarState, t: AstarState, cfg: Config)
    requires
        cfg.wf(),
    ensures
        spec_astar_cost(s, t, cfg) >= spec_pedal_cost(s.last_left, t.last_left, cfg)
            + spec_pedal_cost(s.last_right, t.last_right, cfg),
{
    crate::cost::lemma_num_same_le(t.pedals@);
    assert(crate::harp::spec_num_same(t.pedals@) * cfg.double_string_cost >= 0)
        by (nonlinear_arith)
        requires
            crate::harp::spec_num_same(t.pedals@) >= 0,
            cfg.double_string_cost >= 0,
    ;
    assert(crate::harp::spec_num_crossed(t.pedals@) * cfg.cross_string_cost >= 0)
        by (nonlinear_arith)
        requires
            crate::harp::spec_num_crossed(t.pedals@) >= 0,
            cfg.cross_string_cost >= 0,
    ;
    assert(cfg.early_change_cost * crate::cost::spec_early_count(t.early@) >= 0)
        by (nonlinear_arith)
        requires
            crate::cost::spec_early_count(t.early@) >= 0,
            cfg.early_change_cost >= 0,
    ;
}

/// The heuristic is admissible: against the harp a transition actually
/// reaches, it never exceeds that transition's exact cost. It ignores the
/// decay, distance, and anticipation effects, which only add cost.
pub proof fn lemma_heuristic_admissible(
    s: AstarState,
    t: AstarState,
    target: Harp,
    cfg: Config,
)
    requires
        cfg.wf(),
        spec_target_state(s, target, cfg.forget_after, t),
    ensures
        crate::cost::spec_astar_heuristic(s, t.pedals, cfg) <= spec_astar_cost(s, t, cfg),
{
    let fa = cfg.forget_after;
    let (l, r) = choose|l: Option<Note>, r: Option<Note>|
        spec_foot_move(s, target, l, 0, 3) && spec_foot_move(s, target, r, 3, 7) && #[trigger]
        spec_is_next(s, t, l, r, target, fa);
    let a = s.pedals@;
    let b = t.pedals@;
    let j1 = spec_move_slot(l);
    let j2 = spec_move_slot(r);
    assert forall|j: int| 0 <= j < 7 && j != j1 && j != j2 implies a[j] == b[j] by {}
    lemma_diff_count_marks(a, b, 0, 7, j1, j2);
    crate::harp::lemma_num_changes_le_diff(a, b, 0, 7);
    let moved = (if l is Some {
        1int
    } else {
        0int
    }) + (if r is Some {
        1int
    } else {
        0int
    });
    assert(spec_num_changes(a, b, 0, 7) <= moved);
    lemma_pedal_cost_parts(s.last_left, t.last_left, l, cfg);
    lemma_pedal_cost_parts(s.last_right, t.last_right, r, cfg);
    crate::cost::lemma_num_same_le(b);
    assert(crate::cost::spec_quick_change_cost(s.last_left, t.last_left, cfg) >= 0);
    assert(crate::cost::spec_quick_change_cost(s.last_right, t.last_right, cfg) >= 0);
    assert(cfg.early_change_cost * crate::cost::spec_early_count(t.early@) >= 0)
        by (nonlinear_arith)
        requires
            crate::cost::spec_early_count(t.early@) >= 0,
            cfg.early_change_cost >= 0,
    ;
    assert(cfg.pedal_cost * spec_num_changes(a, b, 0, 7) <= cfg.pedal_cost * moved)
        by (nonlinear_arith)
        requires
            spec_num_changes(a, b, 0, 7) <= moved,
            cfg.pedal_cost >= 0,
    ;
    assert(cfg.pedal_cost * moved <= spec_pedal_cost(s.last_left, t.last_left, cfg)
        + spec_pedal_cost(s.last_right, t.last_right, cfg)) by (nonlinear_arith)
        requires
            spec_pedal_cost(s.last_left, t.last_left, cfg) >= (if l is Some {
                cfg.pedal_cost as int
            } else {
                0int
            }),
            spec_pedal_cost(s.last_right, t.last_right, cfg) >= (if r is Some {
                cfg.pedal_cost as int
            } else {
                0int
            }),
            moved == (if l is Some {
                1int
            } else {
                0int
            }) + (if r is Some {
                1int
            } else {
                0int
            }),
    ;
}

/// A transition into a goal vertex leaves nothing outstanding: the settling
/// beat's target is the destination harp, whose forced changes the feet have
/// just resolved, so the steering bound at the goal is zero.
proof fn lemma_goal_heuristic_zero(
    s: AstarState,
    t: AstarState,
    mid: Seq<Seq<Harp>>,
    end: Harp,
    cfg: Config,
)
    requires
        cfg.wf(),
        harp_wf(end@),
        spec_edge(s, t, mid, end, cfg.forget_after),
        spec_is_goal(t, mid),
    ensures
        spec_search_heuristic(t, end, cfg) == 0,
{
    let fa = cfg.forget_after;
    let k = choose|k: int|
        0 <= k < spec_beat_options(s.beat as int, mid, end).len() && spec_target_state(
            s,
            #[trigger] spec_beat_options(s.beat as int, mid, end)[k],
            fa,
            t,
        );
    let target = spec_beat_options(s.beat as int, mid, end)[k];
    let (l, r) = choose|l: Option<Note>, r: Option<Note>|
        spec_foot_move(s, target, l, 0, 3) && spec_foot_move(s, target, r, 3, 7) && #[trigger]
        spec_is_next(s, t, l, r, target, fa);
    assert(t.beat == s.beat + 1);
    assert(s.beat == mid.len());
    assert(target == end);
    lemma_foot_resolves(s, t, l, r, end, fa, 0, 3);
    lemma_foot_resolves(s, t, l, r, end, fa, 3, 7);
    lemma_num_changes_split(t.pedals@, end@, 0, 3, 7);
    assert(spec_num_changes(t.pedals@, end@, 0, 7) == 0);
    assert(cfg.pedal_cost * spec_num_changes(t.pedals@, end@, 0, 7) == 0) by (nonlinear_arith)
        requires
            spec_num_changes(t.pedals@, end@, 0, 7) == 0,
    ;
}

/// After a legal move of the foot owning `[lo, hi)`, that range owes the
/// target nothing.
proof fn lemma_foot_resolves(
    s: AstarState,
    t: AstarState,
    l: Option<Note>,
    r: Option<Note>,
    target: Harp,
    fa: u64,
    lo: int,
    hi: int,
)
    requires
        harp_wf(target@),
        spec_is_next(s, t, l, r, target, fa),
        spec_foot_move(s, target, l, 0, 3),
        spec_foot_move(s, target, r, 3, 7),
        lo == 0 && hi == 3 || lo == 3 && hi == 7,
    ensures
        spec_num_changes(t.pedals@, target@, lo, hi) == 0,
{
    let a = s.pedals@;
    let b = t.pedals@;
    let e = target@;
    let m = if lo == 0 {
        l
    } else {
        r
    };
    let j1 = spec_move_slot(l);
    let j2 = spec_move_slot(r);
    let jm = spec_move_slot(m);
    lemma_name_slot_roundtrip();
    lemma_num_changes_is_len(a, e, 0, 3);
    lemma_harp_changes_entries(a, e, 0, 3);
    lemma_num_changes_is_len(a, e, 3, 7);
    lemma_harp_changes_entries(a, e, 3, 7);
    assert(match l {
        Some(_) => 0 <= j1 < 3,
        None => j1 == -1,
    }) by {
        match l {
            Some(note) => {
                if spec_num_changes(a, e, 0, 3) == 1 {
                    assert(spec_change_entry_ok(
                        a,
                        e,
                        0,
                        3,
                        spec_harp_changes(a, e, 0, 3)[0],
                    ));
                }
            },
            None => {},
        }
    }
    assert(match r {
        Some(_) => 3 <= j2 < 7,
        None => j2 == -1,
    }) by {
        match r {
            Some(note) => {
                if spec_num_changes(a, e, 3, 7) == 1 {
                    assert(spec_change_entry_ok(
                        a,
                        e,
                        3,
                        7,
                        spec_harp_changes(a, e, 3, 7)[0],
                    ));
                }
            },
            None => {},
        }
    }
    assert forall|j: int| 0 <= j < 7 && j != j1 && j != j2 implies a[j] == b[j] by {}
    let n = spec_num_changes(a, e, lo, hi);
    lemma_num_changes_zero_iff(a, e, lo, hi);
    lemma_num_changes_zero_iff(b, e, lo, hi);
    lemma_num_changes_is_len(a, e, lo, hi);
    lemma_harp_changes_entries(a, e, lo, hi);
    if n == 0 {
        match m {
            None => {
                assert forall|j: int| lo <= j < hi implies !(b[j] != 0 && e[j] != 0 && b[j]
                    != e[j]) by {
                    assert(b[j] == a[j]);
                }
            },
            Some(note) => {
                assert(e[jm] == 0);
                assert forall|j: int| lo <= j < hi implies !(b[j] != 0 && e[j] != 0 && b[j]
                    != e[j]) by {
                    if j != jm {
                        assert(b[j] == a[j]);
                    }
                }
            },
        }
    } else if n == 1 {
        let entry = spec_harp_changes(a, e, lo, hi)[0];
        let i0 = entry.0 as int;
        let v = entry.1;
        assert(spec_change_entry_ok(a, e, lo, hi, entry));
        match m {
            Some(note) => {
                assert(note == spec_idx_to_note(entry.0, v).unwrap());
                assert(spec_modifier_to_u8(note.accidental) == v);
                assert(jm == i0);
                assert(b[i0] == v);
                assert forall|j: int| lo <= j < hi implies !(b[j] != 0 && e[j] != 0 && b[j]
                    != e[j]) by {
                    if j != i0 {
                        assert(b[j] == a[j]);
                        if a[j] != 0 && e[j] != 0 && a[j] != e[j] {
                            lemma_harp_changes_covers(a, e, lo, hi, j);
                            let k2 = choose|k2: int|
                                0 <= k2 < spec_harp_changes(a, e, lo, hi).len() && (
                                #[trigger] spec_harp_changes(a, e, lo, hi)[k2]) == (
                                j as usize,
                                e[j],
                                );
                            assert(spec_harp_changes(a, e, lo, hi).len() == 1);
                            assert(k2 == 0);
                            assert(i0 == j);
                        }
                    }
                }
            },
            None => {
                assert(false);
            },
        }
    } else {
        assert(false);
    }
}

/// Splitting a path at its first edge splits its cost.
proof fn lemma_path_cost_first(p: Seq<AstarState>, cfg: Config)
    requires
        p.len() >= 2,
    ensures
        spec_path_cost(p, cfg) == spec_astar_cost(p[0], p[1], cfg) + spec_path_cost(
            p.drop_first(),
            cfg,
        ),
    decreases p.len(),
{
    if p.len() == 2 {
        assert(p.drop_last() =~= seq![p[0]]);
        assert(p.drop_first() =~= seq![p[1]]);
        assert(spec_path_cost(p.drop_last(), cfg) == 0);
        assert(spec_path_cost(p.drop_first(), cfg) == 0);
        assert(spec_path_cost(p, cfg) == spec_path_cost(p.drop_last(), cfg) + spec_astar_cost(
            p[p.len() - 2],
            p[p.len() - 1],
            cfg,
        ));
        assert(p[p.len() - 2] == p[0] && p[p.len() - 1] == p[1]);
    } else {
        lemma_path_cost_first(p.drop_last(), cfg);
        assert(p.drop_last().drop_first() =~= p.drop_first().drop_last());
        assert(p.drop_first()[p.drop_first().len() - 2] == p[p.len() - 2]);
        assert(p.drop_first()[p.drop_first().len() - 1] == p[p.len() - 1]);
        assert(p.drop_last()[0] == p[0] && p.drop_last()[1] == p[1]);
        assert(spec_path_cost(p, cfg) == spec_path_cost(p.drop_last(), cfg) + spec_astar_cost(
            p[p.len() - 2],
            p[p.len() - 1],
            cfg,
        ));
        assert(spec_path_cost(p.drop_first(), cfg) == spec_path_cost(
            p.drop_first().drop_last(),
            cfg,
        ) + spec_astar_cost(p.drop_first()[p.drop_first().len() - 2], p.drop_first()[
            p.drop_first().len() - 1
        ], cfg));
    }
}

/// Dropping a path's first vertex leaves a chain.
proof fn lemma_chain_drop_first(p: Seq<AstarState>, mid: Seq<Seq<Harp>>, end: Harp, fa: u64)
    requires
        p.len() >= 1,
        spec_chain(p, mid, end, fa),
    ensures
        spec_chain(p.drop_first(), mid, end, fa),
{
    assert forall|i: int| 0 <= i < p.drop_first().len() - 1 implies spec_edge(
        #[trigger] p.drop_first()[i],
        p.drop_first()[i + 1],
        mid,
        end,
        fa,
    ) by {
        assert(p.drop_first()[i] == p[i + 1]);
        assert(p.drop_first()[i + 1] == p[i + 2]);
        assert(spec_edge(p[i + 1], p[i + 2], mid, end, fa));
    }
}

/// Along any chain, the steering bound at the first vertex is covered by
/// the chain's cost plus the bound at its last vertex.
proof fn lemma_heuristic_chain(p: Seq<AstarState>, mid: Seq<Seq<Harp>>, end: Harp, cfg: Config)
    requires
        cfg.wf(),
        p.len() >= 1,
        spec_chain(p, mid, end, cfg.forget_after),
    ensures
        spec_search_heuristic(p[0], end, cfg) <= spec_path_cost(p, cfg) + spec_search_heuristic(
            p.last(),
            end,
            cfg,
        ),
    decreases p.len(),
{
    if p.len() >= 2 {
        assert(spec_edge(p[0], p[1], mid, end, cfg.forget_after));
        lemma_edge_consistent(p[0], p[1], mid, end, cfg);
        lemma_chain_drop_first(p, mid, end, cfg.forget_after);
        lemma_heuristic_chain(p.drop_first(), mid, end, cfg);
        lemma_path_cost_first(p, cfg);
        assert(p.drop_first()[0] == p[1]);
        assert(p.drop_first().last() == p.last());
    }
}

/// The steering bound satisfies the admissibility that the bag search's
/// documentation asks of it: at every vertex a chain from the start can
/// visit, it never exceeds the cost of any way from there to a goal.
pub proof fn lemma_search_heuristic_admissible(
    start: AstarState,
    mid: Seq<Seq<Harp>>,
    end: Harp,
    cfg: Config,
)
    requires
        cfg.wf(),
        harp_wf(end@),
        start.beat == 0,
    ensures
        spec_admissible_reachable(start, mid, end, cfg),
{
    let fa = cfg.forget_after;
    assert forall|p: Seq<AstarState>|
        p.len() >= 1 && spec_reachable(start, p[0], mid, end, fa) && #[trigger] spec_chain(
            p,
            mid,
            end,
            fa,
        ) && spec_is_goal(p.last(), mid) implies spec_search_heuristic(p[0], end, cfg)
        <= spec_path_cost(p, cfg) by {
        lemma_heuristic_chain(p, mid, end, cfg);
        lemma_path_cost_nonneg(p, cfg);
        // the bound vanishes at the goal: its incoming edge settled into the
        // destination, either inside `p` or at the end of the reaching chain
        if p.len() >= 2 {
            assert(spec_edge(p[p.len() - 2], p[p.len() - 1], mid, end, fa));
            lemma_goal_heuristic_zero(p[p.len() - 2], p.last(), mid, end, cfg);
        } else {
            let q = choose|q: Seq<AstarState>|
                q.len() >= 1 && q[0] == start && #[trigger] spec_chain(q, mid, end, fa)
                    && q.last() == p[0];
            if q.len() >= 2 {
                assert(spec_edge(q[q.len() - 2], q[q.len() - 1], mid, end, fa));
                lemma_goal_heuristic_zero(q[q.len() - 2], q.last(), mid, end, cfg);
            } else {
                assert(p[0] == start);
                assert(!spec_is_goal(start, mid));
            }
        }
    }
}

/// A path's cost is a sum of nonnegative transition costs.
proof fn lemma_path_cost_nonneg(p: Seq<AstarState>, cfg: Config)
    requires
        cfg.wf(),
    ensures
        spec_path_cost(p, cfg) >= 0,
    decreases p.len(),
{
    if p.len() > 1 {
        lemma_path_cost_nonneg(p.drop_last(), cfg);
        lemma_astar_cost_bound(p[p.len() - 2], p[p.len() - 1], cfg);
    }
}

/// An edge advances the beat by exactly one.
proof fn lemma_edge_beat(s: AstarState, t: AstarState, mid: Seq<Seq<Harp>>, end: Harp, fa: u64)
    requires
        spec_edge(s, t, mid, end, fa),
    ensures
        t.beat == s.beat + 1,
        s.beat <= mid.len(),
{
    let k = choose|k: int|
        0 <= k < spec_beat_options(s.beat as int, mid, end).len() && spec_target_state(
            s,
            #[trigger] spec_beat_options(s.beat as int, mid, end)[k],
            fa,
            t,
        );
    let target = spec_beat_options(s.beat as int, mid, end)[k];
    let (l, r) = choose|l: Option<Note>, r: Option<Note>|
        spec_foot_move(s, target, l, 0, 3) && spec_foot_move(s, target, r, 3, 7) && #[trigger]
        spec_is_next(s, t, l, r, target, fa);
}

proof fn lemma_chain_beats(p: Seq<AstarState>, mid: Seq<Seq<Harp>>, end: Harp, fa: u64, i: int)
    requires
        spec_chain(p, mid, end, fa),
        p.len() >= 1,
        p[0].beat == 0,
        0 <= i < p.len(),
    ensures
        p[i].beat == i,
    decreases i,
{
    if i > 0 {
        lemma_chain_beats(p, mid, end, fa, i - 1);
        assert(spec_edge(p[i - 1], p[i], mid, end, fa));
        lemma_edge_beat(p[i - 1], p[i], mid, end, fa);
    }
}

/// A playable schedule visits each beat exactly once: the start, one vertex
/// per musical beat, and the settled goal.
pub proof fn lemma_valid_path_shape(
    p: Seq<AstarState>,
    start: AstarState,
    mid: Seq<Seq<Harp>>,
    end: Harp,
    fa: u64,
)
    requires
        spec_valid_path(p, start, mid, end, fa),
        start.beat == 0,
        mid.len() + 2 <= usize::MAX,
    ensures
        p.len() == mid.len() + 2,
        forall|i: int| 0 <= i < p.len() ==> (#[trigger] p[i]).beat == i,
{
    reveal(spec_valid_path);
    assert forall|i: int| 0 <= i < p.len() implies (#[trigger] p[i]).beat == i by {
        lemma_chain_beats(p, mid, end, fa, i);
    }
    assert(p[p.len() - 1].beat == p.len() - 1);
    assert(p.last().beat > mid.len());
    if p.len() - 1 > mid.len() + 1 {
        lemma_chain_beats(p, mid, end, fa, p.len() - 2);
        assert(spec_edge(p[p.len() - 2], p[p.len() - 1], mid, end, fa));
        lemma_edge_beat(p[p.len() - 2], p[p.len() - 1], mid, end, fa);
        assert(p[p.len() - 2].beat <= mid.len());
        assert(false);
    }
}

/// The unique starting vertex a chosen pre-setting yields.
pub open spec fn spec_initial_of(h: Harp, s: AstarState) -> bool {
    &&& s.beat == 0
    &&& s.pedals == h
    &&& s.last_left is None
    &&& s.last_right is None
    &&& s.early@ == Seq::new(7, |i: int| false)
}

proof fn lemma_initial_unique(h: Harp, s1: AstarState, s2: AstarState)
    requires
        spec_initial_of(h, s1),
        spec_initial_of(h, s2),
    ensures
        s1 == s2,
{
    assert(s1.early =~= s2.early);
}

/// A playable schedule from one of the pre-settings listed at or after `k`.
pub open spec fn spec_solution_from(
    p: Seq<AstarState>,
    starts: Seq<Harp>,
    k: int,
    mid: Seq<Seq<Harp>>,
    end: Harp,
    cfg: Config,
) -> bool {
    exists|a: int, s: AstarState|
        k <= a < starts.len() && #[trigger] spec_initial_of(starts[a], s) && spec_valid_path(
            p,
            s,
            mid,
            end,
            cfg.forget_after,
        )
}

/// Searches the pre-settings listed at or after `k` and returns all their
/// cheapest playable schedules with that shared cost, or `None` when none
/// of them can reach a goal.
#[verifier::rlimit(100)]
fn solve_from(starts: &Vec<Harp>, k: usize, mid: &Vec<Vec<Harp>>, end: Harp, cfg: &Config) -> (r:
    Option<(Vec<Vec<AstarState>>, u64)>)
    requires
        harp_wf(end@),
        spec_mid_wf(mid@.map_values(|v: Vec<Harp>| v@)),
        mid@.len() + 2 <= 0x4_0000,
        cfg.wf(),
        k <= starts@.len(),
        forall|a: int| 0 <= a < starts@.len() ==> harp_wf((#[trigger] starts@[a])@),
    ensures
        ({
            let gmid = mid@.map_values(|v: Vec<Harp>| v@);
            match r {
                None => forall|p: Seq<AstarState>|
                    !spec_solution_from(p, starts@, k as int, gmid, end, *cfg),
                Some((paths, best)) => {
                    &&& paths@.len() >= 1
                    &&& forall|x: int|
                        0 <= x < paths@.len() ==> spec_solution_from(
                            (#[trigger] paths@[x])@,
                            starts@,
                            k as int,
                            gmid,
                            end,
                            *cfg,
                        ) && spec_path_cost(paths@[x]@, *cfg) == best
                    &&& forall|p: Seq<AstarState>|
                        spec_solution_from(p, starts@, k as int, gmid, end, *cfg)
                            ==> spec_path_cost(p, *cfg) >= best
                    &&& forall|p: Seq<AstarState>|
                        spec_solution_from(p, starts@, k as int, gmid, end, *cfg)
                            && spec_path_cost(p, *cfg) == best ==> exists|x: int|
                            0 <= x < paths@.len() && (#[trigger] paths@[x])@ == p
                },
            }
        }),
    decreases starts@.len() - k,
{
    let ghost gmid = mid@.map_values(|v: Vec<Harp>| v@);
    if k == starts.len() {
        proof {
            assert forall|p: Seq<AstarState>|
                !spec_solution_from(p, starts@, k as int, gmid, end, *cfg) by {}
        }
        return None;
    }
    proof {
        assert(harp_wf((starts@[k as int])@));
    }
    let s0 = AstarState::new(starts[k]);
    proof {
        assert(spec_initial_of(starts@[k as int], s0));
        lemma_search_heuristic_admissible(s0, gmid, end, *cfg);
    }
    let cur = astar_bag_search(&s0, mid, end, cfg);
    let rest = solve_from(starts, k + 1, mid, end, cfg);
    proof {
        // a schedule from here on is one from this very starting vertex, or
        // one from a later pre-setting
        assert forall|p: Seq<AstarState>|
            #[trigger] spec_solution_from(p, starts@, k as int, gmid, end, *cfg) implies
            spec_valid_path(p, s0, gmid, end, cfg.forget_after) || spec_solution_from(
            p,
            starts@,
            k + 1,
            gmid,
            end,
            *cfg,
        ) by {
            let (a, s) = choose|a: int, s: AstarState|
                k <= a < starts@.len() && #[trigger] spec_initial_of(starts@[a], s)
                    && spec_valid_path(p, s, gmid, end, cfg.forget_after);
            if a == k {
                lemma_initial_unique(starts@[a], s, s0);
            }
        }
        assert forall|p: Seq<AstarState>|
            spec_valid_path(p, s0, gmid, end, cfg.forget_after) implies
            #[trigger] spec_solution_from(p, starts@, k as int, gmid, end, *cfg) by {
            assert(spec_initial_of(starts@[k as int], s0));
        }
    }
    match (cur, rest) {
        (None, rr) => {
            proof {
                assert forall|p: Seq<AstarState>|
                    #[trigger] spec_solution_from(p, starts@, k as int, gmid, end, *cfg) implies
                    spec_solution_from(p, starts@, k + 1, gmid, end, *cfg) by {}
            }
            rr
        },
        (Some((cp, cc)), None) => {
            proof {
                assert forall|x: int| 0 <= x < cp@.len() implies spec_solution_from(
                    (#[trigger] cp@[x])@,
                    starts@,
                    k as int,
                    gmid,
                    end,
                    *cfg,
                ) && spec_path_cost(cp@[x]@, *cfg) == cc by {
                    assert(spec_valid_path(cp@[x]@, s0, gmid, end, cfg.forget_after));
                }
            }
            Some((cp, cc))
        },
        (Some((cp, cc)), Some((rp, rc))) => {
            if cc < rc {
                proof {
                    assert forall|x: int| 0 <= x < cp@.len() implies spec_solution_from(
                        (#[trigger] cp@[x])@,
                        starts@,
                        k as int,
                        gmid,
                        end,
                        *cfg,
                    ) && spec_path_cost(cp@[x]@, *cfg) == cc by {
                        assert(spec_valid_path(cp@[x]@, s0, gmid, end, cfg.forget_after));
                    }
                    assert forall|p: Seq<AstarState>|
                        spec_solution_from(p, starts@, k as int, gmid, end, *cfg)
                            && spec_path_cost(p, *cfg) == cc implies exists|x: int|
                        0 <= x < cp@.len() && (#[trigger] cp@[x])@ == p by {
                        if spec_solution_from(p, starts@, k + 1, gmid, end, *cfg) {
                            assert(spec_path_cost(p, *cfg) >= rc);
                        }
                    }
                }
                Some((cp, cc))
            } else if rc < cc {
                proof {
                    assert forall|p: Seq<AstarState>|
                        spec_solution_from(p, starts@, k as int, gmid, end, *cfg)
                            && spec_path_cost(p, *cfg) == rc implies exists|x: int|
                        0 <= x < rp@.len() && (#[trigger] rp@[x])@ == p by {
                        if spec_valid_path(p, s0, gmid, end, cfg.forget_after) {
                            assert(spec_path_cost(p, *cfg) >= cc);
                        }
                    }
                }
                Some((rp, rc))
            } else {
                let mut merged = cp;
                let mut rp = rp;
                let ghost gc = merged@;
                let ghost gr = rp@;
                merged.append(&mut rp);
                proof {
                    assert forall|x: int| 0 <= x < merged@.len() implies spec_solution_from(
                        (#[trigger] merged@[x])@,
                        starts@,
                        k as int,
                        gmid,
                        end,
                        *cfg,
                    ) && spec_path_cost(merged@[x]@, *cfg) == cc by {
                        if x < gc.len() {
                            assert(merged@[x] == gc[x]);
                            assert(spec_valid_path(gc[x]@, s0, gmid, end, cfg.forget_after));
                        } else {
                            assert(merged@[x] == gr[x - gc.len()]);
                        }
                    }
                    assert forall|p: Seq<AstarState>|
                        spec_solution_from(p, starts@, k as int, gmid, end, *cfg)
                            && spec_path_cost(p, *cfg) == cc implies exists|x: int|
                        0 <= x < merged@.len() && (#[trigger] merged@[x])@ == p by {
                        if spec_valid_path(p, s0, gmid, end, cfg.forget_after) {
                            let x = choose|x: int| 0 <= x < gc.len() && (#[trigger] gc[x])@ == p;
                            assert(merged@[x] == gc[x]);
                        } else {
                            let x = choose|x: int| 0 <= x < gr.len() && (#[trigger] gr[x])@ == p;
                            assert(merged@[gc.len() + x] == gr[x]);
                        }
                    }
                }
                Some((merged, cc))
            }
        },
    }
}

proof fn lemma_chain_states_wf(
    p: Seq<AstarState>,
    mid: Seq<Seq<Harp>>,
    end: Harp,
    fa: u64,
    i: int,
)
    requires
        spec_chain(p, mid, end, fa),
        p.len() >= 1,
        p[0].wf(),
        0 <= i < p.len(),
    ensures
        p[i].wf(),
    decreases i,
{
    if i > 0 {
        lemma_chain_states_wf(p, mid, end, fa, i - 1);
        assert(spec_edge(p[i - 1], p[i], mid, end, fa));
        let s = p[i - 1];
        let t = p[i];
        let k = choose|k: int|
            0 <= k < spec_beat_options(s.beat as int, mid, end).len() && spec_target_state(
                s,
                #[trigger] spec_beat_options(s.beat as int, mid, end)[k],
                fa,
                t,
            );
        lemma_target_state_wf(s, spec_beat_options(s.beat as int, mid, end)[k], fa, t);
    }
}

/// Every vertex of a playable schedule keeps legal slot values, provided
/// its start vertex does.
pub proof fn lemma_path_states_wf(
    p: Seq<AstarState>,
    start: AstarState,
    mid: Seq<Seq<Harp>>,
    end: Harp,
    fa: u64,
)
    requires
        spec_valid_path(p, start, mid, end, fa),
        start.wf(),
    ensures
        forall|i: int| 0 <= i < p.len() ==> (#[trigger] p[i]).wf(),
{
    reveal(spec_valid_path);
    assert forall|i: int| 0 <= i < p.len() implies (#[trigger] p[i]).wf() by {
        lemma_chain_states_wf(p, mid, end, fa, i);
    }
}

/// A playable schedule for the whole input: a valid path from the starting
/// vertex of some pre-setting compatible with the given start harp.
pub open spec fn spec_solution(
    p: Seq<AstarState>,
    start: Harp,
    mid: Seq<Seq<Harp>>,
    end: Harp,
    cfg: Config,
) -> bool {
    exists|h: Harp, s: AstarState|
        spec_start_choice(start, h) && #[trigger] spec_initial_of(h, s) && spec_valid_path(
            p,
            s,
            mid,
            end,
            cfg.forget_after,
        )
}

/// Searches every compatible pre-setting of the start harp and returns all
/// cheapest playable schedules with their shared cost, or `None` when no
/// schedule can satisfy every beat.
pub fn find_solutions(start: Harp, mid: &Vec<Vec<Harp>>, end: Harp, cfg: &Config) -> (r: Option<
    (Vec<Vec<AstarState>>, u64),
>)
    requires
        harp_wf(start@),
        harp_wf(end@),
        spec_mid_wf(mid@.map_values(|v: Vec<Harp>| v@)),
        mid@.len() + 2 <= 0x4_0000,
        cfg.wf(),
    ensures
        ({
            let gmid = mid@.map_values(|v: Vec<Harp>| v@);
            match r {
                None => forall|p: Seq<AstarState>| !spec_solution(p, start, gmid, end, *cfg),
                Some((paths, best)) => {
                    &&& paths@.len() >= 1
                    &&& forall|x: int|
                        0 <= x < paths@.len() ==> spec_solution(
                            (#[trigger] paths@[x])@,
                            start,
                            gmid,
                            end,
                            *cfg,
                        ) && spec_path_cost(paths@[x]@, *cfg) == best
                    &&& forall|p: Seq<AstarState>|
                        spec_solution(p, start, gmid, end, *cfg) ==> spec_path_cost(p, *cfg)
                            >= best
                    &&& forall|p: Seq<AstarState>|
                        spec_solution(p, start, gmid, end, *cfg) && spec_path_cost(p, *cfg)
                            == best ==> exists|x: int|
                            0 <= x < paths@.len() && (#[trigger] paths@[x])@ == p
                },
            }
        }),
{
    let ghost gmid = mid@.map_values(|v: Vec<Harp>| v@);
    let starts = possible_starts(start);
    proof {
        assert forall|a: int| 0 <= a < starts@.len() implies harp_wf(
            (#[trigger] starts@[a])@,
        ) by {
            assert(starts@.contains(starts@[a]));
            assert(spec_start_choice(start, starts@[a]));
            assert forall|i: int| 0 <= i < 7 implies (starts@[a])@[i] <= 3 by {
                assert(1 <= (starts@[a])@[i] <= 3);
            }
        }
        // a schedule of the whole input is exactly one from some listed
        // pre-setting
        assert forall|p: Seq<AstarState>|
            #[trigger] spec_solution(p, start, gmid, end, *cfg) implies spec_solution_from(
            p,
            starts@,
            0,
            gmid,
            end,
            *cfg,
        ) by {
            let (h, s) = choose|h: Harp, s: AstarState|
                spec_start_choice(start, h) && #[trigger] spec_initial_of(h, s)
                    && spec_valid_path(p, s, gmid, end, cfg.forget_after);
            assert(starts@.contains(h));
            let a = choose|a: int| 0 <= a < starts@.len() && starts@[a] == h;
            assert(spec_initial_of(starts@[a], s));
        }
        assert forall|p: Seq<AstarState>|
            #[trigger] spec_solution_from(p, starts@, 0, gmid, end, *cfg) implies spec_solution(
            p,
            start,
            gmid,
            end,
            *cfg,
        ) by {
            let (a, s) = choose|a: int, s: AstarState|
                0 <= a < starts@.len() && #[trigger] spec_initial_of(starts@[a], s)
                    && spec_valid_path(p, s, gmid, end, cfg.forget_after);
            assert(starts@.contains(starts@[a]));
        }
    }
    solve_from(&starts, 0, mid, end, cfg)
}


} // verus!
