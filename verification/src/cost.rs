//! The configurable cost model: exact transition costs and the admissible
//! lower bound the search steers by.
use vstd::prelude::*;
use crate::astar::{AstarState, Change};
use crate::harp::{
    harp_wf, num_changes, num_crossed, num_same, spec_name_to_usize, spec_num_changes,
    spec_num_crossed, spec_num_same, spec_harp_notes, spec_dup_count, name_to_usize, Harp,
};
use crate::note::Note;

verus! {

/// Weights above this bound could overflow a summed 64-bit cost; every
/// practical weight is far below it.
pub const WEIGHT_MAX: u64 = 0x100_0000_0000;

/// The cost weights, read once from the caller's configuration and passed
/// explicitly into every cost and search call.
#[derive(Copy, Clone, Debug, Eq, PartialEq, Structural)]
pub struct Config {
    /// The flat cost of any pedal change.
    pub pedal_cost: u64,
    /// The penalty for two strings sounding the same pitch class.
    pub double_string_cost: u64,
    /// The penalty for each awkward string crossing.
    pub cross_string_cost: u64,
    /// The per-beat penalty while a pedal stands changed ahead of need.
    pub early_change_cost: u64,
    /// How many beats a foot remembers its last change.
    pub forget_after: u64,
    /// The surcharge for moving a foot again while its memory is hot.
    pub quick_change_cost: u64,
    /// How much of that surcharge each idle beat forgives.
    pub quick_change_decay: u64,
    /// The per-slot penalty on the distance between successive changes.
    pub pedal_distance_cost: u64,
}

impl Config {
    /// All weights small enough that no summed cost can overflow.
    pub open spec fn wf(self) -> bool {
        &&& self.pedal_cost <= WEIGHT_MAX
        &&& self.double_string_cost <= WEIGHT_MAX
        &&& self.cross_string_cost <= WEIGHT_MAX
        &&& self.early_change_cost <= WEIGHT_MAX
        &&& self.forget_after <= WEIGHT_MAX
        &&& self.quick_change_cost <= WEIGHT_MAX
        &&& self.quick_change_decay <= WEIGHT_MAX
        &&& self.pedal_distance_cost <= WEIGHT_MAX
    }
}

/// The mechanical distance between two pedals: how many slots apart they
/// stand in the left-to-right pedal order.
pub open spec fn spec_pedal_diff(old: Note, new: Note) -> int {
    let a = spec_name_to_usize(old.name) as int;
    let b = spec_name_to_usize(new.name) as int;
    if a >= b {
        a - b
    } else {
        b - a
    }
}

fn pedal_diff(old: Note, new: Note) -> (r: u64)
    ensures
        r == spec_pedal_diff(old, new),
        r <= 6,
{
    let a = name_to_usize(old.name) as u64;
    let b = name_to_usize(new.name) as u64;
    if a >= b {
        a - b
    } else {
        b - a
    }
}

/// What a surcharge of `qcc` has decayed to after `time` idle beats, the
/// decay saturating at zero.
pub open spec fn spec_decayed_cost(qcc: u64, qcd: u64, time: u64) -> int {
    if qcd * time >= qcc {
        0
    } else {
        qcc - qcd * time
    }
}

/// The flat and distance cost a foot's move incurs this beat: the flat
/// pedal cost if the foot moved now (a fresh, zero-age memory), plus the
/// mechanical distance from wherever it last stood.
pub open spec fn spec_pedal_cost(old: Option<Change>, new: Option<Change>, cfg: Config) -> int {
    match new {
        Some(n) => (match old {
            Some(o) => cfg.pedal_distance_cost * spec_pedal_diff(o.note, n.note),
            None => 0,
        }) + if n.time == 0 {
            cfg.pedal_cost as int
        } else {
            0
        },
        None => 0,
    }
}

pub fn pedal_cost(old: Option<Change>, new: Option<Change>, cfg: &Config) -> (r: u64)
    requires
        cfg.wf(),
    ensures
        r == spec_pedal_cost(old, new, *cfg),
        r <= 7 * WEIGHT_MAX,
{
    let mut out: u64 = 0;
    if let Some(n) = new {
        if let Some(o) = old {
            let d = pedal_diff(o.note, n.note);
            assert(cfg.pedal_distance_cost * d <= 6 * WEIGHT_MAX) by (nonlinear_arith)
                requires
                    d <= 6,
                    cfg.pedal_distance_cost <= WEIGHT_MAX,
            ;
            out = out + cfg.pedal_distance_cost * d;
        }
        if n.time == 0 {
            out = out + cfg.pedal_cost;
        }
    }
    out
}

/// The quick-repeat surcharge: moving to a different note while the foot's
/// memory is still hot costs whatever of the surcharge has not yet decayed.
pub open spec fn spec_quick_change_cost(
    old: Option<Change>,
    new: Option<Change>,
    cfg: Config,
) -> int {
    match (old, new) {
        (Some(o), Some(n)) => if o.note != n.note {
            spec_decayed_cost(cfg.quick_change_cost, cfg.quick_change_decay, o.time)
        } else {
            0
        },
        _ => 0,
    }
}

pub fn quick_change_cost(old: Option<Change>, new: Option<Change>, cfg: &Config) -> (r: u64)
    requires
        cfg.wf(),
    ensures
        r == spec_quick_change_cost(old, new, *cfg),
        r <= cfg.quick_change_cost,
{
    if let Some(o) = old {
        if let Some(n) = new {
            if o.note != n.note {
                assert((cfg.quick_change_decay as u128) * (o.time as u128) < u128::MAX)
                    by (nonlinear_arith)
                    requires
                        cfg.quick_change_decay <= u64::MAX,
                        o.time <= u64::MAX,
                ;
                let decay = (cfg.quick_change_decay as u128) * (o.time as u128);
                if decay >= cfg.quick_change_cost as u128 {
                    return 0;
                } else {
                    return (cfg.quick_change_cost as u128 - decay) as u64;
                }
            }
        }
    }
    0
}

/// How many markers of a sequence are set.
pub open spec fn spec_early_count(e: Seq<bool>) -> nat
    decreases e.len(),
{
    if e.len() == 0 {
        0
    } else if e.last() {
        spec_early_count(e.drop_last()) + 1
    } else {
        spec_early_count(e.drop_last())
    }
}

/// The standing early-change penalty: one `early_change_cost` for every
/// pedal currently marked as changed ahead of need.
pub open spec fn spec_early_change_cost(state: AstarState, cfg: Config) -> int {
    cfg.early_change_cost * spec_early_count(state.early@)
}

pub fn early_change_cost(state: &AstarState, cfg: &Config) -> (r: u64)
    requires
        cfg.wf(),
    ensures
        r == spec_early_change_cost(*state, *cfg),
        r <= 7 * WEIGHT_MAX,
{
    let mut count: u64 = 0;
    for i in 0..7usize
        invariant
            state.early@.len() == 7,
            count == spec_early_count(state.early@.subrange(0, i as int)),
            count <= i,
    {
        proof {
            let pre = state.early@.subrange(0, i + 1);
            assert(pre.drop_last() =~= state.early@.subrange(0, i as int));
            assert(pre.last() == state.early@[i as int]);
        }
        if state.early[i] {
            count = count + 1;
        }
    }
    proof {
        assert(state.early@.subrange(0, 7) =~= state.early@);
    }
    assert(cfg.early_change_cost * count <= 7 * WEIGHT_MAX) by (nonlinear_arith)
        requires
            count <= 7,
            cfg.early_change_cost <= WEIGHT_MAX,
    ;
    cfg.early_change_cost * count
}

/// A harp range holds no more notes than slots.
pub proof fn lemma_harp_notes_len(h: Seq<u8>, lo: int, hi: int)
    ensures
        spec_harp_notes(h, lo, hi).len() <= if hi >= lo {
            hi - lo
        } else {
            0
        },
    decreases hi - lo,
{
    if lo < hi {
        lemma_harp_notes_len(h, lo, hi - 1);
    }
}

pub proof fn lemma_dup_count_le_len(s: Seq<u8>)
    ensures
        spec_dup_count(s) <= s.len(),
    decreases s.len(),
{
    if s.len() > 0 {
        lemma_dup_count_le_len(s.drop_last());
    }
}

/// A seven-string harp can double at most seven strings.
pub proof fn lemma_num_same_le(h: Seq<u8>)
    ensures
        spec_num_same(h) <= 7,
{
    lemma_harp_notes_len(h, 0, 7);
    lemma_dup_count_le_len(spec_harp_notes(h, 0, 7).map_values(|n: Note| crate::pitch_class::spec_note_to_pc(n)));
}

/// No slot range holds more changes than slots.
pub proof fn lemma_num_changes_le(a: Seq<u8>, b: Seq<u8>, lo: int, hi: int)
    ensures
        spec_num_changes(a, b, lo, hi) <= if hi >= lo {
            hi - lo
        } else {
            0
        },
    decreases hi - lo,
{
    if lo < hi {
        lemma_num_changes_le(a, b, lo, hi - 1);
    }
}

/// The exact cost of one transition: per foot, the flat and distance cost
/// of its move and any quick-repeat surcharge; plus the doubled-string,
/// crossed-string, and standing early-change penalties of the new state.
pub open spec fn spec_astar_cost(state: AstarState, target: AstarState, cfg: Config) -> int {
    spec_pedal_cost(state.last_left, target.last_left, cfg) + spec_pedal_cost(
        state.last_right,
        target.last_right,
        cfg,
    ) + spec_num_same(target.pedals@) * cfg.double_string_cost + spec_num_crossed(target.pedals@)
        * cfg.cross_string_cost + spec_quick_change_cost(state.last_left, target.last_left, cfg)
        + spec_quick_change_cost(state.last_right, target.last_right, cfg)
        + spec_early_change_cost(target, cfg)
}

/// Every single-transition cost fits far below `u64::MAX`.
pub proof fn lemma_astar_cost_bound(state: AstarState, target: AstarState, cfg: Config)
    requires
        cfg.wf(),
    ensures
        0 <= spec_astar_cost(state, target, cfg) <= 32 * WEIGHT_MAX,
{
    lemma_num_same_le(target.pedals@);
    lemma_early_count_le(target.early@);
    assert(spec_num_same(target.pedals@) * cfg.double_string_cost <= 7 * WEIGHT_MAX)
        by (nonlinear_arith)
        requires
            spec_num_same(target.pedals@) <= 7,
            cfg.double_string_cost <= WEIGHT_MAX,
    ;
    assert(spec_num_crossed(target.pedals@) * cfg.cross_string_cost <= 2 * WEIGHT_MAX)
        by (nonlinear_arith)
        requires
            spec_num_crossed(target.pedals@) <= 2,
            cfg.cross_string_cost <= WEIGHT_MAX,
    ;
    lemma_pedal_cost_bound(state.last_left, target.last_left, cfg);
    lemma_pedal_cost_bound(state.last_right, target.last_right, cfg);
    assert(cfg.early_change_cost * spec_early_count(target.early@) <= 7 * WEIGHT_MAX)
        by (nonlinear_arith)
        requires
            spec_early_count(target.early@) <= 7,
            cfg.early_change_cost <= WEIGHT_MAX,
    ;
}

proof fn lemma_early_count_le(e: Seq<bool>)
    ensures
        spec_early_count(e) <= e.len(),
    decreases e.len(),
{
    if e.len() > 0 {
        lemma_early_count_le(e.drop_last());
    }
}

proof fn lemma_pedal_cost_bound(old: Option<Change>, new: Option<Change>, cfg: Config)
    requires
        cfg.wf(),
    ensures
        0 <= spec_pedal_cost(old, new, cfg) <= 7 * WEIGHT_MAX,
{
    match (old, new) {
        (Some(o), Some(n)) => {
            assert(cfg.pedal_distance_cost * spec_pedal_diff(o.note, n.note) <= 6 * WEIGHT_MAX)
                by (nonlinear_arith)
                requires
                    0 <= spec_pedal_diff(o.note, n.note) <= 6,
                    cfg.pedal_distance_cost <= WEIGHT_MAX,
            ;
        },
        _ => {},
    }
}

/// Computes the exact cost of one transition between search vertices.
pub fn astar_cost(state: &AstarState, target: &AstarState, cfg: &Config) -> (r: u64)
    requires
        cfg.wf(),
        harp_wf(target.pedals@),
    ensures
        r == spec_astar_cost(*state, *target, *cfg),
        r <= 32 * WEIGHT_MAX,
{
    proof {
        lemma_astar_cost_bound(*state, *target, *cfg);
        lemma_num_same_le(target.pedals@);
    }
    let mut out: u64 = 0;
    out = out + pedal_cost(state.last_left, target.last_left, cfg);
    out = out + pedal_cost(state.last_right, target.last_right, cfg);
    let ns = num_same(target.pedals) as u64;
    assert(ns * cfg.double_string_cost <= 7 * WEIGHT_MAX) by (nonlinear_arith)
        requires
            ns <= 7,
            cfg.double_string_cost <= WEIGHT_MAX,
    ;
    out = out + ns * cfg.double_string_cost;
    let ncr = num_crossed(target.pedals) as u64;
    assert(ncr * cfg.cross_string_cost <= 2 * WEIGHT_MAX) by (nonlinear_arith)
        requires
            ncr <= 2,
            cfg.cross_string_cost <= WEIGHT_MAX,
    ;
    out = out + ncr * cfg.cross_string_cost;
    out = out + quick_change_cost(state.last_left, target.last_left, cfg);
    out = out + quick_change_cost(state.last_right, target.last_right, cfg);
    out = out + early_change_cost(target, cfg);
    out
}

/// The lower bound the search steers by: the flat cost of the changes the
/// target still demands, plus the target's doubled- and crossed-string
/// penalties. Decay, distance, and anticipation effects only add cost, so
/// this never overestimates.
pub open spec fn spec_astar_heuristic(state: AstarState, target: Harp, cfg: Config) -> int {
    cfg.pedal_cost * spec_num_changes(state.pedals@, target@, 0, 7) + cfg.double_string_cost
        * spec_num_same(target@) + cfg.cross_string_cost * spec_num_crossed(target@)
}

pub fn astar_heuristic(state: &AstarState, target: Harp, cfg: &Config) -> (r: u64)
    requires
        cfg.wf(),
        harp_wf(target@),
    ensures
        r == spec_astar_heuristic(*state, target, *cfg),
        r <= 16 * WEIGHT_MAX,
{
    proof {
        lemma_num_changes_le(state.pedals@, target@, 0, 7);
        lemma_num_same_le(target@);
    }
    let nc = num_changes(state.pedals, target, 0, 7) as u64;
    assert(cfg.pedal_cost * nc <= 7 * WEIGHT_MAX) by (nonlinear_arith)
        requires
            nc <= 7,
            cfg.pedal_cost <= WEIGHT_MAX,
    ;
    let ns = num_same(target) as u64;
    assert(cfg.double_string_cost * ns <= 7 * WEIGHT_MAX) by (nonlinear_arith)
        requires
            ns <= 7,
            cfg.double_string_cost <= WEIGHT_MAX,
    ;
    let ncr = num_crossed(target) as u64;
    assert(cfg.cross_string_cost * ncr <= 2 * WEIGHT_MAX) by (nonlinear_arith)
        requires
            ncr <= 2,
            cfg.cross_string_cost <= WEIGHT_MAX,
    ;
    cfg.pedal_cost * nc + cfg.double_string_cost * ns + cfg.cross_string_cost * ncr
}

/// The part of the heuristic that varies along a path: the flat cost of the
/// outstanding changes. The doubled- and crossed-string terms of the full
/// heuristic are the same for every vertex, so dropping them steers the
/// search identically while staying below the cost of every remaining path.
pub open spec fn spec_search_heuristic(state: AstarState, target: Harp, cfg: Config) -> int {
    cfg.pedal_cost * spec_num_changes(state.pedals@, target@, 0, 7)
}

pub fn search_heuristic(state: &AstarState, target: Harp, cfg: &Config) -> (r: u64)
    requires
        cfg.wf(),
    ensures
        r == spec_search_heuristic(*state, target, *cfg),
        r <= 7 * WEIGHT_MAX,
{
    proof {
        lemma_num_changes_le(state.pedals@, target@, 0, 7);
    }
    let nc = num_changes(state.pedals, target, 0, 7) as u64;
    assert(cfg.pedal_cost * nc <= 7 * WEIGHT_MAX) by (nonlinear_arith)
        requires
            nc <= 7,
            cfg.pedal_cost <= WEIGHT_MAX,
    ;
    cfg.pedal_cost * nc
}

/// An idle foot's surcharge is gone after exactly
/// `ceil(quick_change_cost / quick_change_decay)` idle beats, not before.
pub proof fn lemma_decay_expiry(qcc: u64, qcd: u64, time: u64)
    requires
        qcd > 0,
    ensures
        spec_decayed_cost(qcc, qcd, time) == 0 <==> time >= (qcc + qcd - 1) / (qcd as int),
{
    let c = (qcc + qcd - 1) / (qcd as int);
    vstd::arithmetic::div_mod::lemma_fundamental_div_mod(qcc + qcd - 1, qcd as int);
    let r = (qcc + qcd - 1) % (qcd as int);
    assert(qcc + qcd - 1 == qcd * c + r);
    assert(0 <= r < qcd) by {
        vstd::arithmetic::div_mod::lemma_mod_bound(qcc + qcd - 1, qcd as int);
    }
    assert(qcd * c >= qcc);
    assert(qcd * (c - 1) < qcc) by (nonlinear_arith)
        requires
            qcd * c + r == qcc + qcd - 1,
            r >= 0,
            qcd > 0,
    ;
    if time >= c {
        assert(qcd * time >= qcd * c) by (nonlinear_arith)
            requires
                time >= c,
                qcd > 0,
        ;
    } else {
        assert(qcd * time <= qcd * (c - 1)) by (nonlinear_arith)
            requires
                time <= c - 1,
                qcd > 0,
        ;
    }
}

} // verus!
