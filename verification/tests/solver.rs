use harp_pedal_solver::assign::{assign, can_assign};
use harp_pedal_solver::astar::{find_solutions, AstarState, Change};
use harp_pedal_solver::candidate::{find_candidates, unzip_pedals, CandidateBuilder, MusicInput};
use harp_pedal_solver::cost::{
    astar_cost, astar_heuristic, early_change_cost, pedal_cost, quick_change_cost, Config,
};
use harp_pedal_solver::harp::{
    full_initial, harp_to_notes, is_change, notes_to_harp, num_changes, num_crossed, num_same,
    pedal_diagram, unset_seen, update_harp, update_harps,
};
use harp_pedal_solver::note::{read_note, Accidental, Name, Note};
use harp_pedal_solver::pitch_class::{note_to_pc, pc_to_note, pc_to_notes};
use harp_pedal_solver::shift::{change_builder, num_shifts, shift, shift_pedals};
use harp_pedal_solver::solve::get_spellings;

fn test_config() -> Config {
    Config {
        pedal_cost: 1000,
        double_string_cost: 100,
        cross_string_cost: 1200,
        early_change_cost: 300,
        forget_after: 4,
        quick_change_cost: 30,
        quick_change_decay: 10,
        pedal_distance_cost: 1,
    }
}

fn flat_config() -> Config {
    Config {
        pedal_cost: 1,
        double_string_cost: 0,
        cross_string_cost: 0,
        early_change_cost: 0,
        forget_after: 4,
        quick_change_cost: 0,
        quick_change_decay: 0,
        pedal_distance_cost: 0,
    }
}

fn notes(names: &[&str]) -> Vec<Note> {
    names.iter().map(|s| read_note(s)).collect()
}

#[test]
fn can_assign_empty() {
    assert!(can_assign(&[]));
}

#[test]
fn can_assign_nonempty() {
    assert!(can_assign(&[0, 3, 5, 7, 9]));
}

#[test]
fn cant_assign() {
    assert!(!can_assign(&[11, 0, 1]));
}

#[test]
fn correct_num_assignations() {
    assert_eq!(10, assign(&[], &[0, 3, 5, 7, 9]).len());
}

#[test]
fn chain_pushes_correctly() {
    let music: Vec<Vec<Note>> = vec![notes(&["F", "G"]), notes(&["A"]), notes(&["Gb"])];
    let pedals: Vec<Vec<Note>> = vec![notes(&["F", "G"]), notes(&["A"]), vec![]];
    let input: Vec<(Vec<Note>, Vec<Note>)> = music.into_iter().zip(pedals).collect();
    let shifted = change_builder(&input, Vec::new());
    assert_eq!(3, shifted.len());
}

#[test]
fn abandon_when_too_many() {
    let music: Vec<Vec<Note>> = vec![notes(&["F", "G"]), notes(&["A"]), notes(&["Gb"])];
    let pedals: Vec<Vec<Note>> = vec![notes(&["F", "G"]), notes(&["A"]), notes(&["C"])];
    let input: Vec<(Vec<Note>, Vec<Note>)> = music.into_iter().zip(pedals).collect();
    let shifted = change_builder(&input, Vec::new());
    assert_eq!(0, shifted.len());
}

#[test]
fn abandon_when_impossible() {
    let music: Vec<Vec<Note>> = vec![notes(&["F", "G"]), notes(&["F#", "G#"]), notes(&["Gb"])];
    let pedals: Vec<Vec<Note>> = vec![notes(&["F", "G"]), vec![], vec![]];
    let input: Vec<(Vec<Note>, Vec<Note>)> = music.into_iter().zip(pedals).collect();
    let shifted = change_builder(&input, Vec::new());
    assert_eq!(0, shifted.len());
}

#[test]
fn can_have_none() {
    let music: Vec<Vec<Note>> = vec![notes(&["F", "G"]), notes(&["F#", "G#"]), notes(&["Gb"])];
    let pedals: Vec<Vec<Note>> = vec![vec![], notes(&["A"]), notes(&["F"])];
    let input: Vec<(Vec<Note>, Vec<Note>)> = music.into_iter().zip(pedals).collect();
    let shifted = change_builder(&input, Vec::new());
    assert!(shifted[0][2].is_none());
}

#[test]
fn three_pitch_chord_spellings() {
    // G-sharp/A-flat, C-flat/B, D-sharp/E-flat: no shared names, so every
    // combination of the two spellings of each pitch class survives
    assert_eq!(8, assign(&[], &[0, 3, 7]).len());
}

#[test]
fn preset_pins_its_pedal() {
    // with G already claimed by a fixed note, pitch class 0 only has A-flat
    let preset = notes(&["G#"]);
    let candidates = assign(&preset, &[0]);
    assert_eq!(1, candidates.len());
}

#[test]
fn pitch_classes_of_notes() {
    assert_eq!(0, note_to_pc(read_note("Ab")));
    assert_eq!(0, note_to_pc(read_note("G#")));
    assert_eq!(1, note_to_pc(read_note("A")));
    assert_eq!(4, note_to_pc(read_note("C")));
    assert_eq!(7, note_to_pc(read_note("Eb")));
}

#[test]
fn spellings_of_pitch_classes() {
    let two = pc_to_notes(0);
    assert_eq!(2, two.len());
    assert_eq!(read_note("Gs"), two[0]);
    assert_eq!(read_note("Af"), two[1]);
    let one = pc_to_notes(6);
    assert_eq!(1, one.len());
    assert_eq!(read_note("Dn"), one[0]);
    // natural if possible, flat otherwise
    assert_eq!(read_note("Cn"), pc_to_note(4));
    assert_eq!(read_note("Af"), pc_to_note(0));
}

#[test]
fn update_overlay_wins() {
    let base = notes_to_harp(&notes(&["Db", "Cb"]));
    let over = notes_to_harp(&notes(&["C#"]));
    let merged = update_harp(base, over);
    assert_eq!(merged[0], 1); // D kept from base
    assert_eq!(merged[1], 3); // C taken from overlay
}

#[test]
fn update_associates() {
    let h = notes_to_harp(&notes(&["Db"]));
    let a = notes_to_harp(&notes(&["Cb", "En"]));
    let b = notes_to_harp(&notes(&["C#"]));
    let left = update_harp(update_harp(h, a), b);
    let right = update_harp(h, update_harp(a, b));
    assert_eq!(left, right);
}

#[test]
fn crossed_strings_count_independently() {
    let cb_bs = notes_to_harp(&notes(&["Cb", "B#"]));
    assert_eq!(1, num_crossed(cb_bs));
    let es_ff = notes_to_harp(&notes(&["E#", "Ff"]));
    assert_eq!(1, num_crossed(es_ff));
    let both = update_harp(cb_bs, es_ff);
    assert_eq!(2, num_crossed(both));
}

#[test]
fn doubled_strings_counted() {
    // C-flat sounds the same pitch class as B natural
    let h = notes_to_harp(&notes(&["Cb", "Bn"]));
    assert_eq!(1, num_same(h));
    let distinct = notes_to_harp(&notes(&["Cn", "Bn"]));
    assert_eq!(0, num_same(distinct));
}

#[test]
fn diagram_renders_all_slots() {
    let h = notes_to_harp(&notes(&["Df", "Cn", "B#", "Af"]));
    assert_eq!("^-v|~~~^", pedal_diagram(h).as_str());
}

#[test]
fn full_initial_defaults_to_flat() {
    let beats = vec![notes_to_harp(&notes(&["Cn"])), notes_to_harp(&notes(&["C#", "Dn"]))];
    let init = full_initial(&beats);
    // C takes its first setting, D its first, everything else flat
    assert_eq!(init, notes_to_harp(&notes(&["Dn", "Cn", "Bf", "Ef", "Ff", "Gf", "Af"])));
}

#[test]
fn unset_seen_keeps_only_new() {
    let beats = vec![notes_to_harp(&notes(&["Cn"])), notes_to_harp(&notes(&["C#", "Dn"]))];
    let out = unset_seen(&beats);
    assert_eq!(2, out.len());
    // D already stands in the implied initial diagram, so only the C move
    // to sharp is genuinely new on the second beat
    assert_eq!(out[1], notes_to_harp(&notes(&["C#"])));
}

#[test]
fn is_change_needs_standing_difference() {
    let h = notes_to_harp(&notes(&["Cn"]));
    assert!(is_change(h, read_note("C#")));
    assert!(!is_change(h, read_note("Cn")));
    assert!(!is_change(h, read_note("D#"))); // D unset: no change needed
}

#[test]
fn num_changes_counts_set_disagreements() {
    let a = notes_to_harp(&notes(&["Cn", "Dn"]));
    let b = notes_to_harp(&notes(&["C#", "Dn", "En"]));
    assert_eq!(1, num_changes(a, b, 0, 7));
}

#[test]
fn decay_expires_after_ceiling() {
    let cfg = test_config();
    // quick_change_cost 30 decaying by 10 is gone after exactly 3 idle
    // beats, not before
    let old2 = Some(Change { note: read_note("Cn"), time: 2 });
    let old3 = Some(Change { note: read_note("Cn"), time: 3 });
    let new = Some(Change { note: read_note("Dn"), time: 0 });
    assert_eq!(10, quick_change_cost(old2, new, &cfg));
    assert_eq!(0, quick_change_cost(old3, new, &cfg));
}

#[test]
fn pedal_cost_charges_fresh_moves() {
    let cfg = test_config();
    let old = Some(Change { note: read_note("Dn"), time: 1 });
    let fresh = Some(Change { note: read_note("An"), time: 0 });
    // flat cost plus distance from D (slot 0) to A (slot 6)
    assert_eq!(1006, pedal_cost(old, fresh, &cfg));
    assert_eq!(0, pedal_cost(old, None, &cfg));
}

#[test]
fn early_markers_are_charged_each() {
    let cfg = test_config();
    let mut s = AstarState::new([1; 7]);
    s.set_early(Name::C);
    s.set_early(Name::A);
    assert_eq!(600, early_change_cost(&s, &cfg));
}

#[test]
fn heuristic_bounds_exact_cost() {
    let cfg = test_config();
    let from = AstarState::new(notes_to_harp(&notes(&["Dn", "Cn", "Bn", "En", "Fn", "Gn", "An"])));
    let mut to = from;
    to.advance(Some(read_note("C#")), None, [0; 7], cfg.forget_after);
    assert!(astar_heuristic(&from, to.pedals, &cfg) <= astar_cost(&from, &to, &cfg));
}

#[test]
fn tied_spellings_all_returned() {
    // one beat asking for pitch class 9 (E-sharp or F-natural) from an
    // all-flat harp: both spellings cost one change there and one change
    // back, so the bag must hold both
    let cfg = flat_config();
    let input = MusicInput {
        diagram: [1; 7],
        music: vec![(vec![], vec![9])],
        goal: [1; 7],
    };
    let cands = find_candidates(&input, &cfg).unwrap();
    assert_eq!(2, cands.len());
    assert_eq!(2, cands[0].cost);
    assert_eq!(2, cands[1].cost);
    assert_ne!(cands[0].spelling, cands[1].spelling);
}

#[test]
fn unsatisfiable_beat_reported() {
    let cfg = test_config();
    let input = MusicInput {
        diagram: [1; 7],
        music: vec![(vec![], vec![6]), (vec![], vec![11, 0, 1])],
        goal: [1; 7],
    };
    let err = find_candidates(&input, &cfg).unwrap_err();
    assert_eq!(vec![1usize], err);
}

#[test]
fn end_to_end_candidate_shape() {
    let cfg = test_config();
    // an open goal: settling back to all-flat would demand two left-foot
    // changes on the final beat, which no schedule can make
    let input = MusicInput {
        diagram: [1; 7],
        music: vec![(vec![], vec![4]), (notes(&["Dn"]), vec![])],
        goal: [0; 7],
    };
    let cands = find_candidates(&input, &cfg).unwrap();
    assert!(!cands.is_empty());
    for c in &cands {
        assert_eq!(2, c.spelling.len());
        assert_eq!(3, c.pedals.len());
        // the starting diagram is fully resolved
        assert!(c.diagram.iter().all(|&v| v != 0));
        assert!(c.destination.iter().all(|&v| v != 0));
    }
}

#[test]
fn single_note_schedule_cost() {
    let cfg = test_config();
    let input = MusicInput { diagram: [1; 7], music: vec![(vec![], vec![6])], goal: [1; 7] };
    let (sp, cost) = get_spellings(&input, &cfg).unwrap();
    // D natural costs one change from all-flat and one back; settling back
    // moves the same pedal to a different note while its memory is still
    // hot, so the full quick-change surcharge is added once
    assert!(!sp.is_empty());
    assert_eq!(2 * cfg.pedal_cost + cfg.quick_change_cost, cost);
}

#[test]
fn preset_beat_schedules() {
    let cfg = test_config();
    let input = MusicInput {
        diagram: [1; 7],
        music: vec![(vec![], vec![4]), (notes(&["Dn"]), vec![])],
        goal: [0; 7],
    };
    let (sp, _cost) = get_spellings(&input, &cfg).unwrap();
    assert!(!sp.is_empty());
}

#[test]
fn two_spellings_both_searchable() {
    let cfg = test_config();
    let bs = notes_to_harp(&notes(&["B#"]));
    let cn = notes_to_harp(&notes(&["Cn"]));
    let mid = vec![vec![bs, cn]];
    assert!(find_solutions([1; 7], &mid, [0; 7], &cfg).is_some());
}

#[test]
fn settle_alone_is_playable() {
    let cfg = test_config();
    let mid: Vec<Vec<harp_pedal_solver::harp::Harp>> = vec![];
    assert!(find_solutions([1; 7], &mid, [0; 7], &cfg).is_some());
}

#[test]
fn open_goal_single_beat() {
    let cfg = test_config();
    let cn = notes_to_harp(&notes(&["Cn"]));
    let mid = vec![vec![cn]];
    assert!(find_solutions([1; 7], &mid, [0; 7], &cfg).is_some());
}

#[test]
fn open_goal_two_beats() {
    let cfg = test_config();
    let cn = notes_to_harp(&notes(&["Cn"]));
    let dn = notes_to_harp(&notes(&["Dn"]));
    let mid = vec![vec![cn], vec![dn]];
    assert!(find_solutions([1; 7], &mid, [0; 7], &cfg).is_some());
}

#[test]
fn find_solutions_none_when_unplayable() {
    let cfg = test_config();
    // both C and B must change on the same (left-foot) beat: dead end
    let target = notes_to_harp(&notes(&["C#", "B#"]));
    let mid = vec![vec![target]];
    let start = notes_to_harp(&notes(&["Dn", "Cn", "Bn", "En", "Fn", "Gn", "An"]));
    let goal = target;
    assert!(find_solutions(start, &mid, goal, &cfg).is_none());
}

#[test]
fn builder_requires_every_field() {
    let mut b = CandidateBuilder::new();
    b.set_diagram([1; 7]);
    b.set_destination([1; 7]);
    b.set_spelling(vec![]);
    b.set_pedals(vec![]);
    assert!(b.clone().try_init().is_none());
    b.set_cost(0);
    assert!(b.try_init().is_some());
}

#[test]
fn unzip_splits_by_foot() {
    let pedals = vec![notes(&["Cn", "An"]), notes(&["Fn"])];
    let (l, r) = unzip_pedals(&pedals);
    assert_eq!(vec![notes(&["Cn"]), vec![]], l);
    assert_eq!(vec![notes(&["An"]), notes(&["Fn"])], r);
}

#[test]
fn shift_keeps_beat_order() {
    let music = vec![notes(&["F", "G"]), notes(&["A"]), notes(&["Gb"])];
    let changes = vec![notes(&["F"]), vec![], vec![]];
    let shifted = shift(&music, &changes);
    assert!(!shifted.is_empty());
    for s in &shifted {
        assert_eq!(3, s.len());
        // F must land on some beat compatible with the music there
        assert_eq!(1, s.iter().filter(|c| c.is_some()).count());
    }
}

#[test]
fn num_shifts_counts_beats_needed() {
    let pedals = vec![notes(&["F", "G"]), vec![], vec![]];
    assert_eq!(2, num_shifts(&pedals));
    let too_many = vec![vec![], vec![], notes(&["F", "G"])];
    assert_eq!(usize::MAX, num_shifts(&too_many));
}

#[test]
fn harp_round_trip_through_notes() {
    let h = notes_to_harp(&notes(&["Dn", "C#", "Bb"]));
    let back = notes_to_harp(&harp_to_notes(h));
    assert_eq!(h, back);
}

#[test]
fn update_harps_folds_in_order() {
    let first = notes_to_harp(&notes(&["Cn"]));
    let second = notes_to_harp(&notes(&["C#"]));
    let folded = update_harps([0; 7], &vec![first, second]);
    assert_eq!(folded[1], 3);
}

#[test]
fn accidentals_render() {
    assert_eq!(
        Note { name: Name::G, accidental: Accidental::Sharp },
        read_note("Gs")
    );
    assert_eq!(
        Note { name: Name::A, accidental: Accidental::Natural },
        read_note("A")
    );
    assert_eq!(
        Note { name: Name::G, accidental: Accidental::Flat },
        read_note("G\u{266d}")
    );
    assert_eq!(
        Note { name: Name::B, accidental: Accidental::Natural },
        read_note("B\u{266e}")
    );
    assert_eq!(
        Note { name: Name::C, accidental: Accidental::Sharp },
        read_note("C\u{266f}")
    );
}

#[test]
fn shift_pedals_pairs_both_feet() {
    let music = vec![
        notes_to_harp(&notes(&["Cn", "Dn", "Fn", "Gn"])),
        notes_to_harp(&notes(&["Cn", "Dn", "Fn", "Gn"])),
    ];
    // each foot owes two changes by the second beat and can make only one
    // per beat, so each foot's pair spreads over both beats in either order
    let pedals = vec![
        (vec![], vec![]),
        (notes(&["Cn", "Dn"]), notes(&["Fn", "Gn"])),
    ];
    let combos = shift_pedals(&music, pedals);
    assert_eq!(4, combos.len());
    for c in &combos {
        assert_eq!(2, c.len());
        let total: usize = c.iter().map(|beat| beat.len()).sum();
        assert_eq!(4, total);
        assert_eq!(2, c[0].len());
        assert_eq!(2, c[1].len());
    }
}
