use elide::constants::{
    EDGE_MARGIN_US, ENERGY_US, GATE_DB, GRID_US, MAX_SHRINK_US, MIN_DEAD_US,
};
use elide::dead_air::{
    bridge_dead, count_speedups, dead_runs, long_runs, plan_runs, speedup_starts, trim_edges,
    EDGE_MARGIN_FRAMES, MAX_SHRINK_FRAMES, MIN_DEAD_FRAMES, MIN_DEAD_SLICES,
};
use elide::plan::{
    build_plan, build_segments, decide, map_to_output, map_to_source, merge_adjacent, Action,
    DeadAir, Pacing, Plan, Segment, Speed,
};
use elide::vad::longest_silences;

const QUIET: i64 = -80_000_000;
const LOUD: i64 = -20_000_000;

fn pacing() -> Pacing {
    Pacing {
        dead_air: DeadAir::Speed,
        max_speed: 20_000_000,
        pause_floor_us: 1_000_000,
    }
}

fn seg(src_start: i64, src_end: i64, num: i64, den: i64) -> Segment {
    Segment {
        src_start,
        src_end,
        speed: Speed { num, den },
    }
}

fn spans(segs: &[Segment]) -> Vec<(i64, i64, bool)> {
    segs.iter()
        .map(|s| (s.src_start, s.src_end, s.speed.normal_speed()))
        .collect()
}

fn simple_plan() -> Plan {
    // 2 s as recorded, 8 s at four times, 3 s as recorded
    let segs = vec![
        seg(0, 2_000_000, 1, 1),
        seg(2_000_000, 10_000_000, 4, 1),
        seg(12_000_000, 15_000_000, 1, 1),
    ];
    build_plan(&segs, 15_000_000, 750, "1:1:0:0".to_string()).unwrap()
}

#[test]
fn frame_counts_follow_the_guards() {
    assert_eq!(MAX_SHRINK_FRAMES as i64 * ENERGY_US, MAX_SHRINK_US);
    assert_eq!(EDGE_MARGIN_FRAMES as i64 * ENERGY_US, EDGE_MARGIN_US);
    assert_eq!(MIN_DEAD_FRAMES as i64 * ENERGY_US, MIN_DEAD_US);
    assert_eq!(MIN_DEAD_SLICES as i64 * GRID_US, MIN_DEAD_US);
}

// ---- dead runs --------------------------------------------------------------

#[test]
fn dead_means_silent_and_still() {
    let speech = vec![true, false, false, true, false, false, false];
    let frozen = vec![true, true, true, true, false, true, true];
    assert_eq!(dead_runs(&speech, &frozen), vec![(1, 3), (5, 7)]);
    assert!(dead_runs(&Vec::new(), &Vec::new()).is_empty());
}

#[test]
fn a_bridge_never_covers_speech() {
    let mut speech = vec![false; 40];
    speech[15] = true;
    let runs = vec![(0, 10), (20, 40)];
    // the gap of 10 slices is 0.2 s
    assert_eq!(bridge_dead(&runs, &speech, 2_000_000), vec![(0, 15), (16, 40)]);
    assert_eq!(bridge_dead(&runs, &speech, 200_000), runs);
    assert!(bridge_dead(&Vec::new(), &speech, 2_000_000).is_empty());
}

#[test]
fn long_runs_keeps_the_minimum() {
    assert_eq!(long_runs(&vec![(0, 49), (60, 110)], 50), vec![(60, 110)]);
}

#[test]
fn edges_back_off_from_loud_frames() {
    let mut energy = vec![QUIET; 2000];
    energy[110] = LOUD; // inside the run's first 300 frames
    energy[890] = LOUD; // inside its last 300
    // the run is frames 100..900
    assert_eq!(
        trim_edges(&vec![(50, 450)], &energy, GATE_DB),
        vec![((110 + 15) / 2, (890 - 15) / 2)]
    );
}

#[test]
fn the_edge_guard_never_deletes_a_run() {
    // loud throughout, and only just long enough
    let energy = vec![LOUD; 400];
    let out = trim_edges(&vec![(50, 100)], &energy, GATE_DB);
    assert_eq!(out, vec![(50, 100)]);
    let out = trim_edges(&vec![(50, 150)], &energy, GATE_DB);
    assert_eq!(out[0].1 - out[0].0, 50);
}

#[test]
fn sped_up_sections_are_named_by_their_start() {
    let n = 1000;
    let mut speech = vec![false; n];
    for s in speech.iter_mut().take(400).skip(300) {
        *s = true;
    }
    let frozen = vec![true; n];
    let energy = vec![QUIET; 2 * n];
    // 0..6 s and 8..20 s
    assert_eq!(speedup_starts(&speech, &frozen, &energy), vec![0, 8]);
    assert_eq!(count_speedups(&speech, &frozen, &energy), 2);
}

#[test]
fn planned_runs_hold_no_speech() {
    let n = 1000;
    let mut speech = vec![false; n];
    for s in speech.iter_mut().take(420).skip(400) {
        *s = true;
    }
    let frozen = vec![true; n];
    let mut energy = vec![QUIET; 2 * n];
    energy[850] = LOUD;
    let runs = plan_runs(&speech, &frozen, &energy, 1_000_000);
    assert_eq!(runs, vec![(0, 400), ((850 + 15) / 2, 1000)]);
    assert!(runs.iter().all(|&(a, b)| (a..b).all(|i| !speech[i])));
}

#[test]
fn a_short_loud_run_stays_where_it_is() {
    let n = 400;
    let mut speech = vec![true; n];
    for i in (0..20).chain(100..115) {
        speech[i] = false;
    }
    let frozen = vec![true; n];
    let energy = vec![LOUD; 2 * n];
    let runs = plan_runs(&speech, &frozen, &energy, 300_000);
    assert_eq!(runs, vec![(0, 20), (100, 115)]);
    assert!(runs.iter().all(|&(a, b)| (a..b).all(|i| !speech[i])));
}

#[test]
fn what_is_left_of_a_run_is_quiet_at_both_ends() {
    let mut energy = vec![QUIET; 2000];
    for i in (100..200).chain(780..900) {
        energy[i] = LOUD;
    }
    let (a, b) = trim_edges(&vec![(50, 450)], &energy, GATE_DB)[0];
    assert_eq!((a, b), ((199 + 15) / 2, (780 - 15) / 2));
    assert!((2 * a..2 * b).all(|i| energy[i] <= GATE_DB));
}

#[test]
fn stillness_decides_how_much_of_the_silence_is_dead() {
    let speech = vec![true, false, false, true, false, true, false, false, false];
    let still = vec![true; speech.len()];
    let dead = dead_runs(&speech, &still);
    assert_eq!(dead, vec![(1, 3), (4, 5), (6, 9)]);
    let mut silences = longest_silences(&speech, usize::MAX);
    silences.sort();
    assert_eq!(dead, silences);
    assert!(dead_runs(&speech, &vec![false; speech.len()]).is_empty());
    let mut less = still.clone();
    less[7] = false;
    assert_eq!(dead_runs(&speech, &less), vec![(1, 3), (4, 5), (6, 7), (8, 9)]);
}

// ---- the planner ------------------------------------------------------------

#[test]
fn decisions_turn_at_the_floor_and_at_four_seconds() {
    assert!(matches!(decide(999_999, pacing()), Action::Keep));
    assert!(matches!(decide(1_000_000, pacing()), Action::Collapse { to_us: 500_000 }));
    assert!(matches!(decide(3_999_999, pacing()), Action::Collapse { .. }));
    // 12 s aims at 1.2 s: ten times
    match decide(12_000_000, pacing()) {
        Action::Speed { factor } => assert_eq!(factor.num, 10 * factor.den),
        _ => panic!("not sped up"),
    }
    // 4 s also aims at 1.2 s
    match decide(4_000_000, pacing()) {
        Action::Speed { factor } => assert_eq!(factor.num * 12, 40 * factor.den),
        _ => panic!("not sped up"),
    }
    // 600 s aims at 6 s, which the cap holds to twenty times
    match decide(600_000_000, pacing()) {
        Action::Speed { factor } => assert_eq!(factor.num, 20 * factor.den),
        _ => panic!("not sped up"),
    }
}

#[test]
fn cut_never_speeds_up_and_keep_touches_nothing() {
    let cut = Pacing {
        dead_air: DeadAir::Cut,
        ..pacing()
    };
    assert!(matches!(decide(60_000_000, cut), Action::Collapse { to_us: 500_000 }));
    let keep = Pacing {
        dead_air: DeadAir::Keep,
        ..pacing()
    };
    assert!(matches!(decide(60_000_000, keep), Action::Keep));
}

#[test]
fn segments_follow_the_runs() {
    // 20 s: a collapse at 2..4 s, a speed-up at 8..14 s, a run too short to touch
    let runs = vec![(100, 200), (250, 260), (400, 700)];
    let segs = build_segments(&runs, 1000, 20_010_000, pacing());
    assert_eq!(
        spans(&segs),
        vec![
            (0, 2_000_000, true),
            (2_000_000, 2_500_000, true),
            (4_000_000, 8_000_000, true),
            (8_000_000, 14_000_000, false),
            (14_000_000, 20_010_000, true),
        ]
    );
    let merged = merge_adjacent(segs);
    assert_eq!(
        spans(&merged),
        vec![
            (0, 2_500_000, true),
            (4_000_000, 8_000_000, true),
            (8_000_000, 14_000_000, false),
            (14_000_000, 20_010_000, true),
        ]
    );
}

#[test]
fn merging_wants_the_same_speed() {
    let segs = vec![seg(0, 1_000_000, 1, 1), seg(1_000_000, 2_000_000, 2, 1), seg(2_000_000, 3_000_000, 4, 2)];
    assert_eq!(
        spans(&merge_adjacent(segs)),
        vec![(0, 1_000_000, true), (1_000_000, 3_000_000, false)]
    );
}

#[test]
fn a_plan_lays_segments_end_to_end() {
    let p = simple_plan();
    assert_eq!(p.out_duration_us, 7_000_000);
    let outs: Vec<(i64, i64)> = p.segments.iter().map(|s| (s.out_start, s.out_end)).collect();
    assert_eq!(outs, vec![(0, 2_000_000), (2_000_000, 4_000_000), (4_000_000, 7_000_000)]);
    assert_eq!(p.crop, "1:1:0:0");
}

#[test]
fn a_backward_segment_makes_no_plan() {
    assert!(build_plan(&vec![seg(5, 4, 1, 1)], 10, 1, String::new()).is_none());
    assert!(build_plan(&vec![seg(0, 10, 1, 2)], 10, 1, String::new()).is_none());
    assert!(build_plan(&Vec::new(), 10, 1, String::new()).is_some());
}

#[test]
fn the_time_map_goes_both_ways() {
    let p = simple_plan();
    assert_eq!(map_to_source(&p, 1_000_000), Some(1_000_000));
    assert_eq!(map_to_source(&p, 3_000_000), Some(6_000_000));
    assert_eq!(map_to_source(&p, 4_500_000), Some(12_500_000));
    assert_eq!(map_to_source(&p, 7_000_000), None);
    assert_eq!(map_to_source(&p, -1), None);
    assert_eq!(map_to_output(&p, 6_000_000), 3_000_000);
    // removed material maps to the next kept moment
    assert_eq!(map_to_output(&p, 11_000_000), 4_000_000);
    assert_eq!(map_to_output(&p, 99_000_000), 7_000_000);
    for k in 0..70 {
        let t = k * 100_000;
        assert_eq!(map_to_output(&p, map_to_source(&p, t).unwrap()), t);
    }
}

#[test]
fn the_map_never_goes_back() {
    let p = simple_plan();
    let outs: Vec<i64> = (0..160).map(|k| map_to_output(&p, k * 100_000)).collect();
    assert!(outs.windows(2).all(|w| w[0] <= w[1]));
    let srcs: Vec<i64> = (0..70).map(|k| map_to_source(&p, k * 100_000).unwrap()).collect();
    assert!(srcs.windows(2).all(|w| w[0] <= w[1]));
}

#[test]
fn speech_plays_as_recorded() {
    let n = 1000;
    let mut speech = vec![false; n];
    for i in (480..520).chain(540..600) {
        speech[i] = true;
    }
    let frozen = vec![true; n];
    let mut energy = vec![QUIET; 2 * n];
    energy[1050] = LOUD;
    for floor in [300_000, 1_000_000, 1_500_000] {
        let runs = plan_runs(&speech, &frozen, &energy, floor);
        let p = Pacing {
            pause_floor_us: floor,
            ..pacing()
        };
        let segs = merge_adjacent(build_segments(&runs, n, 20_000_000, p));
        for i in (480..520i64).chain(540..600) {
            let t = i * GRID_US;
            assert!(segs
                .iter()
                .any(|s| s.speed.normal_speed() && s.src_start <= t && t < s.src_end));
        }
    }
}
