use cherry::course::{by_distance, classify_beat, course_survivors, min_gap_sweep, percentile_index, Kind};
use cherry::modes::{brick_band, find_mode, next_mode, start_mode, Category, ParamKind};

const G: Category = Category::Game;
const V: Category = Category::Visualizer;

#[test]
fn beats_become_obstacles() {
    assert_eq!(classify_beat(true, true, true), Kind::Pit);
    assert_eq!(classify_beat(false, true, true), Kind::Block);
    assert_eq!(classify_beat(false, false, true), Kind::Wave);
    assert_eq!(classify_beat(false, false, false), Kind::Loop);
}

#[test]
fn doubles_pair_up() {
    assert_eq!(Kind::Block.double(), Kind::Wave);
    assert_eq!(Kind::Wave.double(), Kind::Block);
    assert_eq!(Kind::Loop.double(), Kind::Pit);
    assert_eq!(Kind::Pit.double(), Kind::Loop);
    for k in [Kind::Block, Kind::Pit, Kind::Loop, Kind::Wave] {
        assert_ne!(k.double(), k);
        assert_eq!(k.double().double(), k);
    }
}

#[test]
fn percentiles_index_sorted_values() {
    assert_eq!(percentile_index(10, 50), 5);
    assert_eq!(percentile_index(10, 100), 9);
    assert_eq!(percentile_index(1, 80), 0);
    assert_eq!(percentile_index(7, 0), 0);
    assert_eq!(percentile_index(200, 85), 170);
}

#[test]
fn tab_walks_games_then_visualizers() {
    let cats = [V, G, V, G, V];
    // displayed order: 1, 3, 0, 2, 4
    assert_eq!(next_mode(&cats, 1), 3);
    assert_eq!(next_mode(&cats, 3), 0);
    assert_eq!(next_mode(&cats, 0), 2);
    assert_eq!(next_mode(&cats, 2), 4);
    assert_eq!(next_mode(&cats, 4), 1);
    // an unknown selection counts as the first shown
    assert_eq!(next_mode(&cats, 99), 3);
    assert_eq!(next_mode(&[V], 0), 0);
}

#[test]
fn tab_visits_every_mode_once_per_cycle() {
    let cats = [G, V, V, G, V, G, G];
    let mut seen = vec![false; cats.len()];
    let mut s = 0;
    for _ in 0..cats.len() {
        s = next_mode(&cats, s);
        assert!(!seen[s]);
        seen[s] = true;
    }
    assert_eq!(s, 0);
}

fn names() -> Vec<String> {
    ["Breakout", "Beat Surfer", "Spectrum", "Starfield"].iter().map(|s| s.to_string()).collect()
}

#[test]
fn modes_are_found_by_lower_case_tag() {
    let n = names();
    assert_eq!(find_mode(&n, "surf"), Some(1));
    assert_eq!(find_mode(&n, "star"), Some(3));
    assert_eq!(find_mode(&n, "s"), Some(1));
    assert_eq!(find_mode(&n, "Surf"), None); // the tag is not folded
    assert_eq!(find_mode(&n, "zzz"), None);
    assert_eq!(find_mode(&n, ""), Some(0));
}

#[test]
fn start_mode_follows_the_command_line() {
    let n = names();
    assert_eq!(start_mode(&n, None, None, None), (0, false));
    assert_eq!(start_mode(&n, Some("spec"), None, None), (2, false));
    assert_eq!(start_mode(&n, Some("ui"), None, Some("star")), (0, false));
    assert_eq!(start_mode(&n, Some("nope"), None, None), (0, false));
    assert_eq!(start_mode(&n, None, Some("star"), None), (3, false));
    assert_eq!(start_mode(&n, Some("spec"), Some("star"), None), (2, false));
    assert_eq!(start_mode(&n, None, None, Some("STAR")), (3, false));
    assert_eq!(start_mode(&n, None, None, Some("nope")), (0, true));
}

#[test]
fn bricks_spread_over_bands() {
    assert_eq!(brick_band(0, 10), 0);
    assert_eq!(brick_band(1, 10), 3);
    assert_eq!(brick_band(9, 10), 28);
    assert_eq!(brick_band(63, 64), 31);
    assert_eq!(brick_band(5, 5), 31);
}

#[test]
fn param_kinds_compare() {
    assert_ne!(ParamKind::Float, ParamKind::Int);
}

#[test]
fn events_sort_by_distance_stably() {
    assert_eq!(by_distance(&[30, 10, 20, 10]), vec![1, 3, 2, 0]);
    assert_eq!(by_distance(&[]), Vec::<usize>::new());
}

#[test]
fn sweep_keeps_the_stronger_of_crowded_hits() {
    // distances 0, 3, 6, 10 with a gap of 4
    let d = [0, 3, 6, 10];
    let s = [5, 7, 9, 1];
    // 3 crowds 0 and is stronger: it replaces it; 6 crowds 3 and is stronger:
    // it replaces it; 10 is clear of 6.
    assert_eq!(min_gap_sweep(&d, &s, &[0, 1, 2, 3], 4), vec![2, 3]);
    // a weaker crowd-in is dropped
    let s = [9, 1, 1, 1];
    assert_eq!(min_gap_sweep(&d, &s, &[0, 1, 2, 3], 4), vec![0, 2, 3]);
    // equal strength keeps the earlier
    let s = [5, 5, 5, 5];
    assert_eq!(min_gap_sweep(&d, &s, &[0, 1, 2, 3], 4), vec![0, 2, 3]);
    // no gap: everything survives
    assert_eq!(min_gap_sweep(&d, &s, &[0, 1, 2, 3], 0), vec![0, 1, 2, 3]);
}

#[test]
fn course_survivors_are_spaced() {
    let d = [50, 0, 12, 30, 31, 5];
    let s = [1, 2, 3, 4, 5, 6];
    let out = course_survivors(&d, &s, 10);
    // order by distance: 1(0) 5(5) 2(12) 3(30) 4(31) 0(50)
    // 5 crowds 1, stronger -> [5]; 2 at 12 - 5 = 7 < 10, weaker -> dropped;
    // 3 at 30 -> [5,3]; 4 crowds 3, stronger -> [5,4]; 0 at 50 -> [5,4,0]
    assert_eq!(out, vec![5, 4, 0]);
    for w in out.windows(2) {
        assert!(d[w[1]] - d[w[0]] >= 10);
    }
    assert_eq!(course_survivors(&[], &[], 10), Vec::<usize>::new());
}
