use wfc::grid::Wave;
use wfc::strmap::StrMap;
use wfc::tile_set::{AdjacencyRule, RuleSet, TileSet};
use wfc::wave::Region;

fn s(x: &str) -> String {
    x.to_string()
}

fn v(xs: &[&str]) -> Vec<String> {
    xs.iter().map(|x| x.to_string()).collect()
}

fn weights(pairs: &[(&str, u32)]) -> StrMap<u32> {
    let mut m = StrMap::new();
    for (k, w) in pairs {
        m.insert(s(k), *w);
    }
    m
}

fn names(m: &StrMap<u32>) -> Vec<String> {
    (0..m.len()).map(|i| m.key_at(i).clone()).collect()
}

fn count_entropy(m: &StrMap<u32>) -> u32 {
    if m.len() == 0 {
        f32::NAN.to_bits()
    } else if m.len() == 1 {
        0.0f32.to_bits()
    } else {
        (m.len() as f32).ln().to_bits()
    }
}

fn anywhere(_t: &String, _up: i32, _left: i32, _down: i32, _right: i32) -> bool {
    true
}

/// Two tiles that alternate left to right: `a` has `b` on its right and left,
/// and the other way round; anything may stand above or below.
fn stripes() -> RuleSet {
    let mut m = StrMap::new();
    m.insert(s("a"), AdjacencyRule::new(s("X"), v(&["a", "b"]), v(&["b"]), v(&["a", "b"]), v(&["b"])));
    m.insert(s("b"), AdjacencyRule::new(s("X"), v(&["a", "b"]), v(&["a"]), v(&["a", "b"]), v(&["a"])));
    RuleSet { tiles_path: s("t/"), adjacency_rules: m }
}

fn wave_of(rules: &RuleSet, size: (i32, i32)) -> Wave {
    let ts = TileSet::new_r(rules);
    Wave::new(&ts, size, &StrMap::new(), &count_entropy)
}

#[test]
fn wave_new_fills_every_position() {
    let rs = stripes();
    let w = wave_of(&rs, (3, 2));
    assert_eq!(w.size, (3, 2));
    assert_eq!(w.regions.len(), 6);
    for r in &w.regions {
        assert_eq!(names(&r.superposition), v(&["a", "b"]));
        assert_eq!(r.entropy, 2.0f32.ln().to_bits());
    }
}

#[test]
fn wave_new_with_no_positions() {
    let rs = stripes();
    assert_eq!(wave_of(&rs, (0, 4)).regions.len(), 0);
    assert_eq!(wave_of(&rs, (-2, 3)).regions.len(), 0);
}

#[test]
fn list_tiles_goes_row_by_row() {
    let mut regions = Vec::new();
    for t in ["p", "q", "r", "s", "t", "u"] {
        regions.push(Region { superposition: weights(&[(t, 1)]), entropy: 0 });
    }
    let w = Wave { size: (2, 3), regions };
    assert_eq!(w.list_tiles(), "p s q t r u ");
}

fn with_entropies(es: &[f32], size: (i32, i32)) -> Wave {
    let regions = es.iter().map(|e| Region { superposition: weights(&[("a", 1), ("b", 1)]), entropy: e.to_bits() }).collect();
    Wave { size, regions }
}

#[test]
fn lowest_entropy_candidates_are_the_least_positive() {
    let w = with_entropies(&[1.0, 0.5, 0.5, 0.0, 2.0, 0.5], (2, 3));
    assert_eq!(w.lowest_entropy_candidates(), Some(vec![(0, 1), (0, 2), (1, 2)]));
    let p = w.lowest_entropy(2);
    assert!(p == (0, 1) || p == (0, 2) || p == (1, 2));
}

#[test]
fn lowest_entropy_takes_infinity_when_nothing_smaller() {
    let w = with_entropies(&[0.0, f32::INFINITY, -1.0, f32::INFINITY], (2, 2));
    assert_eq!(w.lowest_entropy_candidates(), Some(vec![(0, 1), (1, 1)]));
}

#[test]
fn lowest_entropy_reports_nan() {
    let w = with_entropies(&[1.0, f32::NAN, 0.5, 0.5], (2, 2));
    assert_eq!(w.lowest_entropy_candidates(), None);
    assert_eq!(w.lowest_entropy(2), (-2, -2));
}

#[test]
fn lowest_entropy_reports_a_settled_wave() {
    let w = with_entropies(&[0.0, -0.0, -3.0, 0.0], (2, 2));
    assert_eq!(w.lowest_entropy_candidates(), Some(vec![]));
    assert_eq!(w.lowest_entropy(2), (-1, -1));
}

#[test]
fn collapse_collapses_a_least_entropy_region() {
    let mut w = with_entropies(&[1.0, 0.5, 2.0, 3.0], (2, 2));
    let p = w.collapse(2, &anywhere);
    assert_eq!(p, (0, 1));
    assert_eq!(w.regions[1].superposition.len(), 1);
    assert_eq!(w.regions[1].entropy, 0);
    assert_eq!(w.regions[0].superposition.len(), 2);
}

#[test]
fn try_collapse_reports_a_blocked_region() {
    let mut w = with_entropies(&[1.0, 0.5], (1, 2));
    let nowhere = |_t: &String, _a: i32, _b: i32, _c: i32, _d: i32| false;
    assert_eq!(w.try_collapse(2, &nowhere), None);
    assert_eq!(w.regions[1].superposition.len(), 2);
}

#[test]
fn set_pos_propagates_along_the_row() {
    let rs = stripes();
    let mut w = wave_of(&rs, (4, 1));
    w.set_pos((0, 0), s("a"), &rs, &count_entropy);
    assert_eq!(w.list_tiles(), "a b a b ");
    for r in &w.regions {
        assert_eq!(r.entropy, 0);
    }
}

#[test]
fn set_pos_off_the_grid_changes_nothing() {
    let rs = stripes();
    let mut w = wave_of(&rs, (2, 1));
    w.set_pos((5, 0), s("a"), &rs, &count_entropy);
    for r in &w.regions {
        assert_eq!(names(&r.superposition), v(&["a", "b"]));
    }
}

#[test]
fn start_propagate_leaves_neighbours_supported() {
    let rs = stripes();
    let mut w = wave_of(&rs, (3, 2));
    w.regions[2].set_tile(s("b"));
    w.start_propagate((1, 0), &rs, &count_entropy);
    // (1, 0) holds b, so (0, 0) and (2, 0) hold a; (1, 1) below may hold both.
    assert_eq!(names(&w.regions[0].superposition), v(&["a"]));
    assert_eq!(names(&w.regions[4].superposition), v(&["a"]));
    assert_eq!(names(&w.regions[3].superposition), v(&["a", "b"]));
    assert_eq!(names(&w.regions[1].superposition), v(&["a", "b"]));
}

#[test]
fn loop_propagate_completes_the_stripes() {
    let rs = stripes();
    let mut w = wave_of(&rs, (4, 3));
    let res = w.loop_propagate(2, &rs, None, &anywhere, &count_entropy);
    assert_eq!(res, "ok_wave");
    let listing = w.list_tiles();
    let cells: Vec<&str> = listing.split_whitespace().collect();
    assert_eq!(cells.len(), 12);
    for row in 0..3 {
        for col in 0..3 {
            assert_ne!(cells[row * 4 + col], cells[row * 4 + col + 1]);
        }
    }
}

#[test]
fn loop_propagate_reports_a_contradiction() {
    let mut m = StrMap::new();
    m.insert(s("a"), AdjacencyRule::new(s("X"), v(&[]), v(&[]), v(&[]), v(&[])));
    m.insert(s("b"), AdjacencyRule::new(s("X"), v(&[]), v(&[]), v(&[]), v(&[])));
    let rs = RuleSet { tiles_path: s("t/"), adjacency_rules: m };
    let mut w = wave_of(&rs, (2, 1));
    assert_eq!(w.loop_propagate(2, &rs, None, &anywhere, &count_entropy), "invalid_wave");
}

#[test]
fn loop_propagate_reports_a_blocked_wave() {
    let rs = stripes();
    let mut w = wave_of(&rs, (2, 2));
    let nowhere = |_t: &String, _a: i32, _b: i32, _c: i32, _d: i32| false;
    assert_eq!(w.loop_propagate(2, &rs, None, &nowhere, &count_entropy), "invalid_wave");
}

#[test]
fn a_cloned_wave_is_the_same_wave() {
    let rs = stripes();
    let w = wave_of(&rs, (2, 3));
    let c = w.clone();
    assert_eq!(c.size, w.size);
    assert_eq!(c.regions.len(), 6);
    assert_eq!(format!("{:?}", c), format!("{:?}", w));
    let r = rs.clone();
    assert_eq!(format!("{:?}", r), format!("{:?}", rs));
}
