use wfc::strmap::StrMap;
use wfc::tile_set::{AdjacencyRule, RuleSet, TileSet};
use wfc::wave::Region;

fn s(x: &str) -> String {
    x.to_string()
}

fn v(xs: &[&str]) -> Vec<String> {
    xs.iter().map(|x| x.to_string()).collect()
}

fn weights(pairs: &[(&str, u32)]) -> StrMap<u32> {
    let mut m = StrMap::new();
    for (k, w) in pairs {
        m.insert(s(k), *w);
    }
    m
}

fn entries(m: &StrMap<u32>) -> Vec<(String, u32)> {
    (0..m.len()).map(|i| (m.key_at(i).clone(), *m.value_at(i))).collect()
}

fn region(pairs: &[(&str, u32)], entropy: f32) -> Region {
    Region { superposition: weights(pairs), entropy: entropy.to_bits() }
}

fn tiles(names: &[&str]) -> TileSet {
    TileSet { tiles: v(names), tiles_path: s("t/"), size: names.len() as u32 }
}

#[test]
fn region_new_weighs_every_tile() {
    let r = Region::new(&tiles(&["a", "b", "c"]), &weights(&[("b", 5), ("z", 9)]));
    assert_eq!(entries(&r.superposition), vec![(s("a"), 100), (s("b"), 5), (s("c"), 100)]);
    assert_eq!(r.entropy, 3.0f32.to_bits());
}

#[test]
fn region_new_uses_only_the_counted_tiles() {
    let mut ts = tiles(&["a", "b", "c"]);
    ts.size = 2;
    let r = Region::new(&ts, &StrMap::new());
    assert_eq!(entries(&r.superposition), vec![(s("a"), 100), (s("b"), 100)]);
    assert_eq!(r.entropy, 2.0f32.to_bits());
}

#[test]
fn get_tile_gives_the_first_tile() {
    let r = region(&[("q", 1), ("p", 2)], 1.0);
    assert_eq!(r.get_tile(), "q");
}

#[test]
fn set_tile_collapses_to_that_tile() {
    let mut r = region(&[("a", 7), ("b", 3)], 1.5);
    r.set_tile(s("b"));
    assert_eq!(entries(&r.superposition), vec![(s("b"), 3)]);
    assert_eq!(r.entropy, 0);
}

#[test]
fn pick_weighted_lays_weights_end_to_end() {
    let sp = weights(&[("a", 100), ("z", 0), ("b", 5)]);
    assert_eq!(Region::pick_weighted(&sp, 0), "a");
    assert_eq!(Region::pick_weighted(&sp, 99), "a");
    assert_eq!(Region::pick_weighted(&sp, 100), "b");
    assert_eq!(Region::pick_weighted(&sp, 104), "b");
    assert_eq!(Region::pick_weighted(&sp, 105), "Null");
}

#[test]
fn probability_func_draws_a_tile_with_weight() {
    let sp = weights(&[("a", 0), ("b", 3), ("c", 0)]);
    for _ in 0..20 {
        assert_eq!(Region::probability_func(&sp), "b");
    }
    let sp2 = weights(&[("a", 1), ("b", 1)]);
    for _ in 0..20 {
        let t = Region::probability_func(&sp2);
        assert!(t == "a" || t == "b");
    }
}

#[test]
fn collapse_keeps_one_tile() {
    let mut r = region(&[("a", 1), ("b", 0), ("c", 1)], 2.0);
    r.collapse();
    let e = entries(&r.superposition);
    assert_eq!(e.len(), 1);
    assert!(e[0] == (s("a"), 1) || e[0] == (s("c"), 1));
    assert_eq!(r.entropy, 0);
}

#[test]
fn filter_for_reach_keeps_tiles_that_reach() {
    let r = region(&[("a", 1), ("b", 2), ("c", 3)], 2.0);
    let seen = std::cell::RefCell::new(Vec::new());
    let can_reach = |t: &String, up: i32, left: i32, down: i32, right: i32| {
        seen.borrow_mut().push((up, left, down, right));
        t != "b"
    };
    let f = r.filter_for_reach(&can_reach, (1, 2), (4, 5));
    assert_eq!(entries(&f), vec![(s("a"), 1), (s("c"), 3)]);
    assert_eq!(seen.borrow()[0], (2, 1, 2, 2));
}

#[test]
fn collapse_with_reach_picks_a_reaching_tile() {
    let mut r = region(&[("a", 1), ("b", 2), ("c", 3)], 2.0);
    let can_reach = |t: &String, _up: i32, _left: i32, _down: i32, _right: i32| t == "c";
    r.collapse_with_reach(&can_reach, (0, 0), (1, 1));
    assert_eq!(entries(&r.superposition), vec![(s("c"), 3)]);
    assert_eq!(r.entropy, 0);
}

#[test]
fn try_collapse_with_reach_reports_a_dead_end() {
    let mut r = region(&[("a", 1), ("b", 2)], 2.0);
    let none = |_t: &String, _up: i32, _left: i32, _down: i32, _right: i32| false;
    assert!(!r.try_collapse_with_reach(&none, (0, 0), (1, 1)));
    assert_eq!(entries(&r.superposition), vec![(s("a"), 1), (s("b"), 2)]);
    assert_eq!(r.entropy, 2.0f32.to_bits());
}

fn rules() -> RuleSet {
    let mut m = StrMap::new();
    m.insert(s("a"), AdjacencyRule::new(s("X"), v(&["a", "b"]), v(&["b"]), v(&["c"]), v(&["a"])));
    m.insert(s("b"), AdjacencyRule::new(s("X"), v(&["b", "c", "c"]), v(&["a"]), v(&[]), v(&["c"])));
    RuleSet { tiles_path: s("t/"), adjacency_rules: m }
}

#[test]
fn get_dir_vectors_gathers_each_direction() {
    let r = region(&[("a", 1), ("b", 1)], 2.0);
    let d = r.get_dir_vectors(&rules());
    assert_eq!(d.len(), 4);
    assert_eq!(d[0], v(&["a", "c"]));
    assert_eq!(d[1], v(&["a", "b", "c", "c"]));
    assert_eq!(d[2], v(&["b", "a"]));
    assert_eq!(d[3], v(&["c"]));
}

#[test]
fn update_restricts_and_recomputes_entropy() {
    let mut r = region(&[("a", 1), ("b", 2), ("c", 3)], 3.0);
    let entropy_of = |m: &StrMap<u32>| (m.len() as f32 * 10.0).to_bits();
    assert!(r.update(&v(&["c", "a", "x"]), &entropy_of));
    assert_eq!(entries(&r.superposition), vec![(s("a"), 1), (s("c"), 3)]);
    assert_eq!(r.entropy, 20.0f32.to_bits());
    assert!(!r.update(&v(&["a", "c"]), &entropy_of));
    assert_eq!(entries(&r.superposition), vec![(s("a"), 1), (s("c"), 3)]);
    assert_eq!(r.entropy, 20.0f32.to_bits());
}

#[test]
fn set_tile_then_get_tile_gives_it_back() {
    let mut r = region(&[("a", 7), ("b", 3), ("c", 1)], 1.5);
    r.set_tile(s("c"));
    assert_eq!(r.get_tile(), "c");
    assert_eq!(r.superposition.len(), 1);
}

#[test]
fn update_reports_no_change_when_nothing_is_removed() {
    let mut r = region(&[("a", 1), ("b", 2)], 3.0);
    let entropy_of = |_m: &StrMap<u32>| 7.0f32.to_bits();
    assert!(!r.update(&v(&["b", "a", "z"]), &entropy_of));
    assert_eq!(entries(&r.superposition), vec![(s("a"), 1), (s("b"), 2)]);
    assert_eq!(r.entropy, 3.0f32.to_bits());
    assert!(r.update(&v(&[]), &entropy_of));
    assert_eq!(r.superposition.len(), 0);
    assert_eq!(r.entropy, 7.0f32.to_bits());
}
