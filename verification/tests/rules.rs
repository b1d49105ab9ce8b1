use wfc::strmap::StrMap;
use wfc::symmetry::Symmetry;
use wfc::tile_set::{AdjacencyRule, RuleSet, TileSet};

fn s(x: &str) -> String {
    x.to_string()
}

fn v(xs: &[&str]) -> Vec<String> {
    xs.iter().map(|x| x.to_string()).collect()
}

fn empty_set(path: &str) -> RuleSet {
    RuleSet { tiles_path: s(path), adjacency_rules: StrMap::new() }
}

fn rule<'a>(rs: &'a RuleSet, tile: &str) -> &'a AdjacencyRule {
    rs.adjacency_rules.get(&s(tile)).expect("rule present")
}

fn keys(m: &StrMap<AdjacencyRule>) -> Vec<String> {
    (0..m.len()).map(|i| m.key_at(i).clone()).collect()
}

#[test]
fn adjacency_rule_new_keeps_its_parts() {
    let r = AdjacencyRule::new(s("L"), v(&["u"]), v(&["r"]), v(&["d"]), v(&["l"]));
    assert_eq!(r.symmetry, "L");
    assert_eq!(r.up_tiles, v(&["u"]));
    assert_eq!(r.right_tiles, v(&["r"]));
    assert_eq!(r.down_tiles, v(&["d"]));
    assert_eq!(r.left_tiles, v(&["l"]));
}

#[test]
fn adjacency_rule_new_empty_has_no_neighbours() {
    let r = AdjacencyRule::new_empty(s("X"));
    assert_eq!(r.symmetry, "X");
    assert!(r.up_tiles.is_empty() && r.right_tiles.is_empty() && r.down_tiles.is_empty() && r.left_tiles.is_empty());
}

#[test]
fn adjacency_rule_new_rule_sets_one_direction() {
    let r = AdjacencyRule::new_rule(s("T"), 2, s("b.png"));
    assert!(r.up_tiles.is_empty() && r.right_tiles.is_empty() && r.left_tiles.is_empty());
    assert_eq!(r.down_tiles, v(&["b.png"]));
    let e = AdjacencyRule::new_rule(s("T"), 7, s("b.png"));
    assert!(e.up_tiles.is_empty() && e.right_tiles.is_empty() && e.down_tiles.is_empty() && e.left_tiles.is_empty());
}

#[test]
fn add_rule_links_both_ways() {
    let mut rs = empty_set("t/");
    rs.add_rule(s("S"), s("a.png"), 1, s("Z"), s("b.png"));
    assert_eq!(keys(&rs.adjacency_rules), v(&["a.png", "b.png"]));
    assert_eq!(rule(&rs, "a.png").right_tiles, v(&["b.png"]));
    assert_eq!(rule(&rs, "a.png").symmetry, "S");
    assert_eq!(rule(&rs, "b.png").left_tiles, v(&["a.png"]));
    assert_eq!(rule(&rs, "b.png").symmetry, "Z");
    assert_eq!(rs.tiles_path, "t/");
}

#[test]
fn add_rule_does_not_repeat_a_link() {
    let mut rs = empty_set("t/");
    rs.add_rule(s("S"), s("a.png"), 0, s("S"), s("b.png"));
    rs.add_rule(s("S"), s("a.png"), 0, s("S"), s("b.png"));
    assert_eq!(rule(&rs, "a.png").up_tiles, v(&["b.png"]));
    assert_eq!(rule(&rs, "b.png").down_tiles, v(&["a.png"]));
}

#[test]
fn add_rule_aux_keeps_the_existing_symmetry() {
    let mut rs = empty_set("t/");
    rs.add_rule_aux(s("S"), s("a.png"), 3, s("b.png"));
    rs.add_rule_aux(s("Q"), s("a.png"), 3, s("c.png"));
    assert_eq!(rule(&rs, "a.png").symmetry, "S");
    assert_eq!(rule(&rs, "a.png").left_tiles, v(&["b.png", "c.png"]));
}

#[test]
fn add_rule_aux_ignores_a_bad_direction_on_a_known_tile() {
    let mut rs = empty_set("t/");
    rs.add_rule_aux(s("S"), s("a.png"), 0, s("b.png"));
    rs.add_rule_aux(s("S"), s("a.png"), 9, s("c.png"));
    let r = rule(&rs, "a.png");
    assert_eq!(r.up_tiles, v(&["b.png"]));
    assert!(r.right_tiles.is_empty() && r.down_tiles.is_empty() && r.left_tiles.is_empty());
}

#[test]
fn ini_expand_mirrors_every_link() {
    let mut rs = empty_set("t/");
    rs.adjacency_rules.insert(s("a.png"), AdjacencyRule::new(s("X"), v(&["b.png"]), v(&[]), v(&[]), v(&["a.png"])));
    rs.ini_expand();
    assert_eq!(keys(&rs.adjacency_rules), v(&["a.png", "b.png"]));
    let b = rule(&rs, "b.png");
    assert_eq!(b.symmetry, "N");
    assert_eq!(b.down_tiles, v(&["a.png"]));
    let a = rule(&rs, "a.png");
    assert_eq!(a.left_tiles, v(&["a.png"]));
    assert_eq!(a.right_tiles, v(&["a.png"]));
    assert_eq!(a.up_tiles, v(&["b.png"]));
}

#[test]
fn tile_set_new_keeps_the_images() {
    let ts = TileSet::new("tiles/", &v(&["a.png", "notes.txt", "b.jpg", "c.jpeg", "png"]));
    assert_eq!(ts.tiles, v(&["a.png", "b.jpg"]));
    assert_eq!(ts.tiles_path, "tiles/");
    assert_eq!(ts.size, 2);
}

#[test]
fn tile_set_new_r_lists_the_ruled_tiles() {
    let mut rs = empty_set("p/");
    rs.add_rule(s("S"), s("a.png"), 1, s("S"), s("b.png"));
    let ts = TileSet::new_r(&rs);
    assert_eq!(ts.tiles, v(&["a.png", "b.png"]));
    assert_eq!(ts.tiles_path, "p/");
    assert_eq!(ts.size, 2);
}

#[test]
fn tile_set_expand_applies_the_classes() {
    let mut rs = empty_set("p/");
    rs.adjacency_rules.insert(s("l.png"), AdjacencyRule::new_empty(s("L")));
    rs.adjacency_rules.insert(s("i.png"), AdjacencyRule::new_empty(s("I")));
    rs.adjacency_rules.insert(s("x.png"), AdjacencyRule::new_empty(s("X")));
    rs.adjacency_rules.insert(s("b.png"), AdjacencyRule::new_empty(s("B")));
    let new_rules = TileSet::expand(&mut rs);
    let l = rule(&rs, "l.png");
    assert_eq!(l.up_tiles, v(&["l-1.png"]));
    assert_eq!(l.down_tiles, v(&["l-1.png"]));
    let i = rule(&rs, "i.png");
    assert_eq!(i.up_tiles, v(&["i.png"]));
    assert_eq!(i.left_tiles, v(&["i.png"]));
    assert_eq!(rule(&rs, "x.png").up_tiles, v(&["x.png"]));
    let b = rule(&rs, "b.png");
    assert_eq!(b.left_tiles, v(&["b-2.png"]));
    assert_eq!(b.right_tiles, v(&["b-2.png"]));
    assert_eq!(b.up_tiles, v(&["b.png"]));
    assert_eq!(keys(&new_rules), v(&["l-1.png", "b-2.png"]));
    assert_eq!(new_rules.get(&s("l-1.png")).unwrap().symmetry, "Q");
    assert_eq!(new_rules.get(&s("b-2.png")).unwrap().symmetry, "B");
}

fn dictionary() -> StrMap<Symmetry> {
    let mut d = StrMap::new();
    d.insert(s("X"), Symmetry { eq: vec![0; 8], sym: v(&["X"; 8]) });
    d.insert(s("@"), Symmetry { eq: vec![0; 8], sym: v(&["@"; 8]) });
    d
}

#[test]
fn expand_inserts_new_rules_for_fixed_tiles() {
    let mut rs = empty_set("p/");
    rs.adjacency_rules.insert(s("f.png"), AdjacencyRule::new_empty(s("@")));
    let mut new_rules = StrMap::new();
    new_rules.insert(s("n.png"), AdjacencyRule::new_empty(s("@")));
    let out = rs.expand(&dictionary(), &new_rules);
    assert_eq!(keys(&rs.adjacency_rules), v(&["f.png", "n.png"]));
    assert_eq!(keys(&out.adjacency_rules), v(&["f.png", "n.png"]));
    assert_eq!(out.tiles_path, "p/");
}

#[test]
fn expand_turns_a_symmetric_tile_every_way() {
    let mut rs = empty_set("p/");
    rs.adjacency_rules.insert(s("a.png"), AdjacencyRule::new(s("X"), v(&["a.png"]), v(&[]), v(&[]), v(&[])));
    let out = rs.expand(&dictionary(), &StrMap::new());
    assert_eq!(keys(&out.adjacency_rules), v(&["a.png"]));
    let a = rule(&out, "a.png");
    assert_eq!(a.up_tiles, v(&["a.png"]));
    assert_eq!(a.right_tiles, v(&["a.png"]));
    assert_eq!(a.down_tiles, v(&["a.png"]));
    assert_eq!(a.left_tiles, v(&["a.png"]));
}

#[test]
fn try_expand_needs_every_class() {
    let mut rs = empty_set("p/");
    rs.adjacency_rules.insert(s("a.png"), AdjacencyRule::new_empty(s("W")));
    assert!(rs.try_expand(&dictionary(), &StrMap::new()).is_none());
}

fn snapshot(rs: &RuleSet) -> Vec<(String, String, Vec<String>, Vec<String>, Vec<String>, Vec<String>)> {
    (0..rs.adjacency_rules.len())
        .map(|i| {
            let r = rs.adjacency_rules.value_at(i);
            (
                rs.adjacency_rules.key_at(i).clone(),
                r.symmetry.clone(),
                r.up_tiles.clone(),
                r.right_tiles.clone(),
                r.down_tiles.clone(),
                r.left_tiles.clone(),
            )
        })
        .collect()
}

#[test]
fn ini_expand_twice_is_ini_expand_once() {
    let mut rs = empty_set("t/");
    rs.adjacency_rules.insert(s("a.png"), AdjacencyRule::new(s("X"), v(&["b.png", "a.png"]), v(&["c.png"]), v(&[]), v(&["b.png"])));
    rs.adjacency_rules.insert(s("b.png"), AdjacencyRule::new(s("L"), v(&[]), v(&["a.png"]), v(&["c.png"]), v(&[])));
    rs.ini_expand();
    let once = snapshot(&rs);
    rs.ini_expand();
    assert_eq!(snapshot(&rs), once);
}
