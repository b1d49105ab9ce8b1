use wfc::tile_set::RuleSet;

fn s(x: &str) -> String {
    x.to_string()
}

#[test]
fn nnew_tile_name_puts_the_number_before_the_extension() {
    assert_eq!(RuleSet::nnew_tile_name(&s("grass.png"), 3), "grass-3.png");
    assert_eq!(RuleSet::nnew_tile_name(&s("dir/a.b.png"), 12), "dir/a.b-12.png");
}

#[test]
fn nnew_tile_name_zero_keeps_the_name() {
    assert_eq!(RuleSet::nnew_tile_name(&s("grass.png"), 0), "grass.png");
    assert_eq!(RuleSet::nnew_tile_name(&s("nodot"), 0), "nodot");
}

#[test]
fn nnew_tile_name_without_dot_is_null() {
    assert_eq!(RuleSet::nnew_tile_name(&s("nodot"), 2), "Null");
}

#[test]
fn new_tile_name_first_turn() {
    assert_eq!(RuleSet::new_tile_name(&s("a.png"), 1, "L"), "a-1.png");
    assert_eq!(RuleSet::new_tile_name(&s("a.png"), 1, "I"), "a-1.png");
    assert_eq!(RuleSet::new_tile_name(&s("a.png"), 5, "X"), "a-5.png");
}

#[test]
fn new_tile_name_advances_quarter_turns() {
    assert_eq!(RuleSet::new_tile_name(&s("a-1.png"), 1, "Q"), "a-2.png");
    assert_eq!(RuleSet::new_tile_name(&s("a-1.png"), 3, "B"), "a.png");
    assert_eq!(RuleSet::new_tile_name(&s("a-3.png"), 2, "T"), "a-1.png");
}

#[test]
fn new_tile_name_advances_half_turns() {
    assert_eq!(RuleSet::new_tile_name(&s("b-1.png"), 1, "I"), "b.png");
    assert_eq!(RuleSet::new_tile_name(&s("b-0.png"), 1, "/"), "b-1.png");
}

#[test]
fn new_tile_name_two_flips_restore_the_tile() {
    for sym in ["I", "/"] {
        let once = RuleSet::new_tile_name(&s("tile.png"), 1, sym);
        assert_eq!(once, "tile-1.png");
        assert_eq!(RuleSet::new_tile_name(&once, 1, sym), "tile.png");
    }
}

#[test]
fn new_tile_name_quarter_turns_compose() {
    for sym in ["B", "T", "L", "Q"] {
        for a in 0..4u32 {
            for b in 0..4u32 {
                let twice = RuleSet::new_tile_name(&RuleSet::new_tile_name(&s("tile.png"), a, sym), b, sym);
                assert_eq!(twice, RuleSet::new_tile_name(&s("tile.png"), (a + b) % 4, sym));
            }
        }
    }
}

#[test]
fn new_tile_name_other_classes_append() {
    assert_eq!(RuleSet::new_tile_name(&s("c-1.png"), 2, "X"), "c-1-2.png");
    assert_eq!(RuleSet::new_tile_name(&s("c"), 2, "X"), "Null");
}

#[test]
fn new_tile_name_zero_keeps_the_name() {
    assert_eq!(RuleSet::new_tile_name(&s("c-7.png"), 0, "Q"), "c-7.png");
}

#[test]
fn try_new_tile_name_refuses_an_unreadable_counter() {
    assert_eq!(RuleSet::try_new_tile_name(&s("a-x.png"), 1, "L"), None);
    assert_eq!(RuleSet::try_new_tile_name(&s("a-"), 1, "L"), None);
    assert_eq!(RuleSet::try_new_tile_name(&s("a-2.png"), 1, "L"), Some(s("a-3.png")));
}
