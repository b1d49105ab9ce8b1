use wfc::symmetry::Symmetry;

fn class(eq: Vec<u32>, sym: &str) -> Symmetry {
    Symmetry { eq, sym: vec![sym.to_string(); 8] }
}

#[test]
fn transformations_to_apply_all_distinct() {
    let c = class(vec![0, 1, 2, 3, 4, 5, 6, 7], "N");
    assert_eq!(c.transformations_to_apply(), vec![1, 2, 3, 4, 5, 6, 7]);
}

#[test]
fn transformations_to_apply_skips_repeats() {
    let c = class(vec![0, 0, 1, 1, 0, 0, 1, 1], "I");
    assert_eq!(c.transformations_to_apply(), vec![2]);
    let d = class(vec![0, 0, 0, 0, 0, 0, 0, 0], "X");
    assert_eq!(d.transformations_to_apply(), Vec::<u32>::new());
    let e = class(vec![0, 1, 0, 1, 2, 3, 2, 3], "L");
    assert_eq!(e.transformations_to_apply(), vec![1, 4, 5]);
}

#[test]
fn transformed_path_names_the_variant() {
    assert_eq!(Symmetry::transformed_path(&"tiles/a.png".to_string(), 3), Some("tiles/a-3.png".to_string()));
    assert_eq!(Symmetry::transformed_path(&"tiles/x.y.jpg".to_string(), 7), Some("tiles/x.y-7.jpg".to_string()));
    assert_eq!(Symmetry::transformed_path(&"tiles/a".to_string(), 3), None);
}
