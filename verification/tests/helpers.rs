use wfc::strmap::StrMap;
use wfc::text::{
    byte_offset_below, chars_of, copy_strs, decimal_chars, extend_chars, is_single, rfind_char, single,
    string_from_chars, strs_contain, to_digit,
};
use wfc::wave::{copy_weights, weight_sum};

fn s(x: &str) -> String {
    x.to_string()
}

#[test]
fn strmap_insert_keeps_arrival_order() {
    let mut m: StrMap<u32> = StrMap::new();
    m.insert(s("b"), 1);
    m.insert(s("a"), 2);
    m.insert(s("b"), 3);
    assert_eq!(m.len(), 2);
    assert_eq!(m.key_at(0), "b");
    assert_eq!(*m.value_at(0), 3);
    assert_eq!(m.key_at(1), "a");
    assert_eq!(m.get(&s("a")), Some(&2));
    assert_eq!(m.get(&s("z")), None);
    assert_eq!(m.index_of(&s("a")), Some(1));
    assert!(m.contains_key(&s("b")));
    assert!(!m.contains_key(&s("c")));
    m.set_value(1, 9);
    assert_eq!(m.get(&s("a")), Some(&9));
}

#[test]
fn weight_sum_adds_or_overflows() {
    let mut m: StrMap<u32> = StrMap::new();
    m.insert(s("a"), 1);
    m.insert(s("b"), 2);
    assert_eq!(weight_sum(&m), Some(3));
    m.insert(s("c"), u32::MAX);
    assert_eq!(weight_sum(&m), None);
    assert_eq!(weight_sum(&StrMap::new()), Some(0));
}

#[test]
fn copy_weights_copies() {
    let mut m: StrMap<u32> = StrMap::new();
    m.insert(s("a"), 1);
    m.insert(s("b"), 2);
    let c = copy_weights(&m);
    assert_eq!(c.len(), 2);
    assert_eq!((c.key_at(0).as_str(), *c.value_at(0)), ("a", 1));
    assert_eq!((c.key_at(1).as_str(), *c.value_at(1)), ("b", 2));
}

#[test]
fn character_helpers() {
    let cs = chars_of("héllo-2.png");
    assert_eq!(cs.len(), 11);
    assert_eq!(string_from_chars(&cs), "héllo-2.png");
    assert_eq!(rfind_char(&cs, '.'), Some(7));
    assert_eq!(rfind_char(&cs, '-'), Some(5));
    assert_eq!(rfind_char(&cs, 'z'), None);
    assert_eq!(byte_offset_below(&cs, 5, 100), Some(6));
    assert_eq!(byte_offset_below(&cs, 5, 6), None);
    assert_eq!(single('Q'), "Q");
    assert!(is_single("Q", 'Q'));
    assert!(!is_single("QQ", 'Q'));
    assert_eq!(decimal_chars(0), vec!['0']);
    assert_eq!(decimal_chars(4070), vec!['4', '0', '7', '0']);
    assert_eq!(to_digit('7'), Some(7));
    assert_eq!(to_digit('x'), None);
    let mut v = vec!['a'];
    extend_chars(&mut v, &cs, 1, 3);
    assert_eq!(v, vec!['a', 'é', 'l']);
}

#[test]
fn string_list_helpers() {
    let v = vec![s("a"), s("b")];
    assert!(strs_contain(&v, &s("b")));
    assert!(!strs_contain(&v, &s("c")));
    assert_eq!(copy_strs(&v), v);
}
