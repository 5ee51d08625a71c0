use chiptool::name_map::NameMap;
use chiptool::text::{
    begins_with, chars_of, decimal_of, ends_with, find, is_less, join_all, same, same_opt,
    split_at_each, split_at_most, split_once, strip_prefix,
};
use chiptool::ir::{Block, IR};

fn owned(parts: &[&str]) -> Vec<String> {
    parts.iter().map(|p| p.to_string()).collect()
}

#[test]
fn leftmost_occurrence_is_found() {
    assert_eq!(find("a::b::c", "::"), Some(1));
    assert_eq!(find("abc", "::"), None);
    assert_eq!(find("äö::", "::"), Some(2));
    assert_eq!(find("abc", ""), Some(0));
}

#[test]
fn splitting() {
    assert_eq!(split_at_each("a::b::c", "::"), owned(&["a", "b", "c"]));
    assert_eq!(split_at_each("a:::b", "::"), owned(&["a", ":b"]));
    assert_eq!(split_at_each("", "::"), owned(&[""]));
    assert_eq!(split_at_each("::", "::"), owned(&["", ""]));
    assert_eq!(split_at_most("a::b::c::d", "::", 3), owned(&["a", "b", "c::d"]));
    assert_eq!(split_at_most("a", "::", 3), owned(&["a"]));
    assert_eq!(split_once("ALT1_GPIO_X", "_"), Some(("ALT1".to_string(), "GPIO_X".to_string())));
    assert_eq!(split_once("ALT1", "_"), None);
}

#[test]
fn joining_undoes_splitting() {
    for s in ["a::b::c", "", "::", "a:::b", "äö::ü", ":"] {
        assert_eq!(join_all(&split_at_each(s, "::"), "::"), s);
    }
    assert_eq!(join_all(&vec![], "::"), "");
}

#[test]
fn prefixes_and_suffixes() {
    assert_eq!(strip_prefix("GpioAon01", "Gpio"), Some("Aon01".to_string()));
    assert_eq!(strip_prefix("Gp", "Gpio"), None);
    assert!(begins_with("SELECT_X", "SELECT_"));
    assert!(!begins_with("SEL", "SELECT_"));
    assert!(ends_with("EmcDummy", "Dummy"));
    assert!(!ends_with("Dumm", "Dummy"));
}

#[test]
fn decimals() {
    assert_eq!(decimal_of(0), "0");
    assert_eq!(decimal_of(10), "10");
    assert_eq!(decimal_of(u64::MAX), "18446744073709551615");
}

#[test]
fn texts_are_ordered_by_code_points() {
    assert!(is_less("", "a"));
    assert!(is_less("a", "ab"));
    assert!(is_less("B", "a"));
    assert!(!is_less("a", "a"));
    assert!(is_less("z", "ä"));
    assert!(same("a", "a") && !same("a", "b"));
    assert!(same_opt(&None, &None) && !same_opt(&None, &Some(String::new())));
    assert_eq!(chars_of("aä"), vec!['a', 'ä']);
}

#[test]
fn maps_keep_their_order() {
    let block = |d: &str| Block { extends: None, description: Some(d.to_string()), items: vec![] };
    let m = NameMap::new()
        .insert("b".to_string(), block("1"))
        .insert("a".to_string(), block("2"))
        .insert("c".to_string(), block("3"))
        .insert("b".to_string(), block("4"));
    assert_eq!(m.len(), 3);
    assert_eq!((m.key_at(0).as_str(), m.key_at(1).as_str(), m.key_at(2).as_str()), ("a", "b", "c"));
    assert_eq!(m.get("b").unwrap().description, Some("4".to_string()));
    assert_eq!(m.get("a").unwrap().description, Some("2".to_string()));
    assert_eq!(m.find("c"), Some(2));
    assert!(m.get("d").is_none());
    let m = m.replace_at(0, block("5"));
    assert_eq!(m.get("a").unwrap().description, Some("5".to_string()));
    assert_eq!(m.len(), 3);
}

#[test]
fn new_map_is_empty() {
    let ir = IR::new();
    assert_eq!(ir.devices.len() + ir.blocks.len() + ir.fieldsets.len() + ir.enums.len(), 0);
}
