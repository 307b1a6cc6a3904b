use ssb_parser::error::MacroError;
use ssb_parser::macros::{flatten_macro, references_checked, MacroMap, MacroNames};

#[test]
fn flatten_macro_success() {
    // Test data
    let mut macros = MacroMap::new();
    macros.insert("a".to_owned(), "Hello ${b} test!".to_owned());
    macros.insert("b".to_owned(), "fr${c}".to_owned());
    macros.insert("c".to_owned(), "om".to_owned());
    let mut flat_macros = MacroMap::new();
    // Test execution
    flatten_macro("a", &mut MacroNames::new(), &macros, &mut flat_macros).unwrap();
    assert_eq!(flat_macros.get("a").unwrap(), "Hello from test!");
}

#[test]
fn flatten_macro_infinite() {
    // Test data
    let mut macros = MacroMap::new();
    macros.insert("a".to_owned(), "foo ${b}".to_owned());
    macros.insert("b".to_owned(), "${a} bar".to_owned());
    // Test execution
    assert_eq!(flatten_macro("a", &mut MacroNames::new(), &macros, &mut MacroMap::new()).unwrap_err(), MacroError::InfiniteLoop("a".to_owned()));
}

#[test]
fn flatten_macro_notfound() {
    assert_eq!(flatten_macro("x", &mut MacroNames::new(), &MacroMap::new(), &mut MacroMap::new()).unwrap_err(), MacroError::NotFound("x".to_owned()));
}

#[test]
fn functions_compare_macro_errors() {
    assert_ne!(MacroError::InfiniteLoop("".to_owned()), MacroError::NotFound("zzz".to_owned()));
}

#[test]
fn flatten_macro_keeps_helpers_and_history() {
    let mut macros = MacroMap::new();
    macros.insert("a".to_owned(), "${b}-${b}-${c}".to_owned());
    macros.insert("b".to_owned(), "x".to_owned());
    macros.insert("c".to_owned(), "${b}y".to_owned());
    let mut history = MacroNames::new();
    let mut flat = MacroMap::new();
    assert_eq!(flatten_macro("a", &mut history, &macros, &mut flat), Ok(()));
    assert_eq!(flat.get("a").unwrap(), "x-x-xy");
    assert_eq!(flat.get("b").unwrap(), "x");
    assert_eq!(flat.get("c").unwrap(), "xy");
    assert!(history.contains("a") && history.contains("b") && history.contains("c"));
    // Flattened already: nothing changes.
    assert_eq!(flatten_macro("a", &mut history, &macros, &mut flat), Ok(()));
    assert_eq!(flat.get("a").unwrap(), "x-x-xy");
}

#[test]
fn flatten_macro_missing_reference() {
    let mut macros = MacroMap::new();
    macros.insert("a".to_owned(), "see ${zz}".to_owned());
    let mut flat = MacroMap::new();
    assert_eq!(flatten_macro("a", &mut MacroNames::new(), &macros, &mut flat), Err(MacroError::NotFound("zz".to_owned())));
    assert!(flat.get("a").is_none());
}

#[test]
fn flatten_macro_self_reference() {
    let mut macros = MacroMap::new();
    macros.insert("me".to_owned(), "${me}!".to_owned());
    assert_eq!(flatten_macro("me", &mut MacroNames::new(), &macros, &mut MacroMap::new()), Err(MacroError::InfiniteLoop("me".to_owned())));
}

#[test]
fn flatten_macro_in_history() {
    let mut macros = MacroMap::new();
    macros.insert("a".to_owned(), "plain".to_owned());
    let mut history = MacroNames::new();
    history.insert("a".to_owned());
    assert_eq!(flatten_macro("a", &mut history, &macros, &mut MacroMap::new()), Err(MacroError::InfiniteLoop("a".to_owned())));
}

#[test]
fn flatten_macro_not_references() {
    let mut macros = MacroMap::new();
    macros.insert("a".to_owned(), "${} ${b c} $${b}} {b} $b".to_owned());
    macros.insert("b".to_owned(), "B".to_owned());
    let mut flat = MacroMap::new();
    assert_eq!(flatten_macro("a", &mut MacroNames::new(), &macros, &mut flat), Ok(()));
    assert_eq!(flat.get("a").unwrap(), "${} ${b c} $B} {b} $b");
}

#[test]
fn flatten_macro_rescans_after_replacing() {
    let mut macros = MacroMap::new();
    macros.insert("a".to_owned(), "${d}{e}".to_owned());
    macros.insert("d".to_owned(), "$".to_owned());
    macros.insert("e".to_owned(), "E".to_owned());
    let mut flat = MacroMap::new();
    assert_eq!(flatten_macro("a", &mut MacroNames::new(), &macros, &mut flat), Ok(()));
    assert_eq!(flat.get("a").unwrap(), "E");
}

#[test]
fn macro_map_insert_replaces() {
    let mut map = MacroMap::new();
    map.insert("k".to_owned(), "1".to_owned());
    map.insert("k".to_owned(), "2".to_owned());
    assert_eq!(map.get("k").unwrap(), "2");
    assert!(map.contains_key("k"));
    assert!(!map.contains_key("j"));
}

#[test]
fn references_checked_decides_the_condition() {
    let mut macros = MacroMap::new();
    macros.insert("a".to_owned(), "Hello ${b} test!".to_owned());
    macros.insert("b".to_owned(), "fr${c}".to_owned());
    assert!(references_checked(&macros, &MacroMap::new()));
    let mut flat = MacroMap::new();
    flat.insert("c".to_owned(), "cost: $5".to_owned());
    assert!(!references_checked(&macros, &flat));
    let mut looping = MacroMap::new();
    looping.insert("a".to_owned(), "${${b}".to_owned());
    looping.insert("b".to_owned(), "b}b}}${${".to_owned());
    assert!(!references_checked(&looping, &MacroMap::new()));
}
