use ssb_parser::error::{MacroError, ParseError};

#[test]
fn parse_error() {
    assert_eq!(ParseError::new("simple").to_string(), "simple");
}

#[test]
fn parse_error_with_pos() {
    assert_eq!(ParseError::new_with_pos("error somewhere", (1,2)).to_string(), "error somewhere <1:2>");
}

#[test]
fn parse_error_with_source() {
    assert_eq!(ParseError::new_with_source("error on error", ParseError::new("source")).to_string(), "error on error\nsource");
}

#[test]
fn parse_error_with_pos_and_source() {
    assert_eq!(ParseError::new_with_pos_source("test", (42, 26), ParseError::new("sourcy")).to_string(), "test <42:26>\nsourcy");
}

#[test]
fn error_compare_macro_errors() {
    assert_ne!(MacroError::InfiniteLoop("".to_owned()), MacroError::NotFound("zzz".to_owned()));
}

#[test]
fn parse_error_chain_of_sources() {
    let inner = ParseError::new_with_pos("inner", (0, 1234567890));
    let middle = ParseError::new_with_source("middle", inner);
    let outer = ParseError::new_with_pos_source("outer", (10, 9), middle);
    assert_eq!(outer.to_string(), "outer <10:9>\nmiddle\ninner <0:1234567890>");
}

#[test]
fn parse_error_source_is_kept() {
    let err = ParseError::new_with_source("top", ParseError::new("cause"));
    assert_eq!(err.source().map(|src| src.to_string()), Some("cause".to_owned()));
    assert!(ParseError::new("alone").source().is_none());
}

#[test]
fn parse_error_with_empty_message() {
    assert_eq!(ParseError::new("").to_string(), "");
    assert_eq!(ParseError::new_with_pos("", (7, 0)).to_string(), " <7:0>");
}
