use quire_code_rs::code_parse::{column_number, line_number, ParseError};
use quire_code_rs::lang::Language;

#[test]
fn every_variant_carries_file_and_line() {
    let syntax = ParseError::Syntax {
        file: "src/lib.rs".to_string(),
        line: 12,
        column: 4,
    };
    assert_eq!(syntax.file(), "src/lib.rs");
    assert_eq!(syntax.line(), 12);

    let no_tree = ParseError::NoTree {
        file: "src/lib.rs".to_string(),
        line: 1,
    };
    assert_eq!(no_tree.file(), "src/lib.rs");
    assert_eq!(no_tree.line(), 1);
}

#[test]
fn syntax_error_message_names_file_and_line() {
    let err = ParseError::Syntax {
        file: "src/store.rs".to_string(),
        line: 7,
        column: 2,
    };
    assert_eq!(err.to_string(), "src/store.rs:7: syntax error");
}

// This crate builds every grammar, so the language set is not narrowed by a
// build feature; the match below names the Rust variant and accepts no other
// at run time.
#[test]
fn rust_only_build_has_one_language_variant() {
    let only = Language::Rust;
    match only {
        Language::Rust => {}
        other => panic!("expected the Rust variant, got {other:?}"),
    }
}

#[test]
fn a_missing_tree_names_its_file_and_line() {
    let err = ParseError::NoTree {
        file: "a.py".to_string(),
        line: 1,
    };
    assert_eq!(err.to_string(), "a.py:1: parser produced no syntax tree");
}

#[test]
fn positions_are_one_based_and_saturate() {
    assert_eq!(line_number(0), 1);
    assert_eq!(line_number(41), 42);
    assert_eq!(line_number(u32::MAX as usize), u32::MAX);
    assert_eq!(column_number(5), 5);
    assert_eq!(column_number(u32::MAX as usize), u32::MAX);
}
