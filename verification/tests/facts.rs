use quire_code_rs::facts::{Diagnostic, ObjectType, Severity, Visibility};

#[test]
fn object_type_wire_names_match_the_consumer_contract() {
    assert_eq!(ObjectType::CodeFile.as_str(), "code_file");
    assert_eq!(ObjectType::Module.as_str(), "code_module");
    assert_eq!(ObjectType::Function.as_str(), "code_function");
    assert_eq!(ObjectType::Type.as_str(), "code_type");
}

#[test]
fn only_public_declarations_are_exported() {
    assert!(Visibility::Public.is_exported());
    assert!(!Visibility::Crate.is_exported());
    assert!(!Visibility::Private.is_exported());
    assert_eq!(Visibility::Public.as_str(), "public");
    assert_eq!(Visibility::Crate.as_str(), "crate");
    assert_eq!(Visibility::Private.as_str(), "private");
    assert_eq!(Visibility::default(), Visibility::Public);
}

#[test]
fn diagnostics_carry_their_code_position_and_severity() {
    let d = Diagnostic::parse_error("src/a.rs", "syntax error".to_string(), 3, 7);
    assert_eq!(d.code, "parse_error");
    assert_eq!(d.line, Some(3));
    assert_eq!(d.column, Some(7));
    assert_eq!(d.severity, Severity::Error);
    let f = Diagnostic::file_error("src/b.rs", "file_too_large", "too big".to_string());
    assert_eq!(f.code, "file_too_large");
    assert_eq!(f.line, None);
    assert_eq!(f.severity, Severity::Error);
    let u = Diagnostic::unresolved_import("src/c.ts", "./missing", 9);
    assert_eq!(u.code, "unresolved_import");
    assert_eq!(
        u.message,
        "relative import `./missing` names no file in the batch"
    );
    assert_eq!(u.line, Some(9));
    assert_eq!(u.column, None);
    assert_eq!(u.severity, Severity::Warning);
}
