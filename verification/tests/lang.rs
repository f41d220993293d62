use quire_code_rs::lang::Language;

#[test]
fn language_names_round_trip() {
    for lang in [
        Language::Rust,
        Language::TypeScript,
        Language::Tsx,
        Language::Python,
    ] {
        assert_eq!(Language::from_name(lang.as_str()), Some(lang));
    }
}

#[test]
fn language_from_path_reads_the_extension() {
    assert_eq!(Language::from_path("src/lib.rs"), Some(Language::Rust));
    assert_eq!(Language::from_path("ui/app.tsx"), Some(Language::Tsx));
    assert_eq!(Language::from_path("tool.py"), Some(Language::Python));
    assert_eq!(Language::from_path("README.md"), None);
    assert_eq!(Language::from_path("no-extension"), None);
}

#[test]
fn short_names_and_alternate_extensions_are_accepted() {
    assert_eq!(Language::from_name("ts"), Some(Language::TypeScript));
    assert_eq!(Language::from_name("py"), Some(Language::Python));
    assert_eq!(Language::from_name("java"), None);
    assert_eq!(Language::from_path("a/b.mts"), Some(Language::TypeScript));
    assert_eq!(Language::from_path("a/b.cts"), Some(Language::TypeScript));
    assert_eq!(Language::from_path("stubs.pyi"), Some(Language::Python));
}

#[test]
fn each_language_config_describes_its_grammar() {
    let rust = Language::Rust.config();
    assert!(rust.is_comment("line_comment"));
    assert!(rust.is_attribute("attribute_item"));
    assert!(rust.is_string("raw_string_literal"));
    assert!(rust.is_import("use_declaration"));
    assert!(!rust.is_import("import_statement"));
    let f = rust.decl_for("function_item").unwrap();
    assert_eq!(f.kind, "function");
    assert!(rust.decl_for("impl_item").is_none());
    let ts = Language::Tsx.config();
    assert_eq!(ts.decl_for("interface_declaration").unwrap().kind, "interface");
    let py = Language::Python.config();
    assert_eq!(py.decl_for("class_definition").unwrap().kind, "class");
    assert!(py.is_comment("comment"));
}

#[test]
fn every_grammar_loads() {
    for lang in [Language::Rust, Language::TypeScript, Language::Tsx, Language::Python] {
        assert!(quire_code_rs::syntax::parse_source("", lang).is_some(), "grammar loads for {:?}", lang);
    }
}
