use quire_code_rs::facts::{ObjectType, Visibility};
use quire_code_rs::lang::Language;
use quire_code_rs::parse::SourceFile;
use quire_code_rs::syntax::{SyntaxNode, SyntaxTree};
use quire_code_rs::walk::parse_tree;

fn node(kind: &str, field: Option<&str>, start: usize, end: usize, parent: Option<usize>, children: Vec<usize>) -> SyntaxNode {
    SyntaxNode {
        kind: kind.to_string(),
        field: field.map(|f| f.to_string()),
        start_byte: start,
        end_byte: end,
        start_row: 0,
        start_column: start,
        end_row: 0,
        is_error: false,
        is_missing: false,
        has_error: false,
        is_named: true,
        parent,
        children,
    }
}

/// `pub fn f(x: u8) {}` as the Rust grammar shapes it.
fn one_function() -> (SourceFile, SyntaxTree) {
    let source = "pub fn f(x: u8) {}";
    let file = SourceFile::new("acme", "widgets", "src/lib.rs", Language::Rust, source);
    let tree = SyntaxTree {
        nodes: vec![
            node("source_file", None, 0, 18, None, vec![1]),
            node("function_item", None, 0, 18, Some(0), vec![2, 3, 4, 8]),
            node("visibility_modifier", None, 0, 3, Some(1), vec![]),
            node("identifier", Some("name"), 7, 8, Some(1), vec![]),
            node("parameters", Some("parameters"), 8, 15, Some(1), vec![5]),
            node("parameter", None, 9, 14, Some(4), vec![6, 7]),
            node("identifier", Some("pattern"), 9, 10, Some(5), vec![]),
            node("primitive_type", Some("type"), 12, 14, Some(5), vec![]),
            node("block", Some("body"), 16, 18, Some(1), vec![]),
        ],
    };
    (file, tree)
}

#[test]
fn a_walked_tree_yields_its_declarations_with_visibility_and_signature() {
    let (file, tree) = one_function();
    let parsed = parse_tree(&file, &tree);
    assert!(parsed.diagnostics.is_empty());
    assert_eq!(parsed.facts.len(), 2);
    assert_eq!(parsed.facts[0].object_type, ObjectType::CodeFile);
    let f = &parsed.facts[1];
    assert_eq!(f.object_type, ObjectType::Function);
    assert_eq!(f.kind, "function");
    assert_eq!(f.simple_name, "f");
    assert_eq!(f.visibility, Visibility::Public);
    assert_eq!(f.signature.as_deref(), Some("(u8)"));
    assert_eq!(f.span.start, 1);
    assert_eq!(f.parent.as_deref(), Some(parsed.file_qualified_name.as_str()));
    assert!(f.qualified_name.ends_with("::f"));
}

#[test]
fn an_error_root_yields_the_file_fact_and_one_diagnostic() {
    let (file, mut tree) = one_function();
    tree.nodes[0].is_error = true;
    tree.nodes[0].has_error = true;
    let parsed = parse_tree(&file, &tree);
    assert_eq!(parsed.facts.len(), 1);
    assert_eq!(parsed.diagnostics.len(), 1);
    assert_eq!(parsed.diagnostics[0].code, "parse_error");
    assert_eq!(parsed.diagnostics[0].line, Some(1));
    assert_eq!(parsed.diagnostics[0].column, Some(0));
}

#[test]
fn an_unmarked_function_is_private_and_an_anonymous_one_is_numbered() {
    let source = "fn () {}";
    let file = SourceFile::new("acme", "widgets", "src/lib.rs", Language::Rust, source);
    let tree = SyntaxTree {
        nodes: vec![
            node("source_file", None, 0, 8, None, vec![1]),
            node("function_item", None, 0, 8, Some(0), vec![2, 3]),
            node("parameters", Some("parameters"), 3, 5, Some(1), vec![]),
            node("block", Some("body"), 6, 8, Some(1), vec![]),
        ],
    };
    let parsed = parse_tree(&file, &tree);
    assert_eq!(parsed.facts.len(), 2);
    assert_eq!(parsed.facts[1].visibility, Visibility::Private);
    assert_eq!(parsed.facts[1].simple_name, "<function#0>");
    assert_eq!(parsed.facts[1].signature.as_deref(), Some("()"));
}

#[test]
fn a_walked_tree_records_relations_fields_returns_and_enclosing_types() {
    let source = "struct S { a: T } impl Tr for S { fn m() -> U {} }";
    let file = SourceFile::new("acme", "widgets", "src/lib.rs", Language::Rust, source);
    let tree = SyntaxTree {
        nodes: vec![
            node("source_file", None, 0, 50, None, vec![1, 7]),
            node("struct_item", None, 0, 17, Some(0), vec![2, 3]),
            node("type_identifier", Some("name"), 7, 8, Some(1), vec![]),
            node("field_declaration_list", Some("body"), 9, 17, Some(1), vec![4]),
            node("field_declaration", None, 11, 15, Some(3), vec![5, 6]),
            node("field_identifier", Some("name"), 11, 12, Some(4), vec![]),
            node("type_identifier", Some("type"), 14, 15, Some(4), vec![]),
            node("impl_item", None, 18, 50, Some(0), vec![8, 9, 10]),
            node("type_identifier", Some("trait"), 23, 25, Some(7), vec![]),
            node("type_identifier", Some("type"), 30, 31, Some(7), vec![]),
            node("declaration_list", Some("body"), 32, 50, Some(7), vec![11]),
            node("function_item", None, 34, 48, Some(10), vec![12, 13, 14, 15]),
            node("identifier", Some("name"), 37, 38, Some(11), vec![]),
            node("parameters", Some("parameters"), 38, 40, Some(11), vec![]),
            node("type_identifier", Some("return_type"), 44, 45, Some(11), vec![]),
            node("block", Some("body"), 46, 48, Some(11), vec![]),
        ],
    };
    let parsed = parse_tree(&file, &tree);
    assert_eq!(parsed.type_relations, vec![("S".to_string(), "Tr".to_string(), true)]);
    assert_eq!(parsed.field_types.get("S", "a"), Some("T"));
    assert_eq!(parsed.field_types.get("S", "b"), None);
    let m = parsed.facts.iter().find(|f| f.simple_name == "m").expect("the method is a fact");
    assert_eq!(parsed.return_types.get(m.qualified_name.as_str()), Some("U"));
    assert_eq!(parsed.enclosing_types.get("m@1"), Some("S"));
}
