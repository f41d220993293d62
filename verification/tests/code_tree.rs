use quire_code_rs::code_parse::{has_declaration_structure_error, parse_file, ParseError, ParsedFile};
use quire_code_rs::lang::Language;

fn root_child_kinds(parsed: &ParsedFile) -> Vec<String> {
    let tree = parsed.tree();
    parsed
        .root_node()
        .children
        .iter()
        .map(|&c| tree.nodes[c].kind.clone())
        .collect()
}

fn shape(parsed: &ParsedFile) -> Vec<(String, usize, usize)> {
    parsed
        .tree()
        .nodes
        .iter()
        .map(|n| (n.kind.clone(), n.start_byte, n.end_byte))
        .collect()
}

#[test]
fn consumer_parses_rust_and_walks_the_tree() {
    let source = "pub struct Store {\n    pub n: u32,\n}\n\nimpl Store {\n    pub fn n(&self) -> u32 { self.n }\n}\n";
    let parsed = parse_file(Language::Rust, "src/store.rs", source).expect("parses cleanly");
    assert_eq!(root_child_kinds(&parsed), vec!["struct_item", "impl_item"]);
}

#[test]
fn consumer_parses_python_and_walks_the_tree() {
    let source = "def helper(x):\n    return x + 1\n";
    let parsed = parse_file(Language::Python, "tool/main.py", source).expect("parses cleanly");
    assert_eq!(parsed.root_node().kind, "module");
    let tree = parsed.tree();
    let first_named = parsed
        .root_node()
        .children
        .iter()
        .map(|&c| &tree.nodes[c])
        .find(|n| n.is_named)
        .expect("one top-level statement");
    assert_eq!(first_named.kind, "function_definition");
}

#[test]
fn consumer_parses_typescript_and_tsx_and_walks_the_tree() {
    let ts_source = "export function render(node: string): string { return node; }\n";
    let ts = parse_file(Language::TypeScript, "src/render.ts", ts_source).expect("parses cleanly");
    assert_eq!(ts.root_node().kind, "program");

    let tsx_source = "export function App() { return <div />; }\n";
    let tsx = parse_file(Language::Tsx, "src/App.tsx", tsx_source).expect("parses cleanly");
    assert_eq!(tsx.root_node().kind, "program");
}

#[test]
fn syntax_error_file_returns_diagnostic_not_empty_result() {
    let source = "pub fn broken(x: u32) -> u32 {\n    x +\n";
    let result = parse_file(Language::Rust, "src/broken.rs", source);
    match result {
        Err(ParseError::Syntax { file, line, .. }) => {
            assert_eq!(file, "src/broken.rs");
            assert!(line >= 1, "line is one-based and always present");
        }
        Err(other) => panic!("expected ParseError::Syntax, got {other:?}"),
        Ok(_) => panic!("a file with an unbalanced expression must not parse cleanly"),
    }
}

#[test]
fn body_local_syntax_error_still_returns_ok_with_a_walkable_tree() {
    let source = "pub fn broken() -> u32 { 1 + }\npub fn intact() -> u32 { 2 }\n";
    let parsed =
        parse_file(Language::Rust, "src/mid_edit.rs", source).expect("body-local error is Ok");
    assert!(
        parsed.root_node().has_error,
        "the body-local error is still visible to a caller that looks"
    );
    assert_eq!(
        root_child_kinds(&parsed),
        vec!["function_item", "function_item"],
        "both declarations keep their own recognizable, walkable kind"
    );
}

#[test]
fn syntax_error_file_returns_diagnostic_for_python_too() {
    let source = "def broken(\n    pass\n";
    let result = parse_file(Language::Python, "tool/broken.py", source);
    assert!(
        result.is_err(),
        "an unclosed parameter list must not parse cleanly"
    );
    let err = result.expect_err("checked above");
    assert_eq!(err.file(), "tool/broken.py");
}

#[test]
fn identical_input_yields_identical_tree_structure_across_independent_parses() {
    let source = "pub struct Store { pub n: u32 }\n\
                  impl Store {\n\
                 \x20   pub fn n(&self) -> u32 { self.n }\n\
                  }\n";

    let first = parse_file(Language::Rust, "fixtures/sample.rs", source).expect("parses cleanly");
    let second = parse_file(Language::Rust, "fixtures/sample.rs", source).expect("parses cleanly");

    assert_eq!(shape(&first), shape(&second));
}

#[test]
fn parsed_file_source_outlives_the_call_that_produced_it() {
    fn parse_and_return(source: &str) -> ParsedFile {
        parse_file(Language::Rust, "src/lib.rs", source).expect("parses cleanly")
    }

    let owned = String::from("pub fn kept() -> u32 { 7 }\n");
    let parsed = parse_and_return(&owned);
    assert_eq!(parsed.source(), owned.as_str());
    assert_eq!(parsed.file(), "src/lib.rs");
    assert_eq!(parsed.language(), Language::Rust);
}

#[test]
fn identical_input_yields_byte_identical_tree() {
    let source =
        "pub struct Store { pub n: u32 }\nimpl Store { pub fn n(&self) -> u32 { self.n } }\n";
    let first = parse_file(Language::Rust, "src/store.rs", source).expect("parses cleanly");
    let second = parse_file(Language::Rust, "src/store.rs", source).expect("parses cleanly");
    assert_eq!(shape(&first), shape(&second));
}

#[test]
fn never_panics_on_edge_case_input() {
    for source in ["", "}}}}", "\u{0}\u{0}\u{0}", "// just a comment\n"] {
        let _ = parse_file(Language::Rust, "src/edge.rs", source);
    }
}

#[test]
fn body_local_error_does_not_count_as_a_declaration_structure_error() {
    let source = "pub fn broken() -> u32 { 1 + }\npub fn intact() -> u32 { 2 }\n";
    let parsed = parse_file(Language::Rust, "src/lib.rs", source).expect("parses cleanly");
    assert!(parsed.root_node().has_error, "the body error is present");
    assert!(
        !has_declaration_structure_error(parsed.tree()),
        "a body-local error must not read as a declaration-structure error"
    );
    assert_eq!(
        root_child_kinds(&parsed),
        vec!["function_item", "function_item"],
        "both declarations keep their own recognizable kind"
    );
}

#[test]
fn unresolvable_top_level_item_counts_as_a_declaration_structure_error() {
    let source = "pub fn broken(x: u32) -> u32 {\n    x +\n";
    match parse_file(Language::Rust, "src/broken.rs", source) {
        Err(ParseError::Syntax { file, line, .. }) => {
            assert_eq!(file, "src/broken.rs");
            assert_eq!(line, 1);
        }
        other => panic!("expected ParseError::Syntax, got {other:?}"),
    }
}

#[test]
fn errors_from_several_files_collect_into_one_vec_outliving_their_sources() {
    fn diagnostics_for(files: &[(&str, &str)]) -> Vec<String> {
        let mut out = Vec::new();
        for (name, source) in files {
            let owned = source.to_string();
            if let Err(error) = parse_file(Language::Rust, name, &owned) {
                out.push(format!("{}:{}", error.file(), error.line()));
            }
        }
        out
    }

    let files = [
        ("src/broken.rs", "pub fn broken(x: u32) -> u32 {\n    x +\n"),
        ("src/clean.rs", "pub fn clean() -> u32 { 1 }\n"),
    ];
    let diagnostics = diagnostics_for(&files);
    assert_eq!(diagnostics, vec!["src/broken.rs:1".to_string()]);
}
