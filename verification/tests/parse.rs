use quire_code_rs::facts::{ObjectType, Visibility};
use quire_code_rs::lang::Language;
use quire_code_rs::parse::SourceFile;
use quire_code_rs::walk::{parse_file, ParsedFile};

    fn rust(content: &str) -> ParsedFile {
        parse_file(&SourceFile::new(
            "agent-ix",
            "quire-code-rs",
            "src/lib.rs",
            Language::Rust,
            content,
        ))
    }

    #[test]
    fn rust_visibility_modifiers_classify_public_crate_and_private() {
        let parsed = rust(
            "pub fn exported() {}\n\
             pub(crate) fn unit_wide() {}\n\
             pub(super) fn parent_wide() {}\n\
             fn hidden() {}\n",
        );
        let vis = |name: &str| {
            parsed
                .facts
                .iter()
                .find(|f| f.simple_name == name)
                .unwrap_or_else(|| panic!("no fact for {name}: {:?}", parsed.facts))
                .visibility
        };
        assert_eq!(vis("exported"), Visibility::Public);
        assert_eq!(vis("unit_wide"), Visibility::Crate);
        assert_eq!(vis("parent_wide"), Visibility::Crate);
        assert_eq!(vis("hidden"), Visibility::Private);
        assert!(
            Visibility::Public.is_exported() && !Visibility::Crate.is_exported(),
            "only `public` counts as an export for change tiering"
        );
    }

    #[test]
    fn typescript_export_and_access_modifiers_classify() {
        let parsed = parse_file(&SourceFile::new(
            "agent-ix",
            "ui",
            "src/store.ts",
            Language::TypeScript,
            "export function shipped(): void {}\n\
             function internal(): void {}\n\
             export class Store {\n\
            \x20 private secret(): void {}\n\
            \x20 protected shared(): void {}\n\
            \x20 open(): void {}\n\
            \x20 #hard(): void {}\n\
             }\n",
        ));
        let vis = |name: &str| {
            parsed
                .facts
                .iter()
                .find(|f| f.simple_name == name)
                .unwrap_or_else(|| panic!("no fact for {name}: {:?}", parsed.facts))
                .visibility
        };
        assert_eq!(vis("shipped"), Visibility::Public);
        assert_eq!(vis("internal"), Visibility::Private);
        assert_eq!(vis("Store"), Visibility::Public);
        assert_eq!(vis("secret"), Visibility::Private);
        assert_eq!(vis("shared"), Visibility::Crate);
        assert_eq!(vis("open"), Visibility::Public);
        assert_eq!(vis("#hard"), Visibility::Private);
    }

    #[test]
    fn python_underscore_convention_classifies_visibility() {
        let parsed = parse_file(&SourceFile::new(
            "agent-ix",
            "tool",
            "tool/main.py",
            Language::Python,
            "def helper():\n    pass\n\
             def _internal():\n    pass\n\
             def __hidden():\n    pass\n\
             class Store:\n\
            \x20   def __init__(self):\n        pass\n",
        ));
        let vis = |name: &str| {
            parsed
                .facts
                .iter()
                .find(|f| f.simple_name == name)
                .unwrap_or_else(|| panic!("no fact for {name}: {:?}", parsed.facts))
                .visibility
        };
        assert_eq!(vis("helper"), Visibility::Public);
        assert_eq!(vis("_internal"), Visibility::Crate);
        assert_eq!(vis("__hidden"), Visibility::Private);
        assert_eq!(vis("__init__"), Visibility::Public);
    }

    #[test]
    fn rust_trait_items_are_public_and_inherent_impl_items_are_not() {
        let parsed = rust(
            "pub trait Persist {\n\
            \x20   fn save(&self) {}\n\
             }\n\
             pub struct Store;\n\
             impl Persist for Store {\n\
            \x20   fn save(&self) {}\n\
             }\n\
             impl Store {\n\
            \x20   fn helper(&self) {}\n\
             }\n",
        );
        let by_name: Vec<_> = parsed
            .facts
            .iter()
            .filter(|f| f.simple_name == "save")
            .map(|f| f.visibility)
            .collect();
        assert_eq!(
            by_name,
            vec![Visibility::Public, Visibility::Public],
            "trait default body and trait impl both reach through the trait"
        );
        let helper = parsed
            .facts
            .iter()
            .find(|f| f.simple_name == "helper")
            .expect("inherent impl method");
        assert_eq!(helper.visibility, Visibility::Private);
    }

    #[test]
    fn signature_renders_parameter_types_and_return_type() {
        let parsed = rust(
            "impl Store {\n\
            \x20   pub fn parse(&self, input: &str, limit: u32) -> Result<Doc, Error> {}\n\
             }\n",
        );
        let parse_fn = parsed
            .facts
            .iter()
            .find(|f| f.simple_name == "parse")
            .expect("method fact");
        assert_eq!(
            parse_fn.signature.as_deref(),
            Some("(self, &str, u32) -> Result<Doc, Error>")
        );

        let ts = parse_file(&SourceFile::new(
            "agent-ix",
            "ui",
            "src/store.ts",
            Language::TypeScript,
            "export function render(node: Node, depth: number): string { return ''; }\n",
        ));
        let render = ts
            .facts
            .iter()
            .find(|f| f.simple_name == "render")
            .expect("function fact");
        assert_eq!(
            render.signature.as_deref(),
            Some("(Node, number) -> string")
        );
    }

    #[test]
    fn signature_is_stable_across_reformatting_and_comments() {
        let compact = rust("pub fn parse(input: &str, limit: u32) -> Doc {}\n");
        let sprawling = rust(
            "pub fn parse(\n\
            \x20   // the source text\n\
            \x20   input:   &str,\n\
            \x20   /* how many */ limit:\n\
            \x20       u32,\n\
             ) -> Doc\n\
             {}\n",
        );
        let signature = |parsed: &ParsedFile| {
            parsed
                .facts
                .iter()
                .find(|f| f.simple_name == "parse")
                .expect("function fact")
                .signature
                .clone()
        };
        assert_eq!(signature(&compact), signature(&sprawling));
        assert_eq!(signature(&compact).as_deref(), Some("(&str, u32) -> Doc"));
    }

    #[test]
    fn unannotated_parameters_render_names_and_non_callables_have_no_signature() {
        let parsed = parse_file(&SourceFile::new(
            "agent-ix",
            "tool",
            "tool/main.py",
            Language::Python,
            "def merge(left, right, *rest):\n    pass\nclass Store:\n    pass\n",
        ));
        let merge = parsed
            .facts
            .iter()
            .find(|f| f.simple_name == "merge")
            .expect("function fact");
        assert_eq!(merge.signature.as_deref(), Some("(left, right, *rest)"));

        let store = parsed
            .facts
            .iter()
            .find(|f| f.simple_name == "Store")
            .expect("class fact");
        assert_eq!(store.signature, None, "a type has no parameter list");
        let file = parsed
            .facts
            .iter()
            .find(|f| f.object_type == ObjectType::CodeFile)
            .expect("file fact");
        assert_eq!(file.signature, None);
        assert_eq!(file.visibility, Visibility::Public);
    }

    #[test]
    fn parameter_type_change_moves_the_signature_not_the_identity() {
        let before = rust("pub fn parse(input: &str) -> Doc {}\n");
        let after = rust("pub fn parse(input: &[u8]) -> Doc {}\n");
        let fact_of = |parsed: &ParsedFile| {
            parsed
                .facts
                .iter()
                .find(|f| f.simple_name == "parse")
                .expect("function fact")
                .clone()
        };
        let (a, b) = (fact_of(&before), fact_of(&after));
        assert_eq!(a.qualified_name, b.qualified_name, "identity is name-keyed");
        assert_ne!(
            a.signature, b.signature,
            "a parameter-type change must not read as a body-only edit"
        );

        let with_helper = rust("pub fn parse(input: &str) -> Doc {}\nfn helper() {}\n");
        let helper = with_helper
            .facts
            .iter()
            .find(|f| f.simple_name == "helper")
            .expect("helper fact");
        assert!(
            !helper.visibility.is_exported(),
            "a private helper is not part of the export set"
        );
        assert_eq!(
            fact_of(&with_helper),
            a,
            "adding a private helper leaves the existing declaration untouched"
        );
    }

    #[test]
    fn rust_fixture_yields_every_fact_type() {
        let parsed = rust(
            r#"
mod store {
    pub struct Store { pub n: u32 }
    pub enum Mode { On, Off }
    pub trait Persist { fn save(&self); }
    impl Store {
        pub fn upsert(&self) {}
    }
    pub fn helper() {}
}
"#,
        );
        let types: Vec<_> = parsed
            .facts
            .iter()
            .map(|f| f.object_type)
            .collect::<std::collections::BTreeSet<_>>()
            .into_iter()
            .collect();
        assert_eq!(
            types,
            vec![
                ObjectType::CodeFile,
                ObjectType::Module,
                ObjectType::Function,
                ObjectType::Type
            ]
        );
    }

    #[test]
    fn methods_are_named_by_their_implementing_type() {
        let parsed = rust(
            r#"
pub struct Store;
impl Store {
    pub fn upsert(&self) {}
}
trait Persist { fn save(&self); }
impl Persist for Store {
    fn save(&self) {}
}
"#,
        );
        let names: Vec<_> = parsed
            .facts
            .iter()
            .filter(|f| f.object_type == ObjectType::Function)
            .map(|f| f.qualified_name.as_str())
            .collect();
        assert!(
            names.contains(&"agent-ix/quire-code-rs/src/lib.rs::Store::upsert"),
            "got {names:?}"
        );
        assert!(
            names.contains(&"agent-ix/quire-code-rs/src/lib.rs::Store::save"),
            "got {names:?}"
        );
    }

    #[test]
    fn an_empty_file_still_yields_its_file_fact() {
        let parsed = rust("");
        assert_eq!(parsed.facts.len(), 1);
        assert_eq!(parsed.facts[0].object_type, ObjectType::CodeFile);
    }

    #[test]
    fn facts_carry_kind_and_one_based_spans() {
        let parsed = rust("pub fn first() {}\n");
        let func = parsed
            .facts
            .iter()
            .find(|f| f.object_type == ObjectType::Function)
            .expect("function fact");
        assert_eq!(func.kind, "function");
        assert_eq!(func.span.start, 1);
        assert!(func.span.end >= func.span.start);
    }

    #[test]
    fn facts_are_ordered_by_start_position() {
        let parsed = rust("fn a() {}\nfn b() {}\nfn c() {}\n");
        let lines: Vec<_> = parsed
            .facts
            .iter()
            .filter(|f| f.object_type == ObjectType::Function)
            .map(|f| f.span.start)
            .collect();
        let mut sorted = lines.clone();
        sorted.sort_unstable();
        assert_eq!(lines, sorted);
    }

    #[test]
    fn a_malformed_declaration_does_not_sink_its_siblings() {
        let parsed = rust("fn good() {}\nfn broken( {\nfn also_good() {}\n");
        assert!(
            !parsed.diagnostics.is_empty(),
            "a syntax error should be diagnosed"
        );
        let names: Vec<_> = parsed
            .facts
            .iter()
            .map(|f| f.simple_name.as_str())
            .collect();
        assert!(names.contains(&"good"), "got {names:?}");
    }

    #[test]
    fn an_unparseable_declaration_contributes_no_fact() {
        let parsed = rust("fn good() {}\nfn broken( {\nfn also_good() {}\n");
        let names: Vec<_> = parsed
            .facts
            .iter()
            .map(|f| f.simple_name.as_str())
            .collect();
        assert!(names.contains(&"good"), "got {names:?}");
        assert!(
            !names.contains(&"broken"),
            "a declaration the grammar could not resolve must yield no fact: {names:?}"
        );
    }

    #[test]
    fn a_body_error_does_not_suppress_the_declaration() {
        let parsed = rust("fn outer() {\n    let x = ;\n}\nfn after() {}\n");
        let names: Vec<_> = parsed
            .facts
            .iter()
            .map(|f| f.simple_name.as_str())
            .collect();
        assert!(
            names.contains(&"outer"),
            "a typo in the body must not cost the function its node: {names:?}"
        );
        assert!(names.contains(&"after"), "got {names:?}");
        assert!(
            parsed.diagnostics.iter().any(|d| d.code == "parse_error"),
            "the error is still diagnosed"
        );
    }

    #[test]
    fn parse_diagnostics_carry_a_position() {
        let parsed = rust("fn good() {}\nfn broken( {\n");
        let diag = parsed
            .diagnostics
            .iter()
            .find(|d| d.code == "parse_error")
            .expect("parse error diagnostic");
        assert_eq!(diag.path, "src/lib.rs");
        assert!(diag.line.is_some());
    }

    #[test]
    fn arbitrary_input_never_panics() {
        for content in ["", "\0\0\0", "((((((", "🙂🙂🙂", "fn"] {
            let parsed = rust(content);
            assert!(!parsed.facts.is_empty(), "code_file fact is always present");
        }
    }

    #[test]
    fn python_fixture_yields_classes_and_functions() {
        let parsed = parse_file(&SourceFile::new(
            "agent-ix",
            "tool",
            "tool/main.py",
            Language::Python,
            "class Store:\n    def upsert(self):\n        pass\n\ndef helper():\n    pass\n",
        ));
        let names: Vec<_> = parsed
            .facts
            .iter()
            .map(|f| f.qualified_name.as_str())
            .collect();
        assert!(
            names.contains(&"agent-ix/tool/tool/main.py::Store"),
            "got {names:?}"
        );
        assert!(
            names.contains(&"agent-ix/tool/tool/main.py::Store::upsert"),
            "got {names:?}"
        );
        assert!(
            names.contains(&"agent-ix/tool/tool/main.py::helper"),
            "got {names:?}"
        );
    }

    #[test]
    fn only_in_file_namespaces_yield_module_facts() {
        let python = parse_file(&SourceFile::new(
            "agent-ix",
            "tool",
            "tool/main.py",
            Language::Python,
            "class Store:\n    pass\n",
        ));
        assert!(
            !python
                .facts
                .iter()
                .any(|f| f.object_type == ObjectType::Module),
            "a Python file is its own module; a second node would give one \
             construct two identities"
        );

        let rust_mod = rust("pub mod inner {\n    pub fn f() {}\n}\n");
        assert!(
            rust_mod
                .facts
                .iter()
                .any(|f| f.object_type == ObjectType::Module),
            "a Rust `mod` block is a namespace within the file"
        );

        let ts_namespace = parse_file(&SourceFile::new(
            "agent-ix",
            "ui",
            "src/app.ts",
            Language::TypeScript,
            "export namespace Inner {\n  export function f(): void {}\n}\n",
        ));
        assert!(
            ts_namespace
                .facts
                .iter()
                .any(|f| f.object_type == ObjectType::Module),
            "a TypeScript namespace is a namespace within the file: {:?}",
            ts_namespace.facts
        );
    }

    #[test]
    fn typescript_fixture_yields_classes_interfaces_and_aliases() {
        let parsed = parse_file(&SourceFile::new(
            "agent-ix",
            "ui",
            "src/store.ts",
            Language::TypeScript,
            "export interface Shape { n: number }\n\
             export type Alias = Shape;\n\
             export class Store {\n  upsert(): void {}\n}\n",
        ));
        let kinds: Vec<_> = parsed.facts.iter().map(|f| f.kind).collect();
        assert!(kinds.contains(&"interface"), "got {kinds:?}");
        assert!(kinds.contains(&"type_alias"), "got {kinds:?}");
        assert!(kinds.contains(&"class"), "got {kinds:?}");
        assert!(kinds.contains(&"method"), "got {kinds:?}");
    }

    #[test]
    fn tsx_parses_with_its_own_grammar() {
        let parsed = parse_file(&SourceFile::new(
            "agent-ix",
            "ui",
            "src/App.tsx",
            Language::Tsx,
            "export class App {\n  render() { return <div />; }\n}\n",
        ));
        assert!(
            parsed.diagnostics.iter().all(|d| d.code != "parse_error"),
            "TSX should parse cleanly: {:?}",
            parsed.diagnostics
        );
        assert!(parsed.facts.iter().any(|f| f.kind == "class"));
    }


#[test]
fn the_file_fact_spans_the_lines_str_lines_counts() {
    assert_eq!(rust("a\n").facts[0].span.end, 1);
    assert_eq!(rust("a\nb").facts[0].span.end, 2);
    assert_eq!(rust("a\n\nb\n").facts[0].span.end, 3);
    assert_eq!(rust("").facts[0].span.end, 1);
}

#[test]
fn a_file_above_the_bound_is_refused_with_its_size() {
    let content = "a".repeat(8 * 1024 * 1024 + 1);
    let parsed = rust(&content);
    assert_eq!(parsed.facts.len(), 1);
    assert!(parsed.imports.is_empty() && parsed.comments.is_empty() && parsed.calls.is_empty());
    assert_eq!(parsed.diagnostics.len(), 1);
    let d = &parsed.diagnostics[0];
    assert_eq!(d.code, "file_too_large");
    assert_eq!(d.message, format!("file is {} bytes, above the 8388608-byte extraction bound", content.len()));
    assert_eq!(d.path, "src/lib.rs");
    assert_eq!(d.line, None);
    assert_eq!(d.column, None);
    assert_eq!(d.severity, quire_code_rs::facts::Severity::Error);
}
