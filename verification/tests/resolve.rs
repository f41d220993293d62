use quire_code_rs::edges::Reason;
use quire_code_rs::parse::CallSite;
use quire_code_rs::resolve::{imported_types, resolve_call, resolve_type_relation, LocalScope};
use quire_code_rs::table::{TextMap, TextRelation, TextSet};
use quire_code_rs::typeenv::{Corpus, RawBinding, TypeEnv, TypeSource};

fn corpus_with(methods: &[(&str, &str, &str)]) -> Corpus {
    let mut corpus = Corpus::default();
    for (owner_type, method, qualified) in methods {
        corpus.methods.insert(owner_type, method, qualified);
        corpus.types.insert(owner_type, &format!("demo/{owner_type}"));
    }
    corpus
}

fn call(receiver: Option<&str>, callee: &str) -> CallSite {
    CallSite {
        caller: "demo/caller".to_string(),
        scope: "f@1".to_string(),
        receiver: receiver.map(str::to_string),
        callee: callee.to_string(),
        line: 3,
    }
}

fn env_with(name: &str, owner_type: &str) -> TypeEnv {
    TypeEnv::build(
        &[RawBinding {
            scope: "f@1".to_string(),
            name: name.to_string(),
            source: TypeSource::Annotation(owner_type.to_string()),
        }],
        &TextMap::new(),
        &Corpus::default(),
    )
}

fn set_of(items: &[&str]) -> TextSet {
    let mut set = TextSet::new();
    for item in items {
        set.insert(item);
    }
    set
}

#[test]
fn a_typed_receiver_resolves_to_its_types_method() {
    let corpus = corpus_with(&[
        ("Store", "save", "demo/store.rs::Store::save"),
        ("Repo", "save", "demo/repo.rs::Repo::save"),
    ]);
    let env = env_with("s", "Store");
    let resolved = resolve_call(
        &call(Some("s"), "save"),
        &env,
        &corpus,
        &TextSet::new(),
        &LocalScope::default(),
    )
    .expect("resolves");
    assert_eq!(resolved.target, "demo/store.rs::Store::save");
    assert_eq!(resolved.reason, Reason::ReceiverTyped);
}

#[test]
fn an_ambiguous_receiver_yields_no_edge() {
    let corpus = corpus_with(&[
        ("Store", "save", "demo/store.rs::Store::save"),
        ("Repo", "save", "demo/repo.rs::Repo::save"),
    ]);
    let env = TypeEnv::default();
    assert_eq!(
        resolve_call(
            &call(Some("x"), "save"),
            &env,
            &corpus,
            &TextSet::new(),
            &LocalScope::default()
        ),
        None
    );
}

#[test]
fn a_known_receiver_type_lacking_the_method_does_not_fall_back() {
    let corpus = corpus_with(&[("Repo", "save", "demo/repo.rs::Repo::save")]);
    let env = env_with("s", "Store");
    assert_eq!(
        resolve_call(
            &call(Some("s"), "save"),
            &env,
            &corpus,
            &TextSet::new(),
            &LocalScope::default()
        ),
        None
    );
}

#[test]
fn import_scoping_narrows_before_name_matching() {
    let corpus = corpus_with(&[
        ("Store", "save", "demo/store.rs::Store::save"),
        ("Repo", "save", "demo/repo.rs::Repo::save"),
    ]);
    let env = TypeEnv::default();
    let imported = set_of(&["Store"]);
    let resolved = resolve_call(
        &call(Some("x"), "save"),
        &env,
        &corpus,
        &imported,
        &LocalScope::default(),
    )
    .expect("resolves");
    assert_eq!(resolved.target, "demo/store.rs::Store::save");
    assert_eq!(resolved.reason, Reason::ImportScoped);
}

#[test]
fn import_scoping_that_stays_ambiguous_yields_nothing() {
    let corpus = corpus_with(&[
        ("Store", "save", "demo/store.rs::Store::save"),
        ("Repo", "save", "demo/repo.rs::Repo::save"),
    ]);
    let env = TypeEnv::default();
    let imported = set_of(&["Store", "Repo"]);
    assert_eq!(
        resolve_call(
            &call(Some("x"), "save"),
            &env,
            &corpus,
            &imported,
            &LocalScope::default()
        ),
        None
    );
}

#[test]
fn a_unique_method_name_in_the_batch_resolves_by_name_match() {
    let corpus = corpus_with(&[("Store", "upsert", "demo/store.rs::Store::upsert")]);
    let env = TypeEnv::default();
    let resolved = resolve_call(
        &call(Some("x"), "upsert"),
        &env,
        &corpus,
        &TextSet::new(),
        &LocalScope::default(),
    )
    .expect("resolves");
    assert_eq!(resolved.reason, Reason::NameMatch);
}

#[test]
fn a_static_call_resolves_through_the_type_name() {
    let corpus = corpus_with(&[("Store", "open", "demo/store.rs::Store::open")]);
    let env = TypeEnv::default();
    let resolved = resolve_call(
        &call(Some("Store"), "open"),
        &env,
        &corpus,
        &TextSet::new(),
        &LocalScope::default(),
    )
    .expect("resolves");
    assert_eq!(resolved.reason, Reason::ReceiverTyped);
}

#[test]
fn a_free_call_resolves_only_when_the_name_is_unique() {
    let mut corpus = Corpus::default();
    corpus.functions.insert("helper", "demo/a.rs::helper");
    let env = TypeEnv::default();
    assert!(resolve_call(
        &call(None, "helper"),
        &env,
        &corpus,
        &TextSet::new(),
        &LocalScope::default()
    )
    .is_some());

    corpus.functions.insert("helper", "demo/b.rs::helper");
    assert_eq!(
        resolve_call(
            &call(None, "helper"),
            &env,
            &corpus,
            &TextSet::new(),
            &LocalScope::default()
        ),
        None
    );
}

#[test]
fn an_ambiguous_type_relation_resolves_to_nothing() {
    let mut corpus = Corpus::default();
    corpus.types.insert("Shape", "demo/a.rs::Shape");
    assert!(resolve_type_relation(&corpus, &LocalScope::default(), "Shape").is_some());

    corpus.types.insert("Shape", "demo/b.rs::Shape");
    assert_eq!(
        resolve_type_relation(&corpus, &LocalScope::default(), "Shape"),
        None
    );
}

#[test]
fn imported_types_include_own_and_imported_declarations() {
    let mut import_edges = TextRelation::new();
    import_edges.insert("a.ts", "b.ts");
    let mut types_by_file = TextRelation::new();
    types_by_file.insert("a.ts", "Local");
    types_by_file.insert("b.ts", "Shared");
    types_by_file.insert("c.ts", "Unreached");

    let reachable = imported_types("a.ts", &import_edges, &types_by_file);
    assert!(reachable.contains("Local"));
    assert!(reachable.contains("Shared"));
    assert!(!reachable.contains("Unreached"));
}

#[test]
fn a_local_declaration_wins_over_batch_ambiguity() {
    let mut corpus = corpus_with(&[
        ("Store", "save", "demo/a.rs::Store::save"),
        ("Store", "save", "demo/b.rs::Store::save"),
    ]);
    corpus.functions.insert("helper", "demo/a.rs::helper");
    corpus.functions.insert("helper", "demo/b.rs::helper");
    let mut local = LocalScope::default();
    local.methods.insert("Store", "save", "demo/a.rs::Store::save");
    local.functions.insert("helper", "demo/a.rs::helper");
    local.types.insert("Store", "demo/a.rs::Store");
    let env = env_with("s", "Store");
    let method = resolve_call(&call(Some("s"), "save"), &env, &corpus, &TextSet::new(), &local)
        .expect("the local method");
    assert_eq!(method.target, "demo/a.rs::Store::save");
    assert_eq!(method.reason, Reason::ReceiverTyped);
    let free = resolve_call(&call(None, "helper"), &env, &corpus, &TextSet::new(), &local)
        .expect("the local function");
    assert_eq!(free.target, "demo/a.rs::helper");
    assert_eq!(free.reason, Reason::NameMatch);
    assert_eq!(
        resolve_type_relation(&corpus, &local, "Store"),
        Some("demo/a.rs::Store".to_string())
    );
}
