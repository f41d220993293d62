use quire_code_rs::table::TextMap;
use quire_code_rs::typeenv::{Corpus, RawBinding, TypeEnv, TypeSource, MAX_ITERATIONS};

fn corpus() -> Corpus {
    let mut corpus = Corpus::default();
    corpus.types.insert("Store", "demo/src/store.rs::Store");
    corpus
        .methods
        .insert("Store", "get", "demo/src/store.rs::Store::get");
    corpus
        .functions
        .insert("make_store", "demo/src/store.rs::make_store");
    corpus
        .return_types
        .insert("demo/src/store.rs::make_store", "Store");
    corpus
        .return_types
        .insert("demo/src/store.rs::Store::get", "Row");
    corpus.field_types.insert("Store", "inner", "Inner");
    corpus
}

fn binding(scope: &str, name: &str, source: TypeSource) -> RawBinding {
    RawBinding {
        scope: scope.to_string(),
        name: name.to_string(),
        source,
    }
}

#[test]
fn annotations_resolve_directly() {
    let env = TypeEnv::build(
        &[binding("", "s", TypeSource::Annotation("Store".into()))],
        &TextMap::new(),
        &corpus(),
    );
    assert_eq!(env.lookup("", "s"), Some("Store"));
}

#[test]
fn copy_chains_resolve_in_either_order() {
    let reverse_order = [
        binding("", "c", TypeSource::Copy("b".into())),
        binding("", "b", TypeSource::Copy("a".into())),
        binding("", "a", TypeSource::Annotation("Store".into())),
    ];
    let env = TypeEnv::build(&reverse_order, &TextMap::new(), &corpus());
    assert_eq!(env.lookup("", "a"), Some("Store"));
    assert_eq!(env.lookup("", "b"), Some("Store"));
    assert_eq!(env.lookup("", "c"), Some("Store"));
}

#[test]
fn call_result_bindings_resolve_from_declared_return_types() {
    let env = TypeEnv::build(
        &[binding(
            "",
            "s",
            TypeSource::CallResult("make_store".into()),
        )],
        &TextMap::new(),
        &corpus(),
    );
    assert_eq!(env.lookup("", "s"), Some("Store"));
}

#[test]
fn field_and_method_chains_resolve() {
    let bindings = [
        binding("", "s", TypeSource::CallResult("make_store".into())),
        binding(
            "",
            "i",
            TypeSource::FieldAccess {
                receiver: "s".into(),
                field: "inner".into(),
            },
        ),
        binding(
            "",
            "r",
            TypeSource::MethodCallResult {
                receiver: "s".into(),
                method: "get".into(),
            },
        ),
    ];
    let env = TypeEnv::build(&bindings, &TextMap::new(), &corpus());
    assert_eq!(env.lookup("", "i"), Some("Inner"));
    assert_eq!(env.lookup("", "r"), Some("Row"));
}

#[test]
fn local_bindings_do_not_leak_to_file_scope() {
    let bindings = [
        binding("", "s", TypeSource::Annotation("Store".into())),
        binding("f@10", "s", TypeSource::Annotation("Other".into())),
    ];
    let env = TypeEnv::build(&bindings, &TextMap::new(), &corpus());
    assert_eq!(env.lookup("f@10", "s"), Some("Other"));
    assert_eq!(env.lookup("", "s"), Some("Store"));
    assert_eq!(env.lookup("g@20", "s"), Some("Store"));
}

#[test]
fn cyclic_bindings_terminate_without_guessing() {
    let bindings = [
        binding("", "a", TypeSource::Copy("b".into())),
        binding("", "b", TypeSource::Copy("a".into())),
    ];
    let env = TypeEnv::build(&bindings, &TextMap::new(), &corpus());
    assert_eq!(env.lookup("", "a"), None);
    assert_eq!(env.lookup("", "b"), None);
    assert!(env.iterations <= MAX_ITERATIONS);
}

#[test]
fn a_long_chain_converges_well_inside_the_bound() {
    let mut bindings = vec![binding("", "v0", TypeSource::Annotation("Store".into()))];
    for i in 1..8 {
        bindings.push(binding(
            "",
            &format!("v{i}"),
            TypeSource::Copy(format!("v{}", i - 1)),
        ));
    }
    bindings.reverse();
    let env = TypeEnv::build(&bindings, &TextMap::new(), &corpus());
    assert_eq!(env.lookup("", "v7"), Some("Store"));
    assert!(!env.hit_iteration_bound);
}

#[test]
fn self_resolves_to_the_enclosing_type() {
    let mut enclosing = TextMap::new();
    enclosing.insert("upsert@5", "Store");
    let env = TypeEnv::build(&[], &enclosing, &corpus());
    assert_eq!(env.lookup("upsert@5", "self"), Some("Store"));
    assert_eq!(env.lookup("upsert@5", "this"), Some("Store"));
    assert_eq!(env.lookup("elsewhere@9", "self"), None);
}

#[test]
fn an_ambiguous_function_name_yields_no_binding() {
    let mut c = corpus();
    c.functions
        .insert("make_store", "demo/src/other.rs::make_store");
    let env = TypeEnv::build(
        &[binding(
            "",
            "s",
            TypeSource::CallResult("make_store".into()),
        )],
        &TextMap::new(),
        &c,
    );
    assert_eq!(env.lookup("", "s"), None, "ambiguity must not guess");
}

#[test]
fn the_first_direct_binding_of_a_name_wins() {
    let bindings = [
        binding("", "s", TypeSource::Annotation("Store".into())),
        binding("", "s", TypeSource::Constructor("Other".into())),
    ];
    let env = TypeEnv::build(&bindings, &TextMap::new(), &corpus());
    assert_eq!(env.lookup("", "s"), Some("Store"));
    assert_eq!(env.iterations, 1);
}

#[test]
fn a_chain_longer_than_the_bound_stops_at_the_bound() {
    let mut bindings = vec![binding("", "v0", TypeSource::Annotation("Store".into()))];
    for i in 1..=(MAX_ITERATIONS + 3) {
        bindings.push(binding(
            "",
            &format!("v{i}"),
            TypeSource::Copy(format!("v{}", i - 1)),
        ));
    }
    bindings.reverse();
    let env = TypeEnv::build(&bindings, &TextMap::new(), &corpus());
    assert!(env.hit_iteration_bound);
    assert_eq!(env.iterations, MAX_ITERATIONS);
    assert_eq!(env.lookup("", "v1"), Some("Store"));
    assert_eq!(env.lookup("", &format!("v{}", MAX_ITERATIONS + 3)), None);
}
