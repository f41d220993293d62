use quire_code_rs::imports::{is_relative, resolve};
use quire_code_rs::lang::Language;
use quire_code_rs::table::TextSet;

fn paths(entries: &[&str]) -> TextSet {
    let mut set = TextSet::new();
    for entry in entries {
        set.insert(entry);
    }
    set
}

#[test]
fn relative_typescript_import_resolves_to_a_batch_path() {
    let batch = paths(&["src/store.ts", "src/app.ts"]);
    assert_eq!(
        resolve("./store", "src/app.ts", Language::TypeScript, &batch),
        Some("src/store.ts".to_string())
    );
}

#[test]
fn extensionless_specifiers_try_extensions_then_index_stems() {
    let batch = paths(&["src/widgets/index.ts", "src/app.ts"]);
    assert_eq!(
        resolve("./widgets", "src/app.ts", Language::TypeScript, &batch),
        Some("src/widgets/index.ts".to_string())
    );

    let py = paths(&["pkg/sub/__init__.py", "pkg/main.py"]);
    assert_eq!(
        resolve(".sub", "pkg/main.py", Language::Python, &py),
        Some("pkg/sub/__init__.py".to_string())
    );
}

#[test]
fn parent_relative_specifiers_walk_up() {
    let batch = paths(&["src/shared/util.ts", "src/views/app.ts"]);
    assert_eq!(
        resolve(
            "../shared/util",
            "src/views/app.ts",
            Language::TypeScript,
            &batch
        ),
        Some("src/shared/util.ts".to_string())
    );
}

#[test]
fn rust_module_paths_resolve_beneath_the_crate_root() {
    let batch = paths(&["src/lib.rs", "src/store.rs", "src/net/client.rs"]);
    assert_eq!(
        resolve("crate::store::Store", "src/lib.rs", Language::Rust, &batch),
        Some("src/store.rs".to_string())
    );
    assert_eq!(
        resolve(
            "crate::net::client::Client",
            "src/lib.rs",
            Language::Rust,
            &batch
        ),
        Some("src/net/client.rs".to_string())
    );
}

#[test]
fn rust_mod_rs_index_stem_resolves() {
    let batch = paths(&["src/lib.rs", "src/net/mod.rs"]);
    assert_eq!(
        resolve("crate::net::Client", "src/lib.rs", Language::Rust, &batch),
        Some("src/net/mod.rs".to_string())
    );
}

#[test]
fn bare_specifiers_are_not_relative() {
    assert!(!is_relative("react", Language::TypeScript));
    assert!(!is_relative("std::collections::BTreeMap", Language::Rust));
    assert!(!is_relative("os.path", Language::Python));

    assert!(is_relative("./store", Language::TypeScript));
    assert!(is_relative("crate::store", Language::Rust));
    assert!(is_relative(".sibling", Language::Python));
}

#[test]
fn an_unresolvable_relative_specifier_returns_none() {
    let batch = paths(&["src/app.ts"]);
    assert_eq!(
        resolve("./missing", "src/app.ts", Language::TypeScript, &batch),
        None
    );
}

#[test]
fn a_bare_specifier_resolves_to_nothing_even_when_a_file_matches() {
    let batch = paths(&["react.ts", "src/app.ts"]);
    assert_eq!(
        resolve("react", "src/app.ts", Language::TypeScript, &batch),
        None
    );
}

#[test]
fn python_parent_dots_walk_up_packages() {
    let batch = paths(&["pkg/util.py", "pkg/sub/main.py"]);
    assert_eq!(
        resolve("..util", "pkg/sub/main.py", Language::Python, &batch),
        Some("pkg/util.py".to_string())
    );
}

#[test]
fn self_and_super_paths_map_beside_the_importer() {
    let batch = paths(&["src/a/net.rs", "src/a/b.rs", "src/net.rs"]);
    assert_eq!(
        resolve("super::net::Client", "src/a/b.rs", Language::Rust, &batch),
        Some("src/a/net.rs".to_string())
    );
    assert_eq!(
        resolve("self::net::Client", "src/a/b.rs", Language::Rust, &batch),
        Some("src/a/net.rs".to_string())
    );
    assert_eq!(
        resolve("crate::net::Client", "src/a/b.rs", Language::Rust, &batch),
        Some("src/net.rs".to_string())
    );
}
