use quire_code_rs::naming::{anonymous_segment, child_name, file_name, ix_ref, normalize_path};

#[test]
fn windows_paths_normalize_to_forward_slashes() {
    assert_eq!(normalize_path("src\\core\\lib.rs"), "src/core/lib.rs");
    assert_eq!(normalize_path("src//core///lib.rs"), "src/core/lib.rs");
    assert_eq!(normalize_path("./src/lib.rs"), "src/lib.rs");
    assert_eq!(
        file_name("agent-ix", "quire-code-rs", "src\\lib.rs"),
        "agent-ix/quire-code-rs/src/lib.rs"
    );
}

#[test]
fn file_names_carry_no_segment_separator() {
    let name = file_name("agent-ix", "quire-code-rs", "src/lib.rs");
    assert_eq!(name, "agent-ix/quire-code-rs/src/lib.rs");
    assert!(!name.contains("::"));
}

#[test]
fn free_function_name_has_the_documented_shape() {
    let file = file_name("agent-ix", "quire-code-rs", "src/lib.rs");
    assert_eq!(
        child_name(&file, "extract"),
        "agent-ix/quire-code-rs/src/lib.rs::extract"
    );
}

#[test]
fn org_prefix_keeps_same_named_repos_disjoint() {
    let a = file_name("agent-ix", "widgets", "src/lib.rs");
    let b = file_name("other-org", "widgets", "src/lib.rs");
    assert_ne!(a, b);
}

#[test]
fn anonymous_segments_are_ordinal_not_positional() {
    assert_eq!(anonymous_segment("closure", 0), "<closure#0>");
    assert_ne!(
        anonymous_segment("closure", 0),
        anonymous_segment("closure", 1)
    );
}

#[test]
fn ix_refs_carry_at_least_three_segments() {
    let name = file_name("agent-ix", "quire-code-rs", "src/lib.rs");
    let reference = ix_ref(&name);
    assert!(reference.starts_with("ix://"));
    let segments: Vec<_> = reference
        .trim_start_matches("ix://")
        .split('/')
        .filter(|s| !s.is_empty())
        .collect();
    assert!(segments.len() >= 3, "got {segments:?}");
}

#[test]
fn trailing_slashes_and_mixed_separators_collapse() {
    assert_eq!(normalize_path("a\\\\b//"), "a/b");
    assert_eq!(normalize_path(""), "");
    assert_eq!(anonymous_segment("impl", 12), "<impl#12>");
    assert_eq!(ix_ref("org/repo/x"), "ix://org/repo/x");
}

#[test]
fn normalizing_twice_is_normalizing_once() {
    for path in ["./src\\a//b/", "././/x", "a/./", "src/lib.rs", "", "./", ".//a"] {
        let once = normalize_path(path);
        assert_eq!(normalize_path(&once), once);
    }
}
