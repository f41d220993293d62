use quire_code_rs::tree_cli::{parse_tree_args, skipped_entry, TreeCommand, TREE_USAGE};

fn args(words: &[&str]) -> Vec<String> {
    words.iter().map(|w| w.to_string()).collect()
}

#[test]
fn the_documented_invocation_names_org_repo_and_root() {
    assert_eq!(
        parse_tree_args(args(&["--org", "agent-ix", "--repo", "demo", "tree"])),
        Ok(TreeCommand::Run {
            org: "agent-ix".into(),
            repo: "demo".into(),
            root: "tree".into()
        })
    );
    assert_eq!(
        parse_tree_args(args(&["tree", "--repo", "demo", "--org", "agent-ix", "other"])),
        Ok(TreeCommand::Run {
            org: "agent-ix".into(),
            repo: "demo".into(),
            root: "other".into()
        })
    );
}

#[test]
fn help_wins_and_unknown_flags_are_refused() {
    assert_eq!(parse_tree_args(args(&["--org", "a", "-h", "--bogus"])), Ok(TreeCommand::Help));
    assert_eq!(
        parse_tree_args(args(&["--verbose"])),
        Err("unknown flag --verbose".to_string())
    );
}

#[test]
fn a_missing_part_is_a_usage_error() {
    assert_eq!(
        parse_tree_args(args(&["--org", "a", "tree"])),
        Err(TREE_USAGE.to_string())
    );
    assert_eq!(
        parse_tree_args(args(&["--org", "a", "--repo", "b", "tree", "--org"])),
        Err(TREE_USAGE.to_string())
    );
    assert_eq!(parse_tree_args(Vec::new()), Err(TREE_USAGE.to_string()));
}

#[test]
fn hidden_build_and_package_directories_are_skipped() {
    assert!(skipped_entry(".git"));
    assert!(skipped_entry("target"));
    assert!(skipped_entry("node_modules"));
    assert!(!skipped_entry("src"));
    assert!(!skipped_entry("targets"));
}
