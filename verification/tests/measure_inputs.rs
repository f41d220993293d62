use quire_code_rs::measurement::{DEFINITION_VERSION, METRIC, PLAN_ID};
use quire_code_rs::producer::{
    check_complete_report, IncompleteReport,
    check_grammar_pins, full_revision, inside_source_tree, locked_version, normalize_digest,
    parse_grammar, shell_quote, supported, usage, valid_digest, validate_pins,
    validate_plan_semantics, Args, GrammarPinError, PLAN_DECISION, PLAN_SAMPLING,
};

fn valid_args() -> Vec<String> {
    [
        ("--repo-root", "."),
        ("--corpus", "../quire-corpus"),
        ("--extractor", "target/release/extract_tree"),
        ("--quire", "quire"),
        ("--python", "python3"),
        ("--output-dir", "target/measurement"),
        ("--timestamp", "2026-08-31T00:00:00Z"),
        (
            "--source-revision",
            "aaaaaaaaaaaaaaaaaaaaaaaaaaaaaaaaaaaaaaaa",
        ),
        (
            "--corpus-source-revision",
            "bbbbbbbbbbbbbbbbbbbbbbbbbbbbbbbbbbbbbbbb",
        ),
        (
            "--scorer-revision",
            "bbbbbbbbbbbbbbbbbbbbbbbbbbbbbbbbbbbbbbbb",
        ),
        (
            "--config-digest",
            "sha256:cccccccccccccccccccccccccccccccccccccccccccccccccccccccccccccccc",
        ),
        ("--grammar", "python=tree-sitter-python@0.25.0"),
        ("--grammar", "rust=tree-sitter-rust@0.24.2"),
        ("--grammar", "tsx=tree-sitter-typescript@0.23.2"),
        ("--grammar", "typescript=tree-sitter-typescript@0.23.2"),
        ("--node-version", "24.15.0"),
        ("--rust-version", "1.95.0"),
        ("--python-version", "3.14.7"),
        ("--source-remote", "local-source"),
        ("--corpus-remote", "local-corpus"),
    ]
    .into_iter()
    .flat_map(|(flag, value)| [flag.to_string(), value.to_string()])
    .collect()
}

fn without_flag(args: &[String], missing: &str) -> Vec<String> {
    args.chunks_exact(2)
        .filter(|pair| pair[0] != missing)
        .flat_map(|pair| pair.iter().cloned())
        .collect()
}

const LOCK: &str = "version = 4\n\n[[package]]\nname = \"regex\"\nversion = \"1.11.1\"\n\n[[package]]\nname = \"tree-sitter-python\"\nversion = \"0.25.0\"\nsource = \"registry+https://github.com/rust-lang/crates.io-index\"\n\n[[package]]\nname = \"tree-sitter-rust\"\nversion = \"0.24.2\"\n\n[[package]]\nname = \"tree-sitter-typescript\"\nversion = \"0.23.2\"\n";

fn good_plan() -> String {
    format!(
        "---\nid: {PLAN_ID}\ntype: MeasurementPlan\nstatus: active\nmetric: {METRIC}\ndefinition_version: {DEFINITION_VERSION}\nplan:\n{PLAN_SAMPLING}\n{PLAN_DECISION}\n---\n\n# Graph quality observation\n"
    )
}

#[test]
fn parser_names_every_missing_identity_before_any_output_exists() {
    let args = valid_args();
    for missing in [
        "--source-revision",
        "--corpus-source-revision",
        "--scorer-revision",
        "--config-digest",
        "--timestamp",
        "--node-version",
        "--rust-version",
        "--python-version",
        "--source-remote",
        "--corpus-remote",
    ] {
        let error = Args::parse(without_flag(&args, missing)).err().unwrap();
        assert!(error.contains(missing), "{missing}: {error}");
    }

    let parsed = Args::parse(without_flag(&args, "--grammar")).unwrap();
    assert_eq!(validate_pins(&parsed).unwrap_err(), "missing --grammar");
    assert!(
        Args::parse(Vec::new()).is_err(),
        "failed runs produce no stdout payload"
    );
}

#[test]
fn grammar_parser_is_closed_and_requires_a_pinned_revision() {
    assert!(parse_grammar("rust=tree-sitter-rust@0.24.2".into()).is_ok());
    assert!(parse_grammar("rust=tree-sitter-rust".into()).is_err());
    let parsed = Args::parse(valid_args()).unwrap();
    check_grammar_pins(LOCK, &parsed.grammars).unwrap();
    let mut bad = parsed.grammars;
    bad[0].revision = "0.0.0".into();
    assert!(check_grammar_pins(LOCK, &bad).is_err());
}

#[test]
fn measurement_plan_must_remain_active_and_match_the_governed_decision() {
    let good = good_plan();
    validate_plan_semantics(&good).unwrap();
    for (from, to) in [
        ("status: active", "status: retired"),
        ("metric: graph_quality", "metric: other"),
        (
            "definition_version: quire-code.graph-quality-v1",
            "definition_version: drifted",
        ),
        (
            "decision_rule: reject a measured run with any wrong heuristic edge",
            "decision_rule: accept all measured runs",
        ),
    ] {
        let bad = good.replace(from, to);
        assert!(validate_plan_semantics(&bad).is_err(), "accepted {to}");
    }
}

#[test]
fn a_plan_without_frontmatter_is_refused_by_name() {
    assert_eq!(
        validate_plan_semantics("# no frontmatter\n").unwrap_err(),
        "MP-001 has no YAML frontmatter"
    );
    assert_eq!(
        validate_plan_semantics("---\nid: MP-001\n").unwrap_err(),
        "MP-001 has no YAML frontmatter"
    );
    let drifted = good_plan().replace("status: active", "status: retired");
    assert_eq!(
        validate_plan_semantics(&drifted).unwrap_err(),
        "MP-001 semantic mismatch: expected `status: active`"
    );
}

#[test]
fn a_well_formed_command_line_parses_to_its_values() {
    let parsed = Args::parse(valid_args()).unwrap();
    assert_eq!(parsed.repo_root, ".");
    assert_eq!(parsed.python, "python3");
    assert_eq!(parsed.grammars.len(), 4);
    assert_eq!(parsed.grammars[1].language, "rust");
    assert_eq!(parsed.grammars[1].grammar, "tree-sitter-rust");
    assert_eq!(parsed.grammars[1].revision, "0.24.2");
    validate_pins(&parsed).unwrap();
}

#[test]
fn malformed_command_lines_name_what_is_wrong() {
    let err = Args::parse(vec!["stray".into()]).unwrap_err();
    assert_eq!(err, format!("unexpected argument stray\n{}", usage()));
    assert_eq!(
        Args::parse(vec!["--corpus".into()]).unwrap_err(),
        "--corpus requires a value"
    );
    assert_eq!(
        Args::parse(vec!["--colour".into(), "x".into()]).unwrap_err(),
        "unknown option --colour"
    );
    assert_eq!(
        Args::parse(vec![
            "--corpus".into(),
            "a".into(),
            "--corpus".into(),
            "b".into()
        ])
        .unwrap_err(),
        "duplicate option --corpus"
    );
    let mut args = valid_args();
    args.push("--grammar".into());
    args.push("rust=tree-sitter-rust".into());
    assert_eq!(
        Args::parse(args).unwrap_err(),
        "invalid --grammar rust=tree-sitter-rust; expected language=grammar@revision"
    );
    assert_eq!(
        Args::parse(without_flag(&valid_args(), "--repo-root")).unwrap_err(),
        "missing --repo-root"
    );
}

#[test]
fn pins_must_be_full_and_consistent() {
    let mut parsed = Args::parse(valid_args()).unwrap();
    parsed.scorer_revision = "c".repeat(40);
    assert_eq!(
        validate_pins(&parsed).unwrap_err(),
        "--scorer-revision must equal --corpus-source-revision because score.py is loaded from that checkout"
    );
    let mut short = Args::parse(valid_args()).unwrap();
    short.source_revision = "abc".into();
    assert_eq!(
        validate_pins(&short).unwrap_err(),
        "--source-revision must be a full lowercase 40-hex revision"
    );
    let mut java = Args::parse(valid_args()).unwrap();
    java.grammars[0].language = "java".into();
    assert_eq!(
        validate_pins(&java).unwrap_err(),
        "unknown grammar language java"
    );
    let mut digest = Args::parse(valid_args()).unwrap();
    digest.config_digest = "sha256:ABC".into();
    assert_eq!(
        validate_pins(&digest).unwrap_err(),
        "--config-digest must be sha256 plus 64 lowercase hex digits"
    );
}

#[test]
fn grammar_values_split_at_the_first_equals_and_last_at() {
    let g = parse_grammar("tsx=@scope/grammar@1.2.3".into()).unwrap();
    assert_eq!(g.language, "tsx");
    assert_eq!(g.grammar, "@scope/grammar");
    assert_eq!(g.revision, "1.2.3");
    assert_eq!(
        parse_grammar("=g@1".into()).unwrap_err(),
        "invalid --grammar =g@1"
    );
    assert_eq!(
        parse_grammar("no-equals".into()).unwrap_err(),
        "invalid --grammar no-equals; expected language=grammar@revision"
    );
}

#[test]
fn lock_versions_are_read_per_package_block() {
    assert_eq!(locked_version(LOCK, "tree-sitter-rust").unwrap(), "0.24.2");
    assert_eq!(locked_version(LOCK, "regex").unwrap(), "1.11.1");
    assert_eq!(
        locked_version(LOCK, "serde").unwrap_err(),
        "Cargo.lock has no package serde"
    );
    assert_eq!(
        locked_version("[[package]]\nname = \"x\"\n", "x").unwrap_err(),
        "Cargo.lock package x has no version"
    );
    assert_eq!(
        locked_version("[[package]]\r\nname = \"x\"\r\nversion = \"2\"\r\n", "x").unwrap(),
        "2"
    );
}

#[test]
fn grammar_pins_must_match_the_lock_exactly() {
    let parsed = Args::parse(valid_args()).unwrap();
    let mut twice = parsed.grammars.clone();
    twice.push(twice[0].clone());
    assert_eq!(
        check_grammar_pins(LOCK, &twice).unwrap_err(),
        GrammarPinError::Duplicate("python".into())
    );
    let mut short = parsed.grammars.clone();
    short.pop();
    assert_eq!(
        check_grammar_pins(LOCK, &short).unwrap_err(),
        GrammarPinError::Mismatch
    );
    assert_eq!(
        check_grammar_pins("", &parsed.grammars).unwrap_err(),
        GrammarPinError::Lock("Cargo.lock has no package tree-sitter-python".into())
    );
    let mut reordered = parsed.grammars.clone();
    reordered.reverse();
    assert!(check_grammar_pins(LOCK, &reordered).is_ok());
}

#[test]
fn digests_and_revisions_are_checked_by_shape() {
    assert!(valid_digest(&format!("sha256:{}", "0".repeat(64))));
    assert!(!valid_digest(&format!("sha256:{}", "0".repeat(63))));
    assert!(!valid_digest(&format!("sha256:{}", "A".repeat(64))));
    assert!(!valid_digest(&"0".repeat(71)));
    assert!(full_revision(&"f".repeat(40)));
    assert!(!full_revision(&"g".repeat(40)));
    assert_eq!(normalize_digest("abc"), "sha256:abc");
    assert_eq!(normalize_digest("sha256:abc"), "sha256:abc");
    assert_eq!(shell_quote("it's"), "'it'\\''s'");
    assert_eq!(shell_quote("plain"), "'plain'");
}

#[test]
fn only_fixture_sources_of_known_languages_are_counted() {
    assert!(inside_source_tree("fixtures/case/input/lib.rs"));
    assert!(inside_source_tree("fixtures/case/variant/a/b.py"));
    assert!(!inside_source_tree("fixtures/case/expected.json"));
    assert!(!inside_source_tree("fixtures/inputs/lib.rs"));
    assert!(supported("a/input/lib.rs"));
    assert!(supported("a/input/app.tsx"));
    assert!(supported("a/input/x.d.ts"));
    assert!(!supported("a/input/readme.txt"));
    assert!(!supported("a/input/.rs"));
    assert!(!supported("a/input/rs"));
    assert!(supported("a/input/lib.rs/"));
    assert!(!supported("a/input/lib.rs/.."));
}

#[test]
fn normalizing_a_digest_twice_changes_nothing_more() {
    for value in ["abc", "sha256:abc", "", "sha256"] {
        let once = normalize_digest(value);
        assert_eq!(normalize_digest(&once), once);
    }
}

#[test]
fn a_written_pin_parses_back_to_itself() {
    for (language, grammar, revision) in [
        ("rust", "tree-sitter-rust", "0.24.2"),
        ("tsx", "@scope/grammar=x", "1"),
    ] {
        let g = parse_grammar(format!("{language}={grammar}@{revision}")).unwrap();
        assert_eq!(
            (g.language.as_str(), g.grammar.as_str(), g.revision.as_str()),
            (language, grammar, revision)
        );
    }
}

#[test]
fn scorer_report_must_cover_every_declared_case() {
    // {"scored_cases": 2, "case_digests": {"a": "x", "b": "y"}}
    assert_eq!(check_complete_report(Some(2), Some(2)), Ok(()));
    // {"scored_cases": 1, "case_digests": {"a": "x", "b": "y"}}
    assert!(check_complete_report(Some(1), Some(2)).is_err());
}

#[test]
fn an_incomplete_report_says_what_it_lacks() {
    assert_eq!(check_complete_report(None, Some(2)), Err(IncompleteReport::NoScoredCases));
    assert_eq!(check_complete_report(None, None), Err(IncompleteReport::NoScoredCases));
    assert_eq!(check_complete_report(Some(3), None), Err(IncompleteReport::NoCaseDigests));
    assert_eq!(
        check_complete_report(Some(3), Some(2)),
        Err(IncompleteReport::Partial { scored: 3, declared: 2 })
    );
    assert_eq!(check_complete_report(Some(0), Some(0)), Ok(()));
}
