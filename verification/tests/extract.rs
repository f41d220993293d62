use quire_code_rs::extract::{extract, extract_parsed};
use quire_code_rs::walk::parse_file;
use quire_code_rs::lang::Language;
use quire_code_rs::parse::SourceFile;

fn batch() -> Vec<SourceFile> {
    vec![
        SourceFile::new(
            "agent-ix",
            "demo",
            "src/store.rs",
            Language::Rust,
            "//! Implements FR-002.\npub struct Store;\nimpl Store {\n    pub fn upsert(&self) {}\n}\n",
        ),
        SourceFile::new(
            "agent-ix",
            "demo",
            "src/lib.rs",
            Language::Rust,
            "use crate::store::Store;\n\n#[test]\nfn checks_it() {\n    // TC-001\n}\n",
        ),
    ]
}

#[test]
fn containment_forms_a_tree_rooted_at_the_file() {
    let result = extract(&batch());
    let contains: Vec<_> = result
        .edges
        .iter()
        .filter(|e| e.edge_type == "contains")
        .collect();
    assert!(!contains.is_empty());
    let mut targets: Vec<_> = contains.iter().map(|e| e.target_ref.as_str()).collect();
    let before = targets.len();
    targets.sort_unstable();
    targets.dedup();
    assert_eq!(before, targets.len(), "a node has two parents");
}

#[test]
fn structural_edges_are_fully_confident() {
    let result = extract(&batch());
    for edge in result
        .edges
        .iter()
        .filter(|e| e.edge_type == "contains" || e.edge_type == "imports")
    {
        assert_eq!(edge.confidence_percent, 100, "{edge:?}");
    }
}

#[test]
fn a_resolved_relative_import_yields_an_edge() {
    let result = extract(&batch());
    let import = result
        .edges
        .iter()
        .find(|e| e.edge_type == "imports")
        .expect("an imports edge");
    assert_eq!(import.target_ref, "agent-ix/demo/src/store.rs");
    assert_eq!(import.reason, "path-resolved");
}

#[test]
fn bare_imports_are_silent_and_broken_relative_imports_are_diagnosed() {
    let quiet = extract(&[SourceFile::new(
        "agent-ix",
        "demo",
        "src/lib.rs",
        Language::Rust,
        "use std::collections::BTreeMap;\n",
    )]);
    assert!(
        quiet
            .diagnostics
            .iter()
            .all(|d| d.code != "unresolved_import"),
        "got {:?}",
        quiet.diagnostics
    );

    let noisy = extract(&[SourceFile::new(
        "agent-ix",
        "demo",
        "src/app.ts",
        Language::TypeScript,
        "import { X } from './missing';\n",
    )]);
    assert!(
        noisy
            .diagnostics
            .iter()
            .any(|d| d.code == "unresolved_import"),
        "got {:?}",
        noisy.diagnostics
    );
}

#[test]
fn mentions_become_reference_edges_addressed_as_written() {
    let result = extract(&batch());
    let mention_edge = result
        .edges
        .iter()
        .find(|e| e.target_ref == "TC-001")
        .expect("a mention edge for TC-001");
    assert_eq!(mention_edge.edge_type, "references");
    assert_eq!(mention_edge.reason, "explicit-mention");
    assert_eq!(mention_edge.confidence_percent, 100);
}

#[test]
fn debug_output_carries_nothing_environmental() {
    let result = extract(&batch());
    let text = format!("{result:?}");
    assert!(!text.contains("/Users/"), "absolute path leaked");
    assert!(!text.contains("/home/"), "absolute path leaked");
    for suspicious in ["timestamp", "created_at", "hostname"] {
        assert!(!text.contains(suspicious), "{suspicious} leaked");
    }
}

#[test]
fn a_malformed_file_does_not_change_its_siblings_records() {
    let healthy = extract(&batch());

    let mut with_broken = batch();
    with_broken.push(SourceFile::new(
        "agent-ix",
        "demo",
        "src/broken.rs",
        Language::Rust,
        "fn oops( {\n",
    ));
    let mixed = extract(&with_broken);

    let healthy_names: Vec<_> = healthy.nodes.iter().map(|n| n.name.as_str()).collect();
    let mixed_names: Vec<_> = mixed
        .nodes
        .iter()
        .map(|n| n.name.as_str())
        .filter(|n| !n.contains("broken.rs"))
        .collect();
    assert_eq!(healthy_names, mixed_names);
    assert_eq!(mixed.stats.files_with_errors, 1);
}

#[test]
fn batch_order_does_not_affect_output() {
    let forward = extract(&batch());
    let mut reversed = batch();
    reversed.reverse();
    let backward = extract(&reversed);
    assert_eq!(forward, backward);
}

#[test]
fn repeated_extractions_are_identical() {
    let files = batch();
    let first = extract(&files);
    for _ in 0..25 {
        assert_eq!(extract(&files), first);
    }
}

#[test]
fn stats_report_what_the_batch_bounded() {
    let result = extract(&batch());
    assert_eq!(result.stats.files, 2);
    assert_eq!(result.stats.files_with_errors, 0);
}

#[test]
fn a_test_tag_is_a_tracking_mention_of_the_test() {
    let result = extract(&batch());
    let tag = result
        .mentions
        .iter()
        .find(|m| m.identifier == "TC-001")
        .expect("the tag");
    assert_eq!(tag.source, "agent-ix/demo/src/lib.rs::checks_it");
    assert_eq!(tag.line, 5);
    assert!(result.mentions.iter().any(|m| m.identifier == "FR-002"));
}

#[test]
fn one_edge_per_triple_and_no_edge_to_itself() {
    let result = extract(&[
        SourceFile::new(
            "o",
            "r",
            "src/app.ts",
            Language::TypeScript,
            "import { A } from './lib';\nimport { B } from './lib';\n",
        ),
        SourceFile::new("o", "r", "src/lib.ts", Language::TypeScript, "export class A {}\n"),
    ]);
    let imports: Vec<_> = result
        .edges
        .iter()
        .filter(|e| e.edge_type == "imports")
        .collect();
    assert_eq!(imports.len(), 1, "{imports:?}");
    assert_eq!(imports[0].count, 2);
    let mut triples: Vec<_> = result
        .edges
        .iter()
        .map(|e| (&e.source_ref, &e.edge_type, &e.target_ref))
        .collect();
    let n = triples.len();
    triples.sort();
    triples.dedup();
    assert_eq!(triples.len(), n);
    assert!(result.edges.iter().all(|e| e.source_ref != e.target_ref));
}

#[test]
fn extracting_parsed_files_matches_extracting_the_batch() {
    let files = batch();
    let parsed = files.iter().map(parse_file).collect();
    assert_eq!(extract_parsed(&files, parsed), extract(&files));
}

#[test]
fn parsed_files_are_taken_in_path_order_whatever_order_they_come_in() {
    let files = batch();
    let parsed = files.iter().map(parse_file).collect();
    let mut reversed = batch();
    reversed.reverse();
    let reversed_parsed = reversed.iter().map(parse_file).collect();
    assert_eq!(extract_parsed(&files, parsed), extract_parsed(&reversed, reversed_parsed));
}
