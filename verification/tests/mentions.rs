use quire_code_rs::mentions::{harvest, is_token_byte, is_whole_token, mentions_from_matches, MentionKind};
use quire_code_rs::parse::CommentText;

fn comment(text: &str, owner_is_test: bool) -> CommentText {
    CommentText {
        text: text.to_string(),
        line: 7,
        owner: "agent-ix/repo/src/lib.rs::thing".to_string(),
        owner_is_test,
    }
}

#[test]
fn a_tag_inside_a_test_is_a_tracking_tag() {
    let found = harvest(
        &[comment("// TC-001 — checks the thing", true)],
        "src/lib.rs",
    );
    assert_eq!(found.len(), 1);
    assert_eq!(found[0].identifier, "TC-001");
    assert_eq!(found[0].kind, MentionKind::TrackingTag);
    assert_eq!(found[0].line, 7);
    assert_eq!(found[0].file, "src/lib.rs");
}

#[test]
fn a_tag_outside_a_test_is_only_a_citation() {
    let found = harvest(
        &[comment("// see TC-001 for the rationale", false)],
        "src/lib.rs",
    );
    assert_eq!(found[0].kind, MentionKind::RequirementCitation);
}

#[test]
fn requirement_citations_are_harvested() {
    let found = harvest(
        &[comment(
            "//! Implements FR-002 and NFR-001; see Task-150.",
            false,
        )],
        "src/lib.rs",
    );
    let ids: Vec<_> = found.iter().map(|m| m.identifier.as_str()).collect();
    assert!(ids.contains(&"FR-002"), "got {ids:?}");
    assert!(ids.contains(&"NFR-001"), "got {ids:?}");
    assert!(ids.contains(&"Task-150"), "got {ids:?}");
}

#[test]
fn ix_references_are_harvested() {
    let found = harvest(
        &[comment(
            "// see ix://agent-ix/filament-ide-rs/FR-072",
            false,
        )],
        "src/lib.rs",
    );
    let reference = found
        .iter()
        .find(|m| m.kind == MentionKind::ArtifactReference)
        .expect("an artifact reference");
    assert_eq!(reference.identifier, "ix://agent-ix/filament-ide-rs/FR-072");
}

#[test]
fn a_reference_ending_a_sentence_drops_the_punctuation() {
    let found = harvest(
        &[comment("// see ix://agent-ix/demo/FR-003.", false)],
        "src/lib.rs",
    );
    assert_eq!(
        found.len(),
        1,
        "one mention, not a ref plus a bare citation"
    );
    assert_eq!(found[0].identifier, "ix://agent-ix/demo/FR-003");
    assert_eq!(found[0].kind, MentionKind::ArtifactReference);
}

#[test]
fn an_identifier_inside_a_reference_is_not_also_a_bare_citation() {
    let found = harvest(
        &[comment(
            "// ix://agent-ix/demo/FR-003 and also FR-004",
            false,
        )],
        "src/lib.rs",
    );
    let ids: Vec<_> = found.iter().map(|m| m.identifier.as_str()).collect();
    assert_eq!(ids, vec!["FR-004", "ix://agent-ix/demo/FR-003"]);
}

#[test]
fn embedded_identifiers_are_not_mentions() {
    for text in [
        "// XTC-001 is not a mention",
        "// TC-001a is not a mention",
        "// prefixFR-002suffix",
        "// snake_TC-001",
    ] {
        let found = harvest(&[comment(text, true)], "src/lib.rs");
        assert!(found.is_empty(), "{text:?} matched: {found:?}");
    }
}

#[test]
fn punctuation_delimited_identifiers_still_match() {
    for text in ["// (TC-001)", "// TC-001.", "//TC-001", "// [FR-002]"] {
        let found = harvest(&[comment(text, true)], "src/lib.rs");
        assert_eq!(found.len(), 1, "{text:?} -> {found:?}");
    }
}

#[test]
fn unresolvable_mentions_are_still_reported_as_written() {
    let found = harvest(
        &[comment("// TC-999999 does not exist", true)],
        "src/lib.rs",
    );
    assert_eq!(found.len(), 1);
    assert_eq!(found[0].identifier, "TC-999999");
}

#[test]
fn mentions_come_out_in_stable_order() {
    let comments = vec![
        CommentText {
            text: "// FR-003".into(),
            line: 20,
            owner: "o".into(),
            owner_is_test: false,
        },
        CommentText {
            text: "// FR-001 FR-002".into(),
            line: 5,
            owner: "o".into(),
            owner_is_test: false,
        },
    ];
    let found = harvest(&comments, "src/lib.rs");
    let ids: Vec<_> = found.iter().map(|m| m.identifier.as_str()).collect();
    assert_eq!(ids, vec!["FR-001", "FR-002", "FR-003"]);
}

#[test]
fn repeated_identical_mentions_collapse() {
    let comments = vec![comment("// TC-001", true), comment("// TC-001", true)];
    let found = harvest(&comments, "src/lib.rs");
    assert_eq!(found.len(), 1);
}

#[test]
fn token_bytes_are_alphanumerics_underscores_and_hyphens() {
    assert!(is_token_byte(b'a'));
    assert!(is_token_byte(b'Z'));
    assert!(is_token_byte(b'7'));
    assert!(is_token_byte(b'_'));
    assert!(is_token_byte(b'-'));
    assert!(!is_token_byte(b' '));
    assert!(!is_token_byte(b'.'));
    assert!(is_whole_token("(TC-1)", 1, 5));
    assert!(!is_whole_token("xTC-1", 1, 5));
    assert!(!is_whole_token("TC-1a", 0, 4));
    assert!(is_whole_token("TC-1", 0, 4));
    assert_eq!(MentionKind::TrackingTag.as_str(), "tracking_tag");
    assert_eq!(MentionKind::RequirementCitation.as_str(), "requirement_citation");
    assert_eq!(MentionKind::ArtifactReference.as_str(), "artifact_reference");
}

#[test]
fn a_reference_needs_at_least_two_segments() {
    let found = harvest(&[comment("// ix://single and nothing else", false)], "f.rs");
    assert!(found.is_empty(), "{found:?}");
}

#[test]
fn mentions_come_out_by_line_then_by_identifier() {
    let at = |text: &str, line: u32| CommentText {
        text: text.to_string(),
        line,
        owner: "o".to_string(),
        owner_is_test: false,
    };
    let found = harvest(&[at("// FR-009", 5), at("// FR-001", 20), at("// FR-003 FR-002", 5)], "src/lib.rs");
    let ids: Vec<(&str, u32)> = found.iter().map(|m| (m.identifier.as_str(), m.line)).collect();
    assert_eq!(ids, vec![("FR-002", 5), ("FR-003", 5), ("FR-009", 5), ("FR-001", 20)]);
}

#[test]
fn given_matches_become_a_trimmed_reference_and_an_outside_citation() {
    let c = CommentText {
        text: "// see ix://org/repo/FR-002. and FR-003".to_string(),
        line: 4,
        owner: "o".to_string(),
        owner_is_test: false,
    };
    let refs = vec![(7usize, 28usize, "ix://org/repo/FR-002.".to_string())];
    let ids = vec![(21usize, 27usize, "FR-002".to_string()), (33usize, 39usize, "FR-003".to_string())];
    let found = mentions_from_matches(&c, "src/lib.rs", &refs, &ids);
    let got: Vec<(&str, MentionKind)> = found.iter().map(|m| (m.identifier.as_str(), m.kind)).collect();
    assert_eq!(
        got,
        vec![("ix://org/repo/FR-002", MentionKind::ArtifactReference), ("FR-003", MentionKind::RequirementCitation)]
    );
}
