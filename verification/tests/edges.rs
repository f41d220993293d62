use quire_code_rs::edges::{EdgeAccumulator, EdgeType, Evidence, Reason, EVIDENCE_CAP};

fn ev(file: &str, line: u32) -> Evidence {
    Evidence {
        file: file.to_string(),
        line,
    }
}

fn add(acc: &mut EdgeAccumulator, s: &str, t: EdgeType, d: &str, r: Reason, e: Evidence) {
    acc.add(s.to_string(), t, d.to_string(), r, e);
}

#[test]
fn a_self_edge_is_never_emitted() {
    let mut acc = EdgeAccumulator::new();
    add(
        &mut acc,
        "org/repo/src/lib.rs::recurse",
        EdgeType::Calls,
        "org/repo/src/lib.rs::recurse",
        Reason::ReceiverTyped,
        ev("src/lib.rs", 3),
    );
    add(
        &mut acc,
        "org/repo/src/lib.rs::caller",
        EdgeType::Calls,
        "org/repo/src/lib.rs::callee",
        Reason::ReceiverTyped,
        ev("src/lib.rs", 9),
    );
    let edges = acc.finish();
    assert_eq!(
        edges
            .iter()
            .map(|e| (e.source_ref.as_str(), e.target_ref.as_str()))
            .collect::<Vec<_>>(),
        vec![("org/repo/src/lib.rs::caller", "org/repo/src/lib.rs::callee")],
        "the self-edge is dropped and the ordinary edge survives"
    );
}

#[test]
fn repeated_sites_fold_onto_one_edge() {
    let mut acc = EdgeAccumulator::new();
    add(&mut acc, "a", EdgeType::Calls, "b", Reason::ReceiverTyped, ev("f.rs", 10));
    add(&mut acc, "a", EdgeType::Calls, "b", Reason::ReceiverTyped, ev("f.rs", 20));
    let edges = acc.finish();
    assert_eq!(edges.len(), 1);
    assert_eq!(edges[0].count, 2);
    assert_eq!(edges[0].evidence.len(), 2);
}

#[test]
fn evidence_is_capped_but_count_is_not() {
    let mut acc = EdgeAccumulator::new();
    for line in 1..=30 {
        add(&mut acc, "a", EdgeType::Calls, "b", Reason::ReceiverTyped, ev("f.rs", line));
    }
    let edges = acc.finish();
    assert_eq!(edges[0].count, 30);
    assert_eq!(edges[0].evidence.len(), EVIDENCE_CAP);
    assert_eq!(edges[0].evidence[0].line, 1);
    assert_eq!(edges[0].evidence[EVIDENCE_CAP - 1].line, 20);
}

#[test]
fn stronger_reason_wins_regardless_of_arrival_order() {
    let mut weak_first = EdgeAccumulator::new();
    add(&mut weak_first, "a", EdgeType::Calls, "b", Reason::NameMatch, ev("f.rs", 1));
    add(&mut weak_first, "a", EdgeType::Calls, "b", Reason::ReceiverTyped, ev("f.rs", 2));

    let mut strong_first = EdgeAccumulator::new();
    add(&mut strong_first, "a", EdgeType::Calls, "b", Reason::ReceiverTyped, ev("f.rs", 2));
    add(&mut strong_first, "a", EdgeType::Calls, "b", Reason::NameMatch, ev("f.rs", 1));

    for acc in [weak_first, strong_first] {
        let edges = acc.finish();
        assert_eq!(edges[0].reason, Reason::ReceiverTyped);
        assert_eq!(
            edges[0].confidence_percent,
            Reason::ReceiverTyped.confidence_percent()
        );
    }
}

#[test]
fn every_reason_carries_a_confidence_within_the_unit_interval() {
    for reason in [
        Reason::Syntactic,
        Reason::PathResolved,
        Reason::NameMatch,
        Reason::ImportScoped,
        Reason::ReceiverTyped,
        Reason::ExplicitMention,
    ] {
        let c = reason.confidence_percent();
        assert!(c <= 100, "{reason:?} -> {c}");
    }
}

#[test]
fn evidence_is_ordered_by_file_then_line() {
    let mut acc = EdgeAccumulator::new();
    add(&mut acc, "a", EdgeType::Calls, "b", Reason::NameMatch, ev("z.rs", 5));
    add(&mut acc, "a", EdgeType::Calls, "b", Reason::NameMatch, ev("a.rs", 9));
    add(&mut acc, "a", EdgeType::Calls, "b", Reason::NameMatch, ev("a.rs", 2));
    let edges = acc.finish();
    let got: Vec<_> = edges[0]
        .evidence
        .iter()
        .map(|e| (e.file.as_str(), e.line))
        .collect();
    assert_eq!(got, vec![("a.rs", 2), ("a.rs", 9), ("z.rs", 5)]);
}

#[test]
fn source_read_reasons_are_fully_confident() {
    assert_eq!(Reason::Syntactic.confidence_percent(), 100);
    assert_eq!(Reason::PathResolved.confidence_percent(), 100);
    assert_eq!(Reason::ExplicitMention.confidence_percent(), 100);
}

#[test]
fn resolution_tiers_rank_receiver_over_import_over_name() {
    assert!(Reason::ReceiverTyped.confidence_percent() > Reason::ImportScoped.confidence_percent());
    assert!(Reason::ImportScoped.confidence_percent() > Reason::NameMatch.confidence_percent());
}

#[test]
fn edges_come_out_in_stable_order() {
    let mut acc = EdgeAccumulator::new();
    add(&mut acc, "z", EdgeType::Calls, "a", Reason::NameMatch, ev("f.rs", 1));
    add(&mut acc, "a", EdgeType::Imports, "b", Reason::PathResolved, ev("f.rs", 1));
    add(&mut acc, "a", EdgeType::Contains, "c", Reason::Syntactic, ev("f.rs", 1));
    let edges = acc.finish();
    let keys: Vec<_> = edges
        .iter()
        .map(|e| (e.source_ref.as_str(), e.edge_type.as_str()))
        .collect();
    assert_eq!(
        keys,
        vec![("a", "contains"), ("a", "imports"), ("z", "calls")]
    );
}

#[test]
fn confidences_are_the_documented_hundredths() {
    assert_eq!(Reason::ReceiverTyped.confidence_percent(), 90);
    assert_eq!(Reason::ImportScoped.confidence_percent(), 70);
    assert_eq!(Reason::NameMatch.confidence_percent(), 50);
    assert_eq!(Reason::PathResolved.as_str(), "path-resolved");
    assert_eq!(EdgeType::ImplementsTrait.as_str(), "implements_trait");
}

#[test]
fn duplicate_evidence_is_kept_once_but_counted_twice() {
    let mut acc = EdgeAccumulator::new();
    add(&mut acc, "a", EdgeType::Calls, "b", Reason::NameMatch, ev("f.rs", 4));
    add(&mut acc, "a", EdgeType::Calls, "b", Reason::NameMatch, ev("f.rs", 4));
    let edges = acc.finish();
    assert_eq!(edges[0].count, 2);
    assert_eq!(edges[0].evidence.len(), 1);
}
