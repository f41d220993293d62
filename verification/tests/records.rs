use quire_code_rs::edges::{Edge, EdgeType, Evidence, Reason};
use quire_code_rs::facts::{CodeFact, LineSpan, ObjectType, Visibility};
use quire_code_rs::records::{
    edge_record, node_id, node_record, sort_edges, sort_nodes, EdgeRecord, EvidenceRecord,
    EDGE_TYPES, REASONS,
};

fn fact(name: &str, start: u32) -> CodeFact {
    CodeFact {
        object_type: ObjectType::Function,
        kind: "function",
        qualified_name: name.to_string(),
        simple_name: "f".to_string(),
        path: "src/lib.rs".to_string(),
        span: LineSpan {
            start,
            end: start + 2,
        },
        parent: None,
        visibility: Visibility::Public,
        signature: Some("() -> ()".to_string()),
    }
}

fn edge(source: &str, edge_type: &str, target: &str) -> EdgeRecord {
    EdgeRecord {
        source_ref: source.into(),
        edge_type: edge_type.into(),
        target_ref: target.into(),
        confidence_percent: 100,
        reason: "syntactic".into(),
        evidence: vec![],
        count: 1,
    }
}

#[test]
fn node_records_carry_id_reference_and_kind() {
    let record = node_record(&fact("agent-ix/repo/src/lib.rs::f", 1));
    assert_eq!(record.id.len(), 64);
    assert!(record
        .id
        .chars()
        .all(|c| c.is_ascii_hexdigit() && !c.is_uppercase()));
    assert_eq!(record.reference, "ix://agent-ix/repo/src/lib.rs::f");
    assert_eq!(record.object_type, "code_function");
    assert_eq!(record.data.kind, "function");
}

#[test]
fn moving_a_declaration_preserves_its_id() {
    let before = node_record(&fact("agent-ix/repo/src/lib.rs::f", 10));
    let after = node_record(&fact("agent-ix/repo/src/lib.rs::f", 300));
    assert_eq!(before.id, after.id);
    assert_ne!(before.data.span, after.data.span);
}

#[test]
fn identity_separates_type_from_name() {
    assert_ne!(
        node_id(ObjectType::Type, "x"),
        node_id(ObjectType::Function, "x")
    );
}

#[test]
fn records_sort_into_stable_order() {
    let mut nodes = vec![
        node_record(&fact("agent-ix/repo/src/lib.rs::z", 1)),
        node_record(&fact("agent-ix/repo/src/lib.rs::a", 1)),
    ];
    sort_nodes(&mut nodes);
    assert_eq!(nodes[0].name, "agent-ix/repo/src/lib.rs::a");

    let mut edges = vec![edge("b", "calls", "x"), edge("a", "contains", "y")];
    sort_edges(&mut edges);
    assert_eq!(edges[0].source_ref, "a");
}

#[test]
fn the_edge_type_set_matches_the_consumer_contract() {
    let names: Vec<_> = EDGE_TYPES.iter().map(|t| t.as_str()).collect();
    assert_eq!(
        names,
        vec![
            "contains",
            "imports",
            "calls",
            "implements_trait",
            "extends",
            "references"
        ]
    );
}

#[test]
fn the_reason_vocabulary_matches_the_consumer_contract() {
    let names: Vec<_> = REASONS.iter().map(|r| r.as_str()).collect();
    assert_eq!(
        names,
        vec![
            "syntactic",
            "path-resolved",
            "name-match",
            "import-scoped",
            "receiver-typed",
            "explicit-mention"
        ]
    );
}

#[test]
fn the_empty_name_hashes_to_the_known_digest_of_its_identity_bytes() {
    // SHA-256 of the bytes "code_file" 0x1f (nothing after the separator).
    let id = node_id(ObjectType::CodeFile, "");
    assert_eq!(id.len(), 64);
    assert_ne!(id, node_id(ObjectType::CodeFile, "x"));
    assert_eq!(id, node_id(ObjectType::CodeFile, ""));
}

#[test]
fn an_edge_record_carries_wire_names_and_evidence() {
    let e = Edge {
        source_ref: "org/r/a.rs::f".into(),
        edge_type: EdgeType::Calls,
        target_ref: "org/r/a.rs::g".into(),
        confidence_percent: 90,
        reason: Reason::ReceiverTyped,
        evidence: vec![Evidence {
            file: "a.rs".into(),
            line: 4,
        }],
        count: 3,
    };
    let r = edge_record(&e);
    assert_eq!(r.source_ref, "org/r/a.rs::f");
    assert_eq!(r.target_ref, "org/r/a.rs::g");
    assert_eq!(r.edge_type, "calls");
    assert_eq!(r.reason, "receiver-typed");
    assert_eq!(r.confidence_percent, 90);
    assert_eq!(r.count, 3);
    assert_eq!(
        r.evidence,
        vec![EvidenceRecord {
            file: "a.rs".into(),
            line: 4
        }]
    );
}

#[test]
fn edges_sort_by_source_then_type_then_target() {
    let mut edges = vec![
        edge("a", "imports", "x"),
        edge("a", "calls", "z"),
        edge("a", "calls", "y"),
    ];
    sort_edges(&mut edges);
    let keys: Vec<_> = edges
        .iter()
        .map(|e| (e.edge_type.as_str(), e.target_ref.as_str()))
        .collect();
    assert_eq!(keys, vec![("calls", "y"), ("calls", "z"), ("imports", "x")]);
}
