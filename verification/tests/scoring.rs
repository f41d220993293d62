use quire_code_rs::measurement::{MeasurementError, Population, PopulationState};
use quire_code_rs::scoring::{
    census_from, missing_dimension, observation_parts, precision_decision_passed, results_from, sorted_without_duplicates, AxisEntry,
    ConfusionAxes, Counts, KindCensus, ScorerCase, ScorerReport,
};

fn counts(tp: u64, fp: u64, fn_: u64) -> Counts {
    Counts {
        true_positive: tp,
        false_positive: fp,
        false_negative: fn_,
    }
}

fn axis(entries: &[(&str, Counts)]) -> Option<Vec<AxisEntry>> {
    Some(
        entries
            .iter()
            .map(|(key, counts)| AxisEntry {
                key: key.to_string(),
                counts: *counts,
            })
            .collect(),
    )
}

fn case(name: &str, kinds: &[(&str, &[u64])], reported: u64, expected: u64) -> ScorerCase {
    ScorerCase {
        name: name.to_string(),
        kind_census: kinds
            .iter()
            .map(|(t, c)| KindCensus {
                object_type: t.to_string(),
                counts: c.to_vec(),
            })
            .collect(),
        ambiguous_reported: reported,
        ambiguous_expected: expected,
    }
}

fn report() -> ScorerReport {
    ScorerReport {
        cases: Some(vec![
            case("relations/a/python", &[("code_function", &[2])], 1, 1),
            case("relations/a/rust", &[("code_function", &[3])], 0, 0),
        ]),
        confusion: Some(ConfusionAxes {
            total: axis(&[("total", counts(8, 0, 2))]),
            language: axis(&[("python", counts(4, 0, 1)), ("rust", counts(4, 0, 1))]),
            object_type: axis(&[("code_function", counts(2, 0, 1))]),
            relation: axis(&[("calls", counts(3, 0, 1))]),
            tier: axis(&[("receiver-typed", counts(3, 0, 1))]),
        }),
        edge_false_positives: Some(0),
    }
}

fn owned(items: &[(String, u64)]) -> Vec<(&str, u64)> {
    items.iter().map(|(k, v)| (k.as_str(), *v)).collect()
}

#[test]
fn the_census_counts_cases_kinds_relations_and_tiers() {
    let census = census_from(&report()).unwrap();
    assert_eq!(owned(&census.languages), vec![("python", 1), ("rust", 1)]);
    assert_eq!(owned(&census.node_kinds), vec![("code_function", 5)]);
    assert_eq!(owned(&census.relation_kinds), vec![("calls", 4)]);
    assert_eq!(owned(&census.resolver_tiers), vec![("receiver-typed", 4)]);
}

#[test]
fn matrices_come_in_dimension_then_key_order() {
    let results = results_from(&report()).unwrap();
    let keys: Vec<_> = results
        .confusion_matrices
        .iter()
        .map(|m| (m.dimension.as_str(), m.key.as_str()))
        .collect();
    assert_eq!(
        keys,
        vec![
            ("language", "python"),
            ("language", "rust"),
            ("node_kind", "code_function"),
            ("overall", "overall"),
            ("relation_kind", "calls"),
            ("resolver_tier", "receiver-typed"),
        ]
    );
    let overall = &results.recall[3];
    assert_eq!((overall.recovered, overall.expected), (8, 10));
    assert_eq!(results.recall.len(), 6);
}

#[test]
fn unresolved_and_ambiguous_counts_are_per_language_then_total() {
    let results = results_from(&report()).unwrap();
    let unresolved: Vec<_> = results
        .unresolved
        .iter()
        .map(|d| (d.dimension.as_str(), d.key.as_str(), d.count))
        .collect();
    assert_eq!(
        unresolved,
        vec![
            ("language", "python", 1),
            ("language", "rust", 0),
            ("node_kind", "unattributed", 1),
            ("overall", "overall", 1),
            ("relation_kind", "calls", 1),
            ("resolver_tier", "unresolved", 1),
        ]
    );
    assert_eq!(results.ambiguous.len(), 6);
    assert_eq!(results.ambiguous[0].count, 1);
}

#[test]
fn a_report_missing_a_part_is_refused_by_name() {
    let mut no_cases = report();
    no_cases.cases = None;
    assert_eq!(
        census_from(&no_cases).unwrap_err(),
        MeasurementError::InvalidScorerReport("missing cases object".into())
    );
    assert_eq!(
        results_from(&no_cases).unwrap_err(),
        MeasurementError::InvalidScorerReport("missing cases object".into())
    );
    let mut no_total = report();
    no_total.confusion.as_mut().unwrap().total = None;
    assert_eq!(
        results_from(&no_total).unwrap_err(),
        MeasurementError::InvalidScorerReport("missing total confusion".into())
    );
    let mut no_confusion = report();
    no_confusion.confusion = None;
    assert_eq!(
        census_from(&no_confusion).unwrap_err(),
        MeasurementError::InvalidScorerReport("missing confusion object".into())
    );
}

#[test]
fn only_a_wrong_heuristic_edge_fails_the_precision_gate() {
    let mut r = report();
    assert_eq!(precision_decision_passed(&r), Ok(true));
    r.edge_false_positives = Some(1);
    assert_eq!(precision_decision_passed(&r), Ok(false));
    r.edge_false_positives = None;
    assert!(precision_decision_passed(&r).is_err());
}

#[test]
fn dimension_keys_must_ascend_without_repeats() {
    let k = |d: &str, key: &str| (d.to_string(), key.to_string());
    assert!(sorted_without_duplicates(&vec![k("language", "a"), k("language", "b"), k("overall", "overall")]));
    assert!(!sorted_without_duplicates(&vec![k("language", "b"), k("language", "a")]));
    assert!(!sorted_without_duplicates(&vec![k("overall", "overall"), k("overall", "overall")]));
    assert!(sorted_without_duplicates(&Vec::new()));
}

#[test]
fn only_a_measured_population_records_results() {
    let r = report();
    let measured = Population::classify(2, 2, 0, 0);
    let parts = observation_parts(Some(&r), &measured).unwrap();
    assert!(parts.results.is_some());
    assert_eq!(parts.census.languages.len(), 2);
    for p in [
        Population::classify(0, 0, 0, 0),
        Population::classify(2, 2, 1, 0),
        Population::classify(2, 0, 0, 2),
    ] {
        assert_ne!(p.state, PopulationState::Measured);
        let parts = observation_parts(Some(&r), &p).unwrap();
        assert!(parts.results.is_none());
        assert!(parts.census.languages.is_empty());
    }
    assert_eq!(
        observation_parts(None, &measured).unwrap_err(),
        MeasurementError::InvalidScorerReport(
            "measured population requires a scorer report".into()
        )
    );
}

#[test]
fn a_measured_record_needs_matrices_in_every_dimension() {
    let all: Vec<String> = ["resolver_tier", "overall", "node_kind", "language", "relation_kind", "overall"]
        .iter()
        .map(|d| d.to_string())
        .collect();
    assert_eq!(missing_dimension(&all), None);
    let some: Vec<String> = ["overall", "language", "resolver_tier"].iter().map(|d| d.to_string()).collect();
    assert_eq!(missing_dimension(&some), Some("node_kind"));
    assert_eq!(missing_dimension(&Vec::new()), Some("overall"));
    let no_tier: Vec<String> = ["overall", "language", "node_kind", "relation_kind"]
        .iter()
        .map(|d| d.to_string())
        .collect();
    assert_eq!(missing_dimension(&no_tier), Some("resolver_tier"));
}
