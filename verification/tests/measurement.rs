use quire_code_rs::measurement::{
    population_state, sha256, sort_grammars, GrammarRevision, MeasurementError, Population,
    PopulationState,
};

#[test]
fn population_states_follow_the_counts() {
    assert_eq!(population_state(0, 0, 0), PopulationState::Empty);
    assert_eq!(population_state(3, 2, 1), PopulationState::Unreadable);
    assert_eq!(population_state(2, 0, 0), PopulationState::Unsupported);
    assert_eq!(population_state(2, 2, 0), PopulationState::Measured);
    let p = Population::classify(4, 3, 0, 1);
    assert_eq!(p.state, PopulationState::Measured);
    assert_eq!(p.unsupported_files, 1);
    assert_eq!(PopulationState::Unreadable.as_str(), "unreadable");
    assert_eq!(PopulationState::Measured.as_str(), "measured");
}

#[test]
fn digests_name_their_scheme() {
    assert_eq!(
        sha256(b""),
        "sha256:e3b0c44298fc1c149afbf4c8996fb92427ae41e4649b934ca495991b7852b855"
    );
    assert_eq!(
        sha256(b"abc"),
        "sha256:ba7816bf8f01cfea414140de5dae2223b00361a396177a9cb410ff61f20015ad"
    );
}

#[test]
fn measurement_errors_read_as_their_kind() {
    assert_eq!(
        MeasurementError::InvalidScorerReport("missing cases object".into()).to_string(),
        "scorer report is invalid: missing cases object"
    );
    assert_eq!(
        MeasurementError::InvalidSchema("x".into()).to_string(),
        "schema is invalid: x"
    );
    assert_eq!(
        MeasurementError::InvalidObservation("y".into()).to_string(),
        "observation failed validation: y"
    );
}

#[test]
fn grammar_pins_sort_by_language_then_grammar_then_revision() {
    let g = |l: &str, g: &str, r: &str| GrammarRevision {
        language: l.into(),
        grammar: g.into(),
        revision: r.into(),
    };
    let sorted = sort_grammars(vec![
        g("typescript", "tree-sitter-typescript", "0.23.2"),
        g("python", "tree-sitter-python", "0.25.0"),
        g("rust", "b", "1"),
        g("rust", "a", "2"),
    ]);
    let langs: Vec<_> = sorted
        .iter()
        .map(|x| (x.language.as_str(), x.grammar.as_str()))
        .collect();
    assert_eq!(
        langs,
        vec![
            ("python", "tree-sitter-python"),
            ("rust", "a"),
            ("rust", "b"),
            ("typescript", "tree-sitter-typescript")
        ]
    );
}
