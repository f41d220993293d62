//! Governed graph-quality observations: the record vocabulary, the digest
//! every artifact is named by, and how a walked population is classified.
//!
//! The JSON record itself is assembled and schema-checked by the producer;
//! what it is assembled from is stated here.

use vstd::prelude::*;

use crate::order::{compare_text, lemma_text_lt_irreflexive, lemma_text_lt_transitive, text_lt, Precedence};
use crate::records::{sha256_hex, sha256_hex_of, is_lower_hex};
use crate::text::{chars_of, extend_chars, string_of};

verus! {

/// The measurement plan every observation is governed by.
pub const PLAN_ID: &'static str = "MP-001";

/// The plan's artifact reference.
pub const PLAN_REF: &'static str = "ix://agent-ix/quire-code-rs/MP-001";

/// The version of the metric definition.
pub const DEFINITION_VERSION: &'static str = "quire-code.graph-quality-v1";

/// The metric an observation measures.
pub const METRIC: &'static str = "graph_quality";

/// Why an observation or its inputs were refused.
#[derive(Debug, Clone, PartialEq, Eq)]
pub enum MeasurementError {
    InvalidSchema(String),
    InvalidObservation(String),
    InvalidScorerReport(String),
}

/// The message of a measurement error.
pub open spec fn spec_measurement_message(e: MeasurementError) -> Seq<char> {
    match e {
        MeasurementError::InvalidSchema(d) => "schema is invalid: "@ + d@,
        MeasurementError::InvalidObservation(d) => "observation failed validation: "@ + d@,
        MeasurementError::InvalidScorerReport(d) => "scorer report is invalid: "@ + d@,
    }
}

impl MeasurementError {
    /// The human-readable message.
    pub fn to_string(&self) -> (s: String)
        ensures
            s@ == spec_measurement_message(*self),
    {
        let (head, detail) = match self {
            MeasurementError::InvalidSchema(d) => (chars_of("schema is invalid: "), d),
            MeasurementError::InvalidObservation(d) => (
                chars_of("observation failed validation: "),
                d,
            ),
            MeasurementError::InvalidScorerReport(d) => (chars_of("scorer report is invalid: "), d),
        };
        let mut v = head;
        let tail = chars_of(detail.as_str());
        extend_chars(&mut v, &tail);
        string_of(&v)
    }
}

/// One parser grammar pinned by language.
#[derive(Debug, Clone, PartialEq, Eq)]
pub struct GrammarRevision {
    pub language: String,
    pub grammar: String,
    pub revision: String,
}

/// Where an observation came from.
#[derive(Debug, Clone, PartialEq, Eq)]
pub struct Provenance {
    pub extractor_revision: String,
    pub source_revision: String,
    pub corpus_revision: String,
    pub scorer_version: String,
    pub configuration_digest: String,
    pub parser_grammars: Vec<GrammarRevision>,
}

/// What a walked population allows to be said.
#[derive(Debug, Clone, Copy, PartialEq, Eq, Structural)]
pub enum PopulationState {
    Measured,
    Empty,
    Unreadable,
    Unsupported,
}

/// The wire name of a population state.
pub open spec fn spec_population_state_name(s: PopulationState) -> Seq<char> {
    match s {
        PopulationState::Measured => "measured"@,
        PopulationState::Empty => "empty"@,
        PopulationState::Unreadable => "unreadable"@,
        PopulationState::Unsupported => "unsupported"@,
    }
}

impl PopulationState {
    /// The wire name: `measured`, `empty`, `unreadable` or `unsupported`.
    pub fn as_str(self) -> (r: &'static str)
        ensures
            r@ == spec_population_state_name(self),
    {
        match self {
            PopulationState::Measured => "measured",
            PopulationState::Empty => "empty",
            PopulationState::Unreadable => "unreadable",
            PopulationState::Unsupported => "unsupported",
        }
    }
}

/// The counts of a walked population and what they allow.
#[derive(Debug, Clone, PartialEq, Eq)]
pub struct Population {
    pub state: PopulationState,
    pub files_seen: u64,
    pub supported_files: u64,
    pub unreadable_files: u64,
    pub unsupported_files: u64,
}

/// The pinned identities a collection is stamped with.
#[derive(Debug, Clone)]
pub struct CollectionInputs {
    pub timestamp: String,
    pub lock_digest: String,
    pub executable_digest: String,
    pub schema_digest: String,
    pub plan_digest: String,
    pub node_version: String,
    pub rust_version: String,
    pub python_version: String,
    pub source_remote: String,
    pub corpus_source_revision: String,
    pub corpus_remote: String,
}

/// A population with no file is empty; one with an unreadable supported
/// file is unreadable; one with no supported file is unsupported; only the
/// rest is measured.
pub open spec fn spec_population_state(
    files_seen: u64,
    supported_files: u64,
    unreadable_files: u64,
) -> PopulationState {
    if files_seen == 0 {
        PopulationState::Empty
    } else if unreadable_files > 0 {
        PopulationState::Unreadable
    } else if supported_files == 0 {
        PopulationState::Unsupported
    } else {
        PopulationState::Measured
    }
}

/// Classifies a walked population by its counts.
pub fn population_state(files_seen: u64, supported_files: u64, unreadable_files: u64) -> (s:
    PopulationState)
    ensures
        s == spec_population_state(files_seen, supported_files, unreadable_files),
{
    if files_seen == 0 {
        PopulationState::Empty
    } else if unreadable_files > 0 {
        PopulationState::Unreadable
    } else if supported_files == 0 {
        PopulationState::Unsupported
    } else {
        PopulationState::Measured
    }
}

impl Population {
    /// A population with its state classified from its counts.
    pub fn classify(
        files_seen: u64,
        supported_files: u64,
        unreadable_files: u64,
        unsupported_files: u64,
    ) -> (p: Population)
        ensures
            p.state == spec_population_state(files_seen, supported_files, unreadable_files),
            p.files_seen == files_seen,
            p.supported_files == supported_files,
            p.unreadable_files == unreadable_files,
            p.unsupported_files == unsupported_files,
    {
        Population {
            state: population_state(files_seen, supported_files, unreadable_files),
            files_seen,
            supported_files,
            unreadable_files,
            unsupported_files,
        }
    }
}

/// The digest name of some bytes: `sha256:` and 64 lowercase hex digits.
pub open spec fn spec_sha256(bytes: Seq<u8>) -> Seq<char> {
    "sha256:"@ + sha256_hex(bytes)
}

/// Names bytes by their SHA-256 digest, `sha256:{hex}`.
pub fn sha256(bytes: &[u8]) -> (r: String)
    ensures
        r@ == spec_sha256(bytes@),
        r@.len() == 71,
        forall|i: int| 7 <= i < 71 ==> is_lower_hex(#[trigger] r@[i]),
{
    proof {
        reveal_strlit("sha256:");
    }
    let hex = sha256_hex_of(bytes);
    let mut v = chars_of("sha256:");
    let h = chars_of(hex.as_str());
    extend_chars(&mut v, &h);
    proof {
        assert forall|i: int| 7 <= i < 71 implies is_lower_hex(#[trigger] v@[i]) by {
            assert(v@[i] == hex@[i - 7]);
        }
    }
    string_of(&v)
}

/// Grammar order: language, then grammar, then revision.
pub open spec fn grammar_before(a: GrammarRevision, b: GrammarRevision) -> bool {
    ||| text_lt(a.language@, b.language@)
    ||| a.language@ == b.language@ && text_lt(a.grammar@, b.grammar@)
    ||| a.language@ == b.language@ && a.grammar@ == b.grammar@ && text_lt(a.revision@, b.revision@)
}

/// The pins are in grammar order: none sorts before one that precedes it.
pub open spec fn grammars_in_order(s: Seq<GrammarRevision>) -> bool {
    forall|i: int, j: int| 0 <= i < j < s.len() ==> !grammar_before(#[trigger] s[j], #[trigger] s[i])
}

proof fn lemma_grammar_before_order(a: GrammarRevision, b: GrammarRevision, c: GrammarRevision)
    ensures
        !grammar_before(a, a),
        grammar_before(a, b) && grammar_before(b, c) ==> grammar_before(a, c),
{
    lemma_text_lt_irreflexive(a.language@);
    lemma_text_lt_irreflexive(a.grammar@);
    lemma_text_lt_irreflexive(a.revision@);
    if grammar_before(a, b) && grammar_before(b, c) {
        if text_lt(a.language@, b.language@) && text_lt(b.language@, c.language@) {
            lemma_text_lt_transitive(a.language@, b.language@, c.language@);
        }
        if text_lt(a.grammar@, b.grammar@) && text_lt(b.grammar@, c.grammar@) {
            lemma_text_lt_transitive(a.grammar@, b.grammar@, c.grammar@);
        }
        if text_lt(a.revision@, b.revision@) && text_lt(b.revision@, c.revision@) {
            lemma_text_lt_transitive(a.revision@, b.revision@, c.revision@);
        }
    }
}

fn grammar_precedes(a: &GrammarRevision, b: &GrammarRevision) -> (r: bool)
    ensures
        r == grammar_before(*a, *b),
{
    match compare_text(a.language.as_str(), b.language.as_str()) {
        Precedence::Before => true,
        Precedence::After => false,
        Precedence::Same => match compare_text(a.grammar.as_str(), b.grammar.as_str()) {
            Precedence::Before => true,
            Precedence::After => false,
            Precedence::Same => compare_text(a.revision.as_str(), b.revision.as_str()) == Precedence::Before,
        },
    }
}

/// The grammar pins sorted stably by language, grammar and revision.
pub fn sort_grammars(gs: Vec<GrammarRevision>) -> (out: Vec<GrammarRevision>)
    ensures
        grammars_in_order(out@),
        out@.to_multiset() == gs@.to_multiset(),
{
    broadcast use vstd::seq_lib::group_to_multiset_ensures;

    let mut rest = gs;
    let ghost all = rest@;
    let total = rest.len();
    let mut sorted: Vec<GrammarRevision> = Vec::new();
    let mut n: usize = 0;
    assert(all.take(0) =~= Seq::<GrammarRevision>::empty());
    while rest.len() > 0
        invariant
            n + rest.len() == all.len(),
            all.len() == total,
            rest@ == all.skip(n as int),
            grammars_in_order(sorted@),
            sorted@.to_multiset() == all.take(n as int).to_multiset(),
        decreases rest.len(),
    {
        let e = rest.remove(0);
        proof {
            assert(e == all[n as int]);
            assert(all.skip(n + 1) =~= all.skip(n as int).drop_first());
            assert(all.take(n + 1) =~= all.take(n as int).push(e));
        }
        let mut i: usize = 0;
        while i < sorted.len() && !grammar_precedes(&e, &sorted[i])
            invariant
                i <= sorted.len(),
                forall|j: int| 0 <= j < i ==> !grammar_before(e, #[trigger] sorted@[j]),
            decreases sorted.len() - i,
        {
            i = i + 1;
        }
        let ghost s = sorted@;
        sorted.insert(i, e);
        proof {
            let r = sorted@;
            assert(r == s.insert(i as int, e));
            vstd::seq_lib::to_multiset_insert(s, i as int, e);
            vstd::seq_lib::to_multiset_build(all.take(n as int), e);
            assert forall|a: int, b: int| 0 <= a < b < r.len() implies !grammar_before(#[trigger] r[b], #[trigger] r[a]) by {
                let k = i as int;
                if b < k {
                    assert(r[a] == s[a] && r[b] == s[b]);
                } else if b == k {
                    assert(r[a] == s[a]);
                } else if a < k {
                    assert(r[a] == s[a] && r[b] == s[b - 1]);
                } else if a == k {
                    assert(r[b] == s[b - 1]);
                    lemma_grammar_before_order(s[b - 1], e, s[k]);
                    if b - 1 > k {
                        assert(!grammar_before(s[b - 1], s[k]));
                    }
                } else {
                    assert(r[a] == s[a - 1] && r[b] == s[b - 1]);
                }
            }
        }
        n = n + 1;
    }
    assert(all.take(n as int) == all);
    sorted
}

} // verus!
