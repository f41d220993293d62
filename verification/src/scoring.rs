//! What a corpus scorer report yields for a graph-quality observation: the
//! census of the population, the confusion matrices by dimension, recall,
//! and the unresolved and ambiguous call-site counts.
//!
//! The report arrives as plain values: every JSON object of the report is a
//! list of entries whose keys are distinct and in increasing order, as a JSON
//! object's keys are.

use vstd::prelude::*;

use crate::measurement::{MeasurementError, Population, PopulationState};
use crate::order::{lemma_text_lt_irreflexive, lemma_text_lt_transitive, text_lt};
use crate::tally::{amount_of, ascending, has_key, Tally};
use crate::text::{chars_of, last_match, lemma_last_match, matches_at, rfind_text, slice_chars, string_of};

verus! {

/// True positives, false positives and false negatives of one entry.
#[derive(Debug, Clone, Copy, PartialEq, Eq, Structural)]
pub struct Counts {
    pub true_positive: u64,
    pub false_positive: u64,
    pub false_negative: u64,
}

/// One object type of a case's kind census, with the counts of its kinds.
#[derive(Debug, Clone)]
pub struct KindCensus {
    pub object_type: String,
    pub counts: Vec<u64>,
}

/// One scored case.
#[derive(Debug, Clone)]
pub struct ScorerCase {
    /// The case's name; its last `/`-separated segment is its language.
    pub name: String,
    pub kind_census: Vec<KindCensus>,
    /// Ambiguous call sites the extractor reported and the case expected.
    pub ambiguous_reported: u64,
    pub ambiguous_expected: u64,
}

/// One key of a confusion axis with its counts.
#[derive(Debug, Clone)]
pub struct AxisEntry {
    pub key: String,
    pub counts: Counts,
}

/// The confusion report, axis by axis; an axis that is absent or not an
/// object is `None`.
#[derive(Debug, Clone)]
pub struct ConfusionAxes {
    pub total: Option<Vec<AxisEntry>>,
    pub language: Option<Vec<AxisEntry>>,
    pub object_type: Option<Vec<AxisEntry>>,
    pub relation: Option<Vec<AxisEntry>>,
    pub tier: Option<Vec<AxisEntry>>,
}

/// A corpus scorer report; a part that is absent or not an object is `None`.
#[derive(Debug, Clone)]
pub struct ScorerReport {
    pub cases: Option<Vec<ScorerCase>>,
    pub confusion: Option<ConfusionAxes>,
    /// The false positives among heuristic edges, when the report states them.
    pub edge_false_positives: Option<u64>,
}

/// The keys of a list of entries are distinct and increasing.
pub open spec fn keys_ascend(keys: Seq<Seq<char>>) -> bool {
    forall|i: int, j: int| 0 <= i < j < keys.len() ==> text_lt(#[trigger] keys[i], #[trigger] keys[j])
}

pub open spec fn axis_keys(axis: Seq<AxisEntry>) -> Seq<Seq<char>> {
    axis.map_values(|e: AxisEntry| e.key@)
}

pub open spec fn axis_wf(axis: Option<Vec<AxisEntry>>) -> bool {
    match axis {
        Some(v) => keys_ascend(axis_keys(v@)),
        None => true,
    }
}

impl ScorerReport {
    /// Every object of the report has distinct keys in increasing order.
    pub open spec fn wf(&self) -> bool {
        &&& match self.cases {
            Some(cs) => {
                &&& keys_ascend(cs@.map_values(|c: ScorerCase| c.name@))
                &&& forall|i: int| 0 <= i < cs.len() ==> keys_ascend(
                    (#[trigger] cs@[i]).kind_census@.map_values(|k: KindCensus| k.object_type@),
                )
            },
            None => true,
        }
        &&& match self.confusion {
            Some(c) => axis_wf(c.total) && axis_wf(c.language) && axis_wf(c.object_type) && axis_wf(
                c.relation,
            ) && axis_wf(c.tier),
            None => true,
        }
    }
}

// ---------------------------------------------------------------------------
// Census
// ---------------------------------------------------------------------------

/// The language of a case: the last `/`-separated segment of its name.
pub open spec fn case_language(name: Seq<char>) -> Seq<char> {
    let k = last_match(name, "/"@);
    if k >= 0 {
        name.skip(k + 1)
    } else {
        name
    }
}

/// How many cases are in a language.
pub open spec fn language_count(cases: Seq<ScorerCase>, lang: Seq<char>) -> int
    decreases cases.len(),
{
    if cases.len() == 0 {
        0
    } else {
        language_count(cases.drop_last(), lang) + if case_language(cases.last().name@) == lang {
            1int
        } else {
            0int
        }
    }
}

/// Some case is in the language.
pub open spec fn language_seen(cases: Seq<ScorerCase>, lang: Seq<char>) -> bool {
    exists|i: int| 0 <= i < cases.len() && case_language((#[trigger] cases[i]).name@) == lang
}

/// The sum of some counts.
pub open spec fn seq_sum(s: Seq<u64>) -> int
    decreases s.len(),
{
    if s.len() == 0 {
        0
    } else {
        seq_sum(s.drop_last()) + s.last()
    }
}

/// What one case's kind census counts for an object type.
pub open spec fn case_kind_total(kc: Seq<KindCensus>, t: Seq<char>) -> int
    decreases kc.len(),
{
    if kc.len() == 0 {
        0
    } else {
        case_kind_total(kc.drop_last(), t) + if kc.last().object_type@ == t {
            seq_sum(kc.last().counts@)
        } else {
            0
        }
    }
}

/// What every case's kind census counts for an object type.
pub open spec fn node_kind_total(cases: Seq<ScorerCase>, t: Seq<char>) -> int
    decreases cases.len(),
{
    if cases.len() == 0 {
        0
    } else {
        node_kind_total(cases.drop_last(), t) + case_kind_total(cases.last().kind_census@, t)
    }
}

/// Some case's kind census names the object type.
pub open spec fn node_kind_seen(cases: Seq<ScorerCase>, t: Seq<char>) -> bool {
    exists|i: int, j: int|
        0 <= i < cases.len() && 0 <= j < cases[i].kind_census.len() && (#[trigger] cases[i].kind_census@[j]).object_type@ == t
}

/// The three counts of an entry, together.
pub open spec fn counts_total(c: Counts) -> int {
    c.true_positive + c.false_positive + c.false_negative
}

/// An axis's entries with the total of each.
pub open spec fn axis_census(axis: Option<Vec<AxisEntry>>) -> Seq<(Seq<char>, u64)> {
    match axis {
        Some(v) => v@.map_values(|e: AxisEntry| (e.key@, counts_total(e.counts) as u64)),
        None => Seq::empty(),
    }
}

/// Every entry's three counts fit one count.
pub open spec fn axis_totals_fit(axis: Option<Vec<AxisEntry>>) -> bool {
    match axis {
        Some(v) => forall|i: int| 0 <= i < v.len() ==> counts_total((#[trigger] v@[i]).counts) <= u64::MAX,
        None => true,
    }
}

/// A census: per key, how much of the population it covers, in key order.
#[derive(Debug, Clone)]
pub struct Census {
    pub languages: Vec<(String, u64)>,
    pub node_kinds: Vec<(String, u64)>,
    pub relation_kinds: Vec<(String, u64)>,
    pub resolver_tiers: Vec<(String, u64)>,
}

/// The text view of a list of keyed counts.
pub open spec fn count_view(v: Seq<(String, u64)>) -> Seq<(Seq<char>, u64)> {
    v.map_values(|e: (String, u64)| (e.0@, e.1))
}

fn language_of(name: &str) -> (r: String)
    ensures
        r@ == case_language(name@),
{
    proof {
        reveal_strlit("/");
    }
    let v = chars_of(name);
    proof {
        lemma_last_match(v@, "/"@);
    }
    match rfind_text(&v, "/") {
        Some(k) => {
            let n = v.len();
            assert(matches_at(v@, "/"@, k as int));
            assert(k + 1 <= n);
            let rest = slice_chars(&v, k + 1, n);
            assert(rest@ == v@.skip(k + 1));
            string_of(&rest)
        },
        None => string_of(&v),
    }
}

fn sum_counts(s: &Vec<u64>, bound: Ghost<int>) -> (r: u64)
    requires
        seq_sum(s@) <= bound@ <= u64::MAX,
    ensures
        r == seq_sum(s@),
{
    let mut total: u64 = 0;
    let mut i: usize = 0;
    while i < s.len()
        invariant
            i <= s.len(),
            total == seq_sum(s@.take(i as int)),
            seq_sum(s@) <= bound@ <= u64::MAX,
        decreases s.len() - i,
    {
        proof {
            assert(s@.take(i + 1).drop_last() == s@.take(i as int));
            lemma_seq_sum_prefix(s@, i + 1);
        }
        total = total + s[i];
        i = i + 1;
    }
    assert(s@.take(s.len() as int) == s@);
    total
}

/// A prefix sums to no more than the whole.
proof fn lemma_seq_sum_prefix(s: Seq<u64>, n: int)
    requires
        0 <= n <= s.len(),
    ensures
        seq_sum(s.take(n)) <= seq_sum(s),
        seq_sum(s.take(n)) >= 0,
    decreases s.len(),
{
    if n == s.len() {
        assert(s.take(n) == s);
        lemma_seq_sum_nonneg(s);
    } else {
        lemma_seq_sum_prefix(s.drop_last(), n);
        assert(s.drop_last().take(n) == s.take(n));
    }
}

proof fn lemma_seq_sum_nonneg(s: Seq<u64>)
    ensures
        seq_sum(s) >= 0,
    decreases s.len(),
{
    if s.len() > 0 {
        lemma_seq_sum_nonneg(s.drop_last());
    }
}

proof fn lemma_case_kind_total_nonneg(kc: Seq<KindCensus>, t: Seq<char>)
    ensures
        case_kind_total(kc, t) >= 0,
    decreases kc.len(),
{
    if kc.len() > 0 {
        lemma_case_kind_total_nonneg(kc.drop_last(), t);
        lemma_seq_sum_nonneg(kc.last().counts@);
    }
}

/// The kind totals of the first cases are no more than those of all.
proof fn lemma_node_kind_prefix(cases: Seq<ScorerCase>, n: int, t: Seq<char>)
    requires
        0 <= n <= cases.len(),
    ensures
        0 <= node_kind_total(cases.take(n), t) <= node_kind_total(cases, t),
    decreases cases.len(),
{
    if n == cases.len() {
        assert(cases.take(n) == cases);
        lemma_node_kind_nonneg(cases, t);
    } else {
        lemma_node_kind_prefix(cases.drop_last(), n, t);
        assert(cases.drop_last().take(n) == cases.take(n));
        lemma_case_kind_total_nonneg(cases.last().kind_census@, t);
    }
}

proof fn lemma_node_kind_nonneg(cases: Seq<ScorerCase>, t: Seq<char>)
    ensures
        node_kind_total(cases, t) >= 0,
    decreases cases.len(),
{
    if cases.len() > 0 {
        lemma_node_kind_nonneg(cases.drop_last(), t);
        lemma_case_kind_total_nonneg(cases.last().kind_census@, t);
    }
}

/// The kind totals of the first entries of a case are no more than those of
/// all its entries.
proof fn lemma_case_kind_prefix(kc: Seq<KindCensus>, n: int, t: Seq<char>)
    requires
        0 <= n <= kc.len(),
    ensures
        0 <= case_kind_total(kc.take(n), t) <= case_kind_total(kc, t),
    decreases kc.len(),
{
    if n == kc.len() {
        assert(kc.take(n) == kc);
        lemma_case_kind_total_nonneg(kc, t);
    } else {
        lemma_case_kind_prefix(kc.drop_last(), n, t);
        assert(kc.drop_last().take(n) == kc.take(n));
        lemma_seq_sum_nonneg(kc.last().counts@);
    }
}

fn copy_entries(v: &Vec<(String, u64)>) -> (r: Vec<(String, u64)>)
    ensures
        count_view(r@) == count_view(v@),
{
    let mut out: Vec<(String, u64)> = Vec::new();
    let mut i: usize = 0;
    while i < v.len()
        invariant
            i <= v.len(),
            count_view(out@) == count_view(v@).take(i as int),
        decreases v.len() - i,
    {
        let ghost before = count_view(out@);
        out.push((v[i].0.clone(), v[i].1));
        assert(count_view(out@) =~= before.push(count_view(v@)[i as int]));
        assert(count_view(v@).take(i + 1) =~= count_view(v@).take(i as int).push(count_view(v@)[i as int]));
        i = i + 1;
    }
    assert(count_view(v@).take(v.len() as int) =~= count_view(v@));
    out
}

fn axis_counts(axis: &Option<Vec<AxisEntry>>) -> (r: Vec<(String, u64)>)
    requires
        axis_totals_fit(*axis),
    ensures
        count_view(r@) == axis_census(*axis),
{
    let mut out: Vec<(String, u64)> = Vec::new();
    match axis {
        Some(v) => {
            let mut i: usize = 0;
            while i < v.len()
                invariant
                    i <= v.len(),
                    axis_totals_fit(*axis),
                    *axis == Some(*v),
                    count_view(out@) == axis_census(*axis).take(i as int),
                decreases v.len() - i,
            {
                let c = v[i].counts;
                assert(counts_total(v@[i as int].counts) <= u64::MAX);
                let total = c.true_positive + c.false_positive + c.false_negative;
                let ghost before = count_view(out@);
                out.push((v[i].key.clone(), total));
                assert(count_view(out@) =~= before.push(axis_census(*axis)[i as int]));
                assert(axis_census(*axis).take(i + 1) =~= axis_census(*axis).take(i as int).push(
                    axis_census(*axis)[i as int],
                ));
                i = i + 1;
            }
            assert(axis_census(*axis).take(v.len() as int) =~= axis_census(*axis));
        },
        None => {
            assert(count_view(out@) =~= axis_census(*axis));
        },
    }
    out
}

/// The population census of a report: cases per language, kinds per object
/// type, and the relation and resolver-tier totals of the confusion report.
/// A report without cases or without a confusion object is refused.
/// The census a report with cases and a confusion object gives: each
/// language and node kind among the cases with its count, in ascending
/// order, and the relation and resolver-tier axes of the confusion object.
pub open spec fn census_of(report: ScorerReport, census: Census) -> bool {
    &&& ascending(count_view(census.languages@))
    &&& forall|k: Seq<char>| #[trigger] has_key(count_view(census.languages@), k) <==> language_seen(
        report.cases->0@,
        k,
    )
    &&& forall|k: Seq<char>| #[trigger] amount_of(count_view(census.languages@), k) == language_count(
        report.cases->0@,
        k,
    )
    &&& ascending(count_view(census.node_kinds@))
    &&& forall|k: Seq<char>| #[trigger] has_key(count_view(census.node_kinds@), k) <==> node_kind_seen(
        report.cases->0@,
        k,
    )
    &&& forall|k: Seq<char>| #[trigger] amount_of(count_view(census.node_kinds@), k) == node_kind_total(
        report.cases->0@,
        k,
    )
    &&& count_view(census.relation_kinds@) == axis_census(report.confusion->0.relation)
    &&& count_view(census.resolver_tiers@) == axis_census(report.confusion->0.tier)
}

pub fn census_from(report: &ScorerReport) -> (r: Result<Census, MeasurementError>)
    requires
        report.wf(),
        report.cases matches Some(cs) ==> forall|t: Seq<char>| #[trigger] node_kind_total(cs@, t) <= u64::MAX,
        report.confusion matches Some(c) ==> axis_totals_fit(c.relation) && axis_totals_fit(c.tier),
    ensures
        match r {
            Ok(census) => {
                &&& report.cases is Some && report.confusion is Some
                &&& census_of(*report, census)
            },
            Err(e) => match e {
                MeasurementError::InvalidScorerReport(d) => if report.cases is None {
                    d@ == "missing cases object"@
                } else {
                    report.confusion is None && d@ == "missing confusion object"@
                },
                _ => false,
            },
        },
{
    let cases = match &report.cases {
        Some(cs) => cs,
        None => {
            return Err(MeasurementError::InvalidScorerReport(string_of(&chars_of("missing cases object"))));
        },
    };
    let mut languages = Tally::new();
    let mut kinds = Tally::new();
    let mut i: usize = 0;
    while i < cases.len()
        invariant
            i <= cases.len(),
            forall|t: Seq<char>| #[trigger] node_kind_total(cases@, t) <= u64::MAX,
            forall|k: Seq<char>| #[trigger] has_key(languages@, k) <==> language_seen(cases@.take(i as int), k),
            forall|k: Seq<char>| #[trigger] amount_of(languages@, k) == language_count(cases@.take(i as int), k),
            forall|k: Seq<char>| #[trigger] has_key(kinds@, k) <==> node_kind_seen(cases@.take(i as int), k),
            forall|k: Seq<char>| #[trigger] amount_of(kinds@, k) == node_kind_total(cases@.take(i as int), k),
        decreases cases.len() - i,
    {
        let case = &cases[i];
        let ghost before = cases@.take(i as int);
        let ghost after = cases@.take(i + 1);
        assert(after.drop_last() == before);
        assert(after.last() == *case);
        let lang = language_of(case.name.as_str());
        proof {
            assert(language_count(cases@.take(i as int), lang@) <= i) by {
                lemma_language_count_bound(cases@.take(i as int), lang@);
            }
        }
        languages.add(lang.as_str(), 1);
        proof {
            assert forall|k: Seq<char>| #[trigger] has_key(languages@, k) <==> language_seen(after, k) by {
                if language_seen(after, k) {
                    let j = choose|j: int| 0 <= j < after.len() && case_language((#[trigger] after[j]).name@) == k;
                    if j < before.len() {
                        assert(before[j] == after[j]);
                    }
                }
                if language_seen(before, k) {
                    let j = choose|j: int| 0 <= j < before.len() && case_language((#[trigger] before[j]).name@) == k;
                    assert(after[j] == before[j]);
                }
            }
        }
        let kc = &case.kind_census;
        let mut j: usize = 0;
        while j < kc.len()
            invariant
                j <= kc.len(),
                *kc == cases@[i as int].kind_census,
                i < cases.len(),
                forall|t: Seq<char>| #[trigger] node_kind_total(cases@, t) <= u64::MAX,
                before == cases@.take(i as int),
                forall|k: Seq<char>| #[trigger] has_key(kinds@, k) <==> (node_kind_seen(before, k)
                    || exists|m: int| 0 <= m < j && (#[trigger] kc@[m]).object_type@ == k),
                forall|k: Seq<char>| #[trigger] amount_of(kinds@, k) == node_kind_total(before, k)
                    + case_kind_total(kc@.take(j as int), k),
            decreases kc.len() - j,
        {
            let entry = &kc[j];
            let ghost t = entry.object_type@;
            proof {
                lemma_node_kind_prefix(cases@, i + 1, t);
                lemma_case_kind_prefix(kc@, j + 1, t);
                assert(cases@.take(i + 1).drop_last() == before);
                assert(cases@.take(i + 1).last() == cases@[i as int]);
                assert(kc@.take(j + 1).drop_last() == kc@.take(j as int));
                assert(kc@.take(j + 1).last() == *entry);
                lemma_case_kind_total_nonneg(kc@.take(j as int), t);
                lemma_node_kind_nonneg(before, t);
                lemma_seq_sum_nonneg(entry.counts@);
            }
            let sum = sum_counts(&entry.counts, Ghost(node_kind_total(cases@, t)));
            kinds.add(entry.object_type.as_str(), sum);
            proof {
                assert forall|k: Seq<char>| #[trigger] amount_of(kinds@, k) == node_kind_total(before, k)
                    + case_kind_total(kc@.take(j + 1), k) by {
                    assert(kc@.take(j + 1).drop_last() == kc@.take(j as int));
                }
            }
            j = j + 1;
        }
        proof {
            assert(kc@.take(kc.len() as int) == kc@);
            assert forall|k: Seq<char>| #[trigger] has_key(kinds@, k) <==> node_kind_seen(after, k) by {
                if node_kind_seen(after, k) {
                    let (a, b) = choose|a: int, b: int|
                        0 <= a < after.len() && 0 <= b < after[a].kind_census.len() && (#[trigger] after[a].kind_census@[b]).object_type@ == k;
                    if a < before.len() {
                        assert(before[a] == after[a]);
                        assert(node_kind_seen(before, k));
                    } else {
                        assert(kc@[b].object_type@ == k);
                    }
                }
                if node_kind_seen(before, k) {
                    let (a, b) = choose|a: int, b: int|
                        0 <= a < before.len() && 0 <= b < before[a].kind_census.len() && (#[trigger] before[a].kind_census@[b]).object_type@ == k;
                    assert(after[a] == before[a]);
                    assert(after[a].kind_census@[b].object_type@ == k);
                }
                if exists|m: int| 0 <= m < kc.len() && (#[trigger] kc@[m]).object_type@ == k {
                    let m = choose|m: int| 0 <= m < kc.len() && (#[trigger] kc@[m]).object_type@ == k;
                    assert(after[i as int].kind_census@[m].object_type@ == k);
                }
            }
        }
        i = i + 1;
    }
    assert(cases@.take(cases.len() as int) == cases@);
    let confusion = match &report.confusion {
        Some(c) => c,
        None => {
            return Err(MeasurementError::InvalidScorerReport(string_of(&chars_of("missing confusion object"))));
        },
    };
    Ok(Census {
        languages: languages.entries(),
        node_kinds: kinds.entries(),
        relation_kinds: axis_counts(&confusion.relation),
        resolver_tiers: axis_counts(&confusion.tier),
    })
}

proof fn lemma_language_count_bound(cases: Seq<ScorerCase>, lang: Seq<char>)
    ensures
        0 <= language_count(cases, lang) <= cases.len(),
    decreases cases.len(),
{
    if cases.len() > 0 {
        lemma_language_count_bound(cases.drop_last(), lang);
    }
}

// ---------------------------------------------------------------------------
// Results
// ---------------------------------------------------------------------------

/// One confusion matrix: its dimension, its key and its counts.
#[derive(Debug, Clone)]
pub struct ConfusionMatrix {
    pub dimension: String,
    pub key: String,
    pub counts: Counts,
}

/// Recall in one dimension: what was recovered of what was expected.
#[derive(Debug, Clone)]
pub struct Recall {
    pub dimension: String,
    pub key: String,
    pub recovered: u64,
    pub expected: u64,
}

/// A count in one dimension.
#[derive(Debug, Clone)]
pub struct DimensionCount {
    pub dimension: String,
    pub key: String,
    pub count: u64,
}

/// The measured results of a report.
#[derive(Debug, Clone)]
pub struct Results {
    pub confusion_matrices: Vec<ConfusionMatrix>,
    pub unresolved: Vec<DimensionCount>,
    pub ambiguous: Vec<DimensionCount>,
    pub recall: Vec<Recall>,
}

pub type MatrixView = (Seq<char>, Seq<char>, Counts);

pub type RecallView = (Seq<char>, Seq<char>, u64, u64);

pub type CountView = (Seq<char>, Seq<char>, u64);

pub open spec fn matrix_views(v: Seq<ConfusionMatrix>) -> Seq<MatrixView> {
    v.map_values(|m: ConfusionMatrix| (m.dimension@, m.key@, m.counts))
}

pub open spec fn recall_views(v: Seq<Recall>) -> Seq<RecallView> {
    v.map_values(|r: Recall| (r.dimension@, r.key@, r.recovered, r.expected))
}

pub open spec fn dimension_views(v: Seq<DimensionCount>) -> Seq<CountView> {
    v.map_values(|d: DimensionCount| (d.dimension@, d.key@, d.count))
}

/// An axis's matrices in one dimension; the overall axis names every entry
/// `overall`.
pub open spec fn axis_matrices(axis: Option<Vec<AxisEntry>>, dimension: Seq<char>, overall: bool) -> Seq<
    MatrixView,
> {
    match axis {
        Some(v) => v@.map_values(
            |e: AxisEntry| (dimension, if overall { "overall"@ } else { e.key@ }, e.counts),
        ),
        None => Seq::empty(),
    }
}

/// Every matrix of the report, in dimension order (`language`,
/// `node_kind`, `overall`, `relation_kind`, `resolver_tier`), each dimension
/// in key order.
pub open spec fn spec_matrices(c: ConfusionAxes) -> Seq<MatrixView> {
    axis_matrices(c.language, "language"@, false) + axis_matrices(c.object_type, "node_kind"@, false)
        + axis_matrices(c.total, "overall"@, true) + axis_matrices(c.relation, "relation_kind"@, false)
        + axis_matrices(c.tier, "resolver_tier"@, false)
}

/// Recall for every matrix that expected something, in matrix order.
pub open spec fn spec_recall(ms: Seq<MatrixView>) -> Seq<RecallView>
    decreases ms.len(),
{
    if ms.len() == 0 {
        Seq::empty()
    } else {
        let m = ms.last();
        let expected = m.2.true_positive + m.2.false_negative;
        if expected > 0 {
            spec_recall(ms.drop_last()).push((m.0, m.1, m.2.true_positive, expected as u64))
        } else {
            spec_recall(ms.drop_last())
        }
    }
}

/// The ambiguous call sites the extractor reported, over every case.
pub open spec fn reported_total(cases: Seq<ScorerCase>) -> int
    decreases cases.len(),
{
    if cases.len() == 0 {
        0
    } else {
        reported_total(cases.drop_last()) + cases.last().ambiguous_reported
    }
}

/// The ambiguous call sites the cases expected, over every case.
pub open spec fn expected_total(cases: Seq<ScorerCase>) -> int
    decreases cases.len(),
{
    if cases.len() == 0 {
        0
    } else {
        expected_total(cases.drop_last()) + cases.last().ambiguous_expected
    }
}

/// The ambiguous call sites reported over the cases of one language.
pub open spec fn reported_in(cases: Seq<ScorerCase>, lang: Seq<char>) -> int
    decreases cases.len(),
{
    if cases.len() == 0 {
        0
    } else {
        reported_in(cases.drop_last(), lang) + if case_language(cases.last().name@) == lang {
            cases.last().ambiguous_reported as int
        } else {
            0
        }
    }
}

/// The ambiguous call sites expected over the cases of one language.
pub open spec fn expected_in(cases: Seq<ScorerCase>, lang: Seq<char>) -> int
    decreases cases.len(),
{
    if cases.len() == 0 {
        0
    } else {
        expected_in(cases.drop_last(), lang) + if case_language(cases.last().name@) == lang {
            cases.last().ambiguous_expected as int
        } else {
            0
        }
    }
}

/// The per-language counts, then the total under each other dimension.
pub open spec fn spec_dimension_counts(langs: Seq<(Seq<char>, u64)>, total: u64) -> Seq<CountView> {
    langs.map_values(|e: (Seq<char>, u64)| ("language"@, e.0, e.1)) + seq![
        ("node_kind"@, "unattributed"@, total),
        ("overall"@, "overall"@, total),
        ("relation_kind"@, "calls"@, total),
        ("resolver_tier"@, "unresolved"@, total),
    ]
}

/// Every matrix's true positives and false negatives fit one count.
pub open spec fn recall_fits(axis: Option<Vec<AxisEntry>>) -> bool {
    match axis {
        Some(v) => forall|i: int|
            0 <= i < v.len() ==> (#[trigger] v@[i]).counts.true_positive + v@[i].counts.false_negative
                <= u64::MAX,
        None => true,
    }
}

proof fn lemma_reported_bounds(cases: Seq<ScorerCase>, n: int, lang: Seq<char>)
    requires
        0 <= n <= cases.len(),
    ensures
        0 <= reported_in(cases.take(n), lang) <= reported_total(cases.take(n)) <= reported_total(cases),
        0 <= expected_in(cases.take(n), lang) <= expected_total(cases.take(n)) <= expected_total(cases),
    decreases cases.len(),
{
    if n == cases.len() {
        assert(cases.take(n) == cases);
        lemma_in_bounded(cases, lang);
    } else {
        lemma_reported_bounds(cases.drop_last(), n, lang);
        assert(cases.drop_last().take(n) == cases.take(n));
    }
}

proof fn lemma_in_bounded(cases: Seq<ScorerCase>, lang: Seq<char>)
    ensures
        0 <= reported_in(cases, lang) <= reported_total(cases),
        0 <= expected_in(cases, lang) <= expected_total(cases),
    decreases cases.len(),
{
    if cases.len() > 0 {
        lemma_in_bounded(cases.drop_last(), lang);
    }
}

fn text(s: &str) -> (r: String)
    ensures
        r@ == s@,
{
    string_of(&chars_of(s))
}

fn push_axis(out: &mut Vec<ConfusionMatrix>, axis: &Option<Vec<AxisEntry>>, dimension: &str, overall: bool)
    ensures
        matrix_views(final(out)@) == matrix_views(old(out)@) + axis_matrices(*axis, dimension@, overall),
{
    let ghost start = matrix_views(out@);
    match axis {
        Some(v) => {
            let mut i: usize = 0;
            while i < v.len()
                invariant
                    i <= v.len(),
                    *axis == Some(*v),
                    matrix_views(out@) == start + axis_matrices(*axis, dimension@, overall).take(i as int),
                decreases v.len() - i,
            {
                let key = if overall {
                    text("overall")
                } else {
                    v[i].key.clone()
                };
                let ghost before = matrix_views(out@);
                out.push(ConfusionMatrix { dimension: text(dimension), key, counts: v[i].counts });
                let ghost am = axis_matrices(*axis, dimension@, overall);
                assert(matrix_views(out@) =~= before.push(am[i as int]));
                assert(am.take(i + 1) =~= am.take(i as int).push(am[i as int]));
                i = i + 1;
            }
            assert(axis_matrices(*axis, dimension@, overall).take(v.len() as int) =~= axis_matrices(
                *axis,
                dimension@,
                overall,
            ));
        },
        None => {
            assert(axis_matrices(*axis, dimension@, overall) =~= Seq::<MatrixView>::empty());
            assert(matrix_views(out@) =~= start + axis_matrices(*axis, dimension@, overall));
        },
    }
}

fn push_counts(out: &mut Vec<DimensionCount>, langs: &Vec<(String, u64)>, total: u64)
    requires
        old(out)@.len() == 0,
    ensures
        dimension_views(final(out)@) == spec_dimension_counts(count_view(langs@), total),
{
    let mut i: usize = 0;
    let ghost lv = count_view(langs@).map_values(|e: (Seq<char>, u64)| ("language"@, e.0, e.1));
    while i < langs.len()
        invariant
            i <= langs.len(),
            lv == count_view(langs@).map_values(|e: (Seq<char>, u64)| ("language"@, e.0, e.1)),
            dimension_views(out@) == lv.take(i as int),
        decreases langs.len() - i,
    {
        let ghost before = dimension_views(out@);
        out.push(DimensionCount { dimension: text("language"), key: langs[i].0.clone(), count: langs[i].1 });
        assert(dimension_views(out@) =~= before.push(lv[i as int]));
        assert(lv.take(i + 1) =~= lv.take(i as int).push(lv[i as int]));
        i = i + 1;
    }
    assert(lv.take(langs.len() as int) =~= lv);
    out.push(DimensionCount { dimension: text("node_kind"), key: text("unattributed"), count: total });
    out.push(DimensionCount { dimension: text("overall"), key: text("overall"), count: total });
    out.push(DimensionCount { dimension: text("relation_kind"), key: text("calls"), count: total });
    out.push(DimensionCount { dimension: text("resolver_tier"), key: text("unresolved"), count: total });
    assert(dimension_views(out@) =~= spec_dimension_counts(count_view(langs@), total));
}

/// The results of a measured report: the confusion matrices in dimension and
/// key order, recall where something was expected, and the unresolved and
/// ambiguous call-site counts per language and in total. A report without a
/// confusion object, without an overall axis or without cases is refused.
/// The results a report with cases and a total confusion matrix gives:
/// its confusion matrices and recall, and the unresolved and ambiguous
/// counts per language and overall.
pub open spec fn results_of(report: ScorerReport, res: Results) -> bool {
    &&& matrix_views(res.confusion_matrices@) == spec_matrices(report.confusion->0)
    &&& recall_views(res.recall@) == spec_recall(spec_matrices(report.confusion->0))
    &&& exists|langs: Seq<(Seq<char>, u64)>|
        #![trigger spec_dimension_counts(langs, reported_total(report.cases->0@) as u64)]
        ascending(langs) && (forall|k: Seq<char>| #[trigger] has_key(langs, k) <==> language_seen(report.cases->0@, k))
            && (forall|k: Seq<char>| #[trigger] amount_of(langs, k) == reported_in(report.cases->0@, k))
            && dimension_views(res.unresolved@) == spec_dimension_counts(langs, reported_total(report.cases->0@) as u64)
    &&& exists|langs: Seq<(Seq<char>, u64)>|
        #![trigger spec_dimension_counts(langs, expected_total(report.cases->0@) as u64)]
        ascending(langs) && (forall|k: Seq<char>| #[trigger] has_key(langs, k) <==> language_seen(report.cases->0@, k))
            && (forall|k: Seq<char>| #[trigger] amount_of(langs, k) == expected_in(report.cases->0@, k))
            && dimension_views(res.ambiguous@) == spec_dimension_counts(langs, expected_total(report.cases->0@) as u64)
}

pub fn results_from(report: &ScorerReport) -> (r: Result<Results, MeasurementError>)
    requires
        report.wf(),
        report.confusion matches Some(c) ==> recall_fits(c.total) && recall_fits(c.language)
            && recall_fits(c.object_type) && recall_fits(c.relation) && recall_fits(c.tier),
        report.cases matches Some(cs) ==> reported_total(cs@) <= u64::MAX && expected_total(cs@)
            <= u64::MAX,
    ensures
        match r {
            Ok(res) => {
                &&& report.confusion is Some && report.confusion->0.total is Some && report.cases is Some
                &&& results_of(*report, res)
            },
            Err(e) => match e {
                MeasurementError::InvalidScorerReport(d) => if report.confusion is None {
                    d@ == "missing confusion object"@
                } else if report.confusion->0.total is None {
                    d@ == "missing total confusion"@
                } else {
                    report.cases is None && d@ == "missing cases object"@
                },
                _ => false,
            },
        },
{
    let confusion = match &report.confusion {
        Some(c) => c,
        None => {
            return Err(MeasurementError::InvalidScorerReport(text("missing confusion object")));
        },
    };
    if confusion.total.is_none() {
        return Err(MeasurementError::InvalidScorerReport(text("missing total confusion")));
    }
    let mut matrices: Vec<ConfusionMatrix> = Vec::new();
    assert(matrix_views(matrices@) =~= Seq::<MatrixView>::empty());
    push_axis(&mut matrices, &confusion.language, "language", false);
    push_axis(&mut matrices, &confusion.object_type, "node_kind", false);
    push_axis(&mut matrices, &confusion.total, "overall", true);
    push_axis(&mut matrices, &confusion.relation, "relation_kind", false);
    push_axis(&mut matrices, &confusion.tier, "resolver_tier", false);
    let ghost ms = spec_matrices(*confusion);
    assert(matrix_views(matrices@) =~= ms);
    proof {
        lemma_matrices_fit(*confusion);
    }
    let mut recall: Vec<Recall> = Vec::new();
    let mut i: usize = 0;
    assert(spec_recall(ms.take(0)) =~= Seq::<RecallView>::empty());
    while i < matrices.len()
        invariant
            i <= matrices.len(),
            matrix_views(matrices@) == ms,
            forall|j: int| 0 <= j < ms.len() ==> (#[trigger] ms[j]).2.true_positive + ms[j].2.false_negative <= u64::MAX,
            recall_views(recall@) == spec_recall(ms.take(i as int)),
        decreases matrices.len() - i,
    {
        let m = &matrices[i];
        let ghost t = ms.take(i + 1);
        assert(t.drop_last() == ms.take(i as int));
        assert(t.last() == ms[i as int]);
        assert(ms[i as int] == (m.dimension@, m.key@, m.counts));
        let expected = m.counts.true_positive + m.counts.false_negative;
        if expected > 0 {
            let ghost before = recall_views(recall@);
            recall.push(Recall {
                dimension: m.dimension.clone(),
                key: m.key.clone(),
                recovered: m.counts.true_positive,
                expected,
            });
            assert(recall_views(recall@) =~= before.push((m.dimension@, m.key@, m.counts.true_positive, expected)));
        }
        i = i + 1;
    }
    assert(ms.take(matrices.len() as int) == ms);
    let cases = match &report.cases {
        Some(cs) => cs,
        None => {
            return Err(MeasurementError::InvalidScorerReport(text("missing cases object")));
        },
    };
    let mut reported = Tally::new();
    let mut expected = Tally::new();
    let mut reported_sum: u64 = 0;
    let mut expected_sum: u64 = 0;
    let mut c: usize = 0;
    while c < cases.len()
        invariant
            c <= cases.len(),
            reported_total(cases@) <= u64::MAX,
            expected_total(cases@) <= u64::MAX,
            reported_sum == reported_total(cases@.take(c as int)),
            expected_sum == expected_total(cases@.take(c as int)),
            forall|k: Seq<char>| #[trigger] has_key(reported@, k) <==> language_seen(cases@.take(c as int), k),
            forall|k: Seq<char>| #[trigger] has_key(expected@, k) <==> language_seen(cases@.take(c as int), k),
            forall|k: Seq<char>| #[trigger] amount_of(reported@, k) == reported_in(cases@.take(c as int), k),
            forall|k: Seq<char>| #[trigger] amount_of(expected@, k) == expected_in(cases@.take(c as int), k),
        decreases cases.len() - c,
    {
        let case = &cases[c];
        let ghost before = cases@.take(c as int);
        let ghost after = cases@.take(c + 1);
        assert(after.drop_last() == before);
        assert(after.last() == *case);
        let lang = language_of(case.name.as_str());
        proof {
            lemma_reported_bounds(cases@, c + 1, lang@);
        }
        reported.add(lang.as_str(), case.ambiguous_reported);
        expected.add(lang.as_str(), case.ambiguous_expected);
        reported_sum = reported_sum + case.ambiguous_reported;
        expected_sum = expected_sum + case.ambiguous_expected;
        proof {
            assert forall|k: Seq<char>| #[trigger] language_seen(after, k) <==> language_seen(before, k)
                || case_language(case.name@) == k by {
                if language_seen(after, k) {
                    let j = choose|j: int| 0 <= j < after.len() && case_language((#[trigger] after[j]).name@) == k;
                    if j < before.len() {
                        assert(before[j] == after[j]);
                    }
                }
                if language_seen(before, k) {
                    let j = choose|j: int| 0 <= j < before.len() && case_language((#[trigger] before[j]).name@) == k;
                    assert(after[j] == before[j]);
                }
                if case_language(case.name@) == k {
                    assert(after[c as int] == *case);
                }
            }
        }
        c = c + 1;
    }
    assert(cases@.take(cases.len() as int) == cases@);
    let langs_reported = reported.entries();
    let langs_expected = expected.entries();
    let mut unresolved: Vec<DimensionCount> = Vec::new();
    push_counts(&mut unresolved, &langs_reported, reported_sum);
    let mut ambiguous: Vec<DimensionCount> = Vec::new();
    push_counts(&mut ambiguous, &langs_expected, expected_sum);
    assert(report.cases == Some(*cases));
    assert(report.confusion == Some(*confusion));
    assert(matrix_views(matrices@) == spec_matrices(report.confusion->0));
    assert(recall_views(recall@) == spec_recall(spec_matrices(report.confusion->0)));
    assert(reported_sum == reported_total(report.cases->0@) as u64);
    assert(ascending(count_view(langs_reported@)));
    assert(dimension_views(unresolved@) == spec_dimension_counts(count_view(langs_reported@), reported_total(report.cases->0@) as u64));
    proof {
        let lr = count_view(langs_reported@);
        let le = count_view(langs_expected@);
        assert(lr == reported@);
        assert(le == expected@);
        assert forall|k: Seq<char>| #[trigger] has_key(lr, k) <==> language_seen(report.cases->0@, k) by {
            assert(has_key(reported@, k) <==> language_seen(cases@.take(cases.len() as int), k));
        }
        assert forall|k: Seq<char>| #[trigger] amount_of(lr, k) == reported_in(report.cases->0@, k) by {
            assert(amount_of(reported@, k) == reported_in(cases@.take(cases.len() as int), k));
        }
        assert forall|k: Seq<char>| #[trigger] has_key(le, k) <==> language_seen(report.cases->0@, k) by {
            assert(has_key(expected@, k) <==> language_seen(cases@.take(cases.len() as int), k));
        }
        assert forall|k: Seq<char>| #[trigger] amount_of(le, k) == expected_in(report.cases->0@, k) by {
            assert(amount_of(expected@, k) == expected_in(cases@.take(cases.len() as int), k));
        }
        assert(expected_sum == expected_total(report.cases->0@) as u64);
        assert(dimension_views(ambiguous@) == spec_dimension_counts(le, expected_total(report.cases->0@) as u64));
    }
    Ok(Results { confusion_matrices: matrices, unresolved, ambiguous, recall })
}

/// Every matrix's true positives and false negatives fit one count.
proof fn lemma_matrices_fit(c: ConfusionAxes)
    requires
        recall_fits(c.total) && recall_fits(c.language) && recall_fits(c.object_type) && recall_fits(c.relation)
            && recall_fits(c.tier),
    ensures
        forall|j: int|
            0 <= j < spec_matrices(c).len() ==> (#[trigger] spec_matrices(c)[j]).2.true_positive
                + spec_matrices(c)[j].2.false_negative <= u64::MAX,
{
    let ms = spec_matrices(c);
    assert forall|j: int| 0 <= j < ms.len() implies (#[trigger] ms[j]).2.true_positive + ms[j].2.false_negative
        <= u64::MAX by {
        let a = axis_matrices(c.language, "language"@, false);
        let b = axis_matrices(c.object_type, "node_kind"@, false);
        let t = axis_matrices(c.total, "overall"@, true);
        let r = axis_matrices(c.relation, "relation_kind"@, false);
        let x = axis_matrices(c.tier, "resolver_tier"@, false);
        if j < a.len() {
            assert(ms[j] == a[j]);
        } else if j < a.len() + b.len() {
            assert(ms[j] == b[j - a.len()]);
        } else if j < a.len() + b.len() + t.len() {
            assert(ms[j] == t[j - a.len() - b.len()]);
        } else if j < a.len() + b.len() + t.len() + r.len() {
            assert(ms[j] == r[j - a.len() - b.len() - t.len()]);
        } else {
            assert(ms[j] == x[j - a.len() - b.len() - t.len() - r.len()]);
        }
    }
}

/// The precision decision of a measured report: it passes exactly when no
/// heuristic edge was a false positive. A report that does not state that
/// count is refused.
pub fn precision_decision_passed(report: &ScorerReport) -> (r: Result<bool, MeasurementError>)
    ensures
        match report.edge_false_positives {
            Some(n) => r == Ok::<bool, MeasurementError>(n == 0),
            None => r matches Err(MeasurementError::InvalidScorerReport(d)) && d@ == "missing edge confusion counts"@,
        },
{
    match report.edge_false_positives {
        Some(n) => Ok(n == 0),
        None => Err(MeasurementError::InvalidScorerReport(text("missing edge confusion counts"))),
    }
}

/// Dimension-and-key order.
pub open spec fn dim_key_before(a: (Seq<char>, Seq<char>), b: (Seq<char>, Seq<char>)) -> bool {
    text_lt(a.0, b.0) || (a.0 == b.0 && text_lt(a.1, b.1))
}

/// The matrices are in dimension-and-key order: none sorts before one that
/// precedes it.
pub open spec fn matrices_in_order(s: Seq<MatrixView>) -> bool {
    forall|i: int, j: int|
        0 <= i < j < s.len() ==> !dim_key_before((#[trigger] s[j].0, s[j].1), (#[trigger] s[i].0, s[i].1))
}

/// The counts are in dimension-and-key order.
pub open spec fn counts_in_order(s: Seq<CountView>) -> bool {
    forall|i: int, j: int|
        0 <= i < j < s.len() ==> !dim_key_before((#[trigger] s[j].0, s[j].1), (#[trigger] s[i].0, s[i].1))
}

/// The dimension names, in the order they sort.
pub open spec fn dimension_rank(d: Seq<char>) -> int {
    if d == "language"@ {
        0
    } else if d == "node_kind"@ {
        1
    } else if d == "overall"@ {
        2
    } else if d == "relation_kind"@ {
        3
    } else {
        4
    }
}

/// The five dimension names sort in the order of their rank.
proof fn lemma_dimension_names_sort(a: Seq<char>, b: Seq<char>)
    requires
        a == "language"@ || a == "node_kind"@ || a == "overall"@ || a == "relation_kind"@ || a
            == "resolver_tier"@,
        b == "language"@ || b == "node_kind"@ || b == "overall"@ || b == "relation_kind"@ || b
            == "resolver_tier"@,
        dimension_rank(a) < dimension_rank(b),
    ensures
        text_lt(a, b),
        !text_lt(b, a),
{
    reveal_strlit("language");
    reveal_strlit("node_kind");
    reveal_strlit("overall");
    reveal_strlit("relation_kind");
    reveal_strlit("resolver_tier");
    if a == "relation_kind"@ {
        assert(b == "resolver_tier"@);
        assert(a.drop_first().drop_first()[0] == 'l');
        assert(b.drop_first().drop_first()[0] == 's');
        assert(text_lt(a.drop_first().drop_first(), b.drop_first().drop_first()));
        assert(text_lt(a.drop_first(), b.drop_first()));
        assert(!text_lt(b.drop_first().drop_first(), a.drop_first().drop_first()));
        assert(!text_lt(b.drop_first(), a.drop_first()));
    }
}

/// Within one axis the keys ascend; across axes the dimension names do.
pub proof fn law_matrices_come_in_dimension_order(c: ConfusionAxes)
    requires
        axis_wf(c.total),
        axis_wf(c.language),
        axis_wf(c.object_type),
        axis_wf(c.relation),
        axis_wf(c.tier),
    ensures
        matrices_in_order(spec_matrices(c)),
{
    let ms = spec_matrices(c);
    let a = axis_matrices(c.language, "language"@, false);
    let b = axis_matrices(c.object_type, "node_kind"@, false);
    let t = axis_matrices(c.total, "overall"@, true);
    let r = axis_matrices(c.relation, "relation_kind"@, false);
    let x = axis_matrices(c.tier, "resolver_tier"@, false);
    let o1 = a.len();
    let o2 = o1 + b.len();
    let o3 = o2 + t.len();
    let o4 = o3 + r.len();
    assert(ms =~= a + b + t + r + x);
    reveal_strlit("language");
    reveal_strlit("node_kind");
    reveal_strlit("overall");
    reveal_strlit("relation_kind");
    reveal_strlit("resolver_tier");
    assert("relation_kind"@[2] != "resolver_tier"@[2]);
    assert("relation_kind"@ != "resolver_tier"@);
    assert("node_kind"@.len() != "language"@.len());
    assert("overall"@.len() != "language"@.len() && "overall"@.len() != "node_kind"@.len());
    assert("relation_kind"@.len() != "language"@.len() && "relation_kind"@.len() != "node_kind"@.len()
        && "relation_kind"@.len() != "overall"@.len());
    assert("resolver_tier"@.len() != "language"@.len() && "resolver_tier"@.len() != "node_kind"@.len()
        && "resolver_tier"@.len() != "overall"@.len());
    assert(dimension_rank("language"@) == 0);
    assert(dimension_rank("node_kind"@) == 1);
    assert(dimension_rank("overall"@) == 2);
    assert(dimension_rank("relation_kind"@) == 3);
    assert(dimension_rank("resolver_tier"@) == 4);
    assert forall|i: int, j: int| 0 <= i < j < ms.len() implies !dim_key_before(
        (#[trigger] ms[j].0, ms[j].1),
        (#[trigger] ms[i].0, ms[i].1),
    ) by {
        let seg_i = if i < o1 { 0int } else if i < o2 { 1int } else if i < o3 { 2int } else if i < o4 { 3int } else { 4int };
        let seg_j = if j < o1 { 0int } else if j < o2 { 1int } else if j < o3 { 2int } else if j < o4 { 3int } else { 4int };
        if i < o1 { assert(ms[i] == a[i]); } else if i < o2 { assert(ms[i] == b[i - o1]); } else if i < o3 {
            assert(ms[i] == t[i - o2]); } else if i < o4 { assert(ms[i] == r[i - o3]); } else { assert(ms[i] == x[i - o4]); }
        if j < o1 { assert(ms[j] == a[j]); } else if j < o2 { assert(ms[j] == b[j - o1]); } else if j < o3 {
            assert(ms[j] == t[j - o2]); } else if j < o4 { assert(ms[j] == r[j - o3]); } else { assert(ms[j] == x[j - o4]); }
        if seg_i < seg_j {
            lemma_dimension_names_sort(ms[i].0, ms[j].0);
        } else {
            lemma_text_lt_irreflexive(ms[i].0);
            if seg_i == 0 {
                lemma_axis_keys_ordered(c.language, "language"@, i, j);
            } else if seg_i == 1 {
                lemma_axis_keys_ordered(c.object_type, "node_kind"@, i - o1, j - o1);
            } else if seg_i == 2 {
                lemma_text_lt_irreflexive("overall"@);
            } else if seg_i == 3 {
                lemma_axis_keys_ordered(c.relation, "relation_kind"@, i - o3, j - o3);
            } else {
                lemma_axis_keys_ordered(c.tier, "resolver_tier"@, i - o4, j - o4);
            }
        }
    }
}

/// Two entries of one ascending axis, in order.
proof fn lemma_axis_keys_ordered(axis: Option<Vec<AxisEntry>>, d: Seq<char>, i: int, j: int)
    requires
        axis_wf(axis),
        0 <= i < j < axis_matrices(axis, d, false).len(),
    ensures
        text_lt(axis_matrices(axis, d, false)[i].1, axis_matrices(axis, d, false)[j].1),
        !text_lt(axis_matrices(axis, d, false)[j].1, axis_matrices(axis, d, false)[i].1),
{
    let v = axis->0@;
    assert(axis_keys(v)[i] == v[i].key@);
    assert(axis_keys(v)[j] == v[j].key@);
    crate::order::lemma_text_lt_total(v[i].key@, v[j].key@);
}

/// The per-language counts come first, in language order, then one count
/// under each other dimension, in dimension order.
pub proof fn law_counts_come_in_dimension_order(langs: Seq<(Seq<char>, u64)>, total: u64)
    requires
        ascending(langs),
    ensures
        counts_in_order(spec_dimension_counts(langs, total)),
{
    reveal_strlit("language");
    reveal_strlit("node_kind");
    reveal_strlit("overall");
    reveal_strlit("relation_kind");
    reveal_strlit("resolver_tier");
    assert("relation_kind"@[2] != "resolver_tier"@[2]);
    assert("relation_kind"@ != "resolver_tier"@);
    assert("node_kind"@.len() != "language"@.len());
    assert("overall"@.len() != "language"@.len() && "overall"@.len() != "node_kind"@.len());
    assert("relation_kind"@.len() != "language"@.len() && "relation_kind"@.len() != "node_kind"@.len()
        && "relation_kind"@.len() != "overall"@.len());
    assert("resolver_tier"@.len() != "language"@.len() && "resolver_tier"@.len() != "node_kind"@.len()
        && "resolver_tier"@.len() != "overall"@.len());
    assert(dimension_rank("language"@) == 0);
    assert(dimension_rank("node_kind"@) == 1);
    assert(dimension_rank("overall"@) == 2);
    assert(dimension_rank("relation_kind"@) == 3);
    assert(dimension_rank("resolver_tier"@) == 4);
    let s = spec_dimension_counts(langs, total);
    let n = langs.len() as int;
    assert forall|i: int, j: int| 0 <= i < j < s.len() implies !dim_key_before(
        (#[trigger] s[j].0, s[j].1),
        (#[trigger] s[i].0, s[i].1),
    ) by {
        if j < n {
            assert(s[i] == ("language"@, langs[i].0, langs[i].1));
            assert(s[j] == ("language"@, langs[j].0, langs[j].1));
            lemma_text_lt_irreflexive("language"@);
            crate::order::lemma_text_lt_total(langs[i].0, langs[j].0);
        } else {
            if i < n {
                assert(s[i].0 == "language"@);
            }
            lemma_dimension_names_sort(s[i].0, s[j].0);
        }
    }
}

/// Each (dimension, key) pair sorts strictly after the one before it: the
/// pairs are in order and none repeats.
pub open spec fn strictly_ordered(keys: Seq<(Seq<char>, Seq<char>)>) -> bool {
    forall|i: int| 0 <= i < keys.len() - 1 ==> dim_key_before(#[trigger] keys[i], keys[i + 1])
}

/// Whether (dimension, key) pairs are sorted without duplicates.
pub fn sorted_without_duplicates(keys: &Vec<(String, String)>) -> (r: bool)
    ensures
        r == strictly_ordered(keys@.map_values(|k: (String, String)| (k.0@, k.1@))),
{
    let ghost ks = keys@.map_values(|k: (String, String)| (k.0@, k.1@));
    if keys.len() == 0 {
        return true;
    }
    let mut i: usize = 0;
    while i + 1 < keys.len()
        invariant
            i + 1 <= keys.len(),
            ks == keys@.map_values(|k: (String, String)| (k.0@, k.1@)),
            forall|j: int| 0 <= j < i ==> dim_key_before(#[trigger] ks[j], ks[j + 1]),
        decreases keys.len() - i,
    {
        let a = &keys[i];
        let b = &keys[i + 1];
        assert(ks[i as int] == (a.0@, a.1@));
        assert(ks[i + 1] == (b.0@, b.1@));
        let before = match crate::order::compare_text(a.0.as_str(), b.0.as_str()) {
            crate::order::Precedence::Before => true,
            crate::order::Precedence::After => false,
            crate::order::Precedence::Same => crate::order::compare_text(a.1.as_str(), b.1.as_str())
                == crate::order::Precedence::Before,
        };
        if !before {
            return false;
        }
        i = i + 1;
    }
    true
}

/// Some matrix is in the dimension.
pub open spec fn names_dimension(dimensions: Seq<String>, d: Seq<char>) -> bool {
    exists|i: int| 0 <= i < dimensions.len() && (#[trigger] dimensions[i])@ == d
}

/// The first of `overall`, `language`, `node_kind`, `relation_kind` and
/// `resolver_tier` in which no matrix stands, if there is one: a measured
/// record needs matrices in all five.
pub open spec fn first_missing_dimension(dimensions: Seq<String>) -> Option<Seq<char>> {
    if !names_dimension(dimensions, "overall"@) {
        Some("overall"@)
    } else if !names_dimension(dimensions, "language"@) {
        Some("language"@)
    } else if !names_dimension(dimensions, "node_kind"@) {
        Some("node_kind"@)
    } else if !names_dimension(dimensions, "relation_kind"@) {
        Some("relation_kind"@)
    } else if !names_dimension(dimensions, "resolver_tier"@) {
        Some("resolver_tier"@)
    } else {
        None
    }
}

/// Whether some matrix's dimension is `d`.
fn has_dimension(dimensions: &Vec<String>, d: &str) -> (r: bool)
    ensures
        r == names_dimension(dimensions@, d@),
{
    let mut i: usize = 0;
    while i < dimensions.len()
        invariant
            i <= dimensions.len(),
            forall|j: int| 0 <= j < i ==> (#[trigger] dimensions@[j])@ != d@,
        decreases dimensions.len() - i,
    {
        if crate::order::same_text(dimensions[i].as_str(), d) {
            return true;
        }
        i = i + 1;
    }
    false
}

/// The first dimension, in the order they are checked, in which a measured
/// record's matrices leave a gap.
pub fn missing_dimension(dimensions: &Vec<String>) -> (r: Option<&'static str>)
    ensures
        match r {
            Some(d) => first_missing_dimension(dimensions@) == Some(d@),
            None => first_missing_dimension(dimensions@) is None,
        },
{
    if !has_dimension(dimensions, "overall") {
        Some("overall")
    } else if !has_dimension(dimensions, "language") {
        Some("language")
    } else if !has_dimension(dimensions, "node_kind") {
        Some("node_kind")
    } else if !has_dimension(dimensions, "relation_kind") {
        Some("relation_kind")
    } else if !has_dimension(dimensions, "resolver_tier") {
        Some("resolver_tier")
    } else {
        None
    }
}

/// What an observation records of a population: its census, and results
/// only when the population was measured.
#[derive(Debug, Clone)]
pub struct ObservationParts {
    pub census: Census,
    pub results: Option<Results>,
}

/// The census and results an observation of the population records. Only a
/// measured population has results, and it must come with its scorer
/// report; any other population records an empty census and no results,
/// whatever report is given.
pub fn observation_parts(report: Option<&ScorerReport>, population: &Population) -> (r: Result<
    ObservationParts,
    MeasurementError,
>)
    requires
        report matches Some(rep) ==> {
            &&& rep.wf()
            &&& rep.cases matches Some(cs) ==> (forall|t: Seq<char>| #[trigger] node_kind_total(cs@, t) <= u64::MAX)
                && reported_total(cs@) <= u64::MAX && expected_total(cs@) <= u64::MAX
            &&& rep.confusion matches Some(c) ==> axis_totals_fit(c.relation) && axis_totals_fit(c.tier)
                && recall_fits(c.total) && recall_fits(c.language) && recall_fits(c.object_type)
                && recall_fits(c.relation) && recall_fits(c.tier)
        },
    ensures
        population.state != PopulationState::Measured ==> (r matches Ok(parts) && parts.results is None
            && parts.census.languages.len() == 0 && parts.census.node_kinds.len() == 0
            && parts.census.relation_kinds.len() == 0 && parts.census.resolver_tiers.len() == 0),
        population.state == PopulationState::Measured ==> match r {
            Ok(parts) => {
                &&& report matches Some(rep) && rep.cases is Some && rep.confusion is Some
                    && rep.confusion->0.total is Some
                &&& census_of(*report->0, parts.census)
                &&& parts.results matches Some(res) && results_of(*report->0, res)
            },
            Err(MeasurementError::InvalidScorerReport(d)) => match report {
                None => d@ == "measured population requires a scorer report"@,
                Some(rep) => if rep.cases is None {
                    d@ == "missing cases object"@
                } else if rep.confusion is None {
                    d@ == "missing confusion object"@
                } else {
                    rep.confusion->0.total is None && d@ == "missing total confusion"@
                },
            },
            Err(_) => false,
        },
{
    match population.state {
        PopulationState::Measured => {
            let rep = match report {
                Some(rep) => rep,
                None => {
                    return Err(MeasurementError::InvalidScorerReport(
                        text("measured population requires a scorer report"),
                    ));
                },
            };
            let census = match census_from(rep) {
                Ok(c) => c,
                Err(e) => {
                    return Err(e);
                },
            };
            let results = match results_from(rep) {
                Ok(r) => r,
                Err(e) => {
                    return Err(e);
                },
            };
            Ok(ObservationParts { census, results: Some(results) })
        },
        _ => Ok(
            ObservationParts {
                census: Census {
                    languages: Vec::new(),
                    node_kinds: Vec::new(),
                    relation_kinds: Vec::new(),
                    resolver_tiers: Vec::new(),
                },
                results: None,
            },
        ),
    }
}

} // verus!
