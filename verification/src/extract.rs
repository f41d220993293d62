//! Batch extraction: the library's entry point.
//!
//! Ties parsing, naming, structural edges, provenance, mentions and
//! canonical emission into one pass over a batch, and reports what the batch
//! bounded. Load, resolve, emit, drop: the fact corpus lives for the call and
//! is dropped with it.

use vstd::prelude::*;

use crate::edges::{edge_key, key_lt, EdgeAccumulator, EdgeType, Evidence, Reason};
use crate::facts::{spec_unresolved_import_message, CodeFact, Diagnostic, DiagnosticView, Severity};
use crate::imports;
use crate::mentions::{mentions_sorted, sort_dedup, Mention};
use crate::naming::file_name;
use crate::order::{compare_text, lemma_text_lt_irreflexive, lemma_text_lt_transitive, text_lt, Precedence};
use crate::parse::{CallSite, CommentText, SourceFile};
use crate::typeenv::RawBinding;
use crate::records::{
    distinct_triples, edge_record, edge_record_matches, edge_triple, edges_in_order,
    law_sorting_keeps_edges_deduplicated, lemma_edge_type_names_distinct, no_self_edges,
    law_sorted_edges_are_ordered_permutations,
    law_sorted_nodes_are_ordered_permutations, node_record, node_record_matches, nodes_in_order, sort_edges,
    sort_nodes, sorted_nodes, EdgeRecord, NodeRecord,
};
use crate::table::{PairMap, TextMap, TextRelation, TextSet};
use crate::text::{chars_of, extend_chars, string_of};
use crate::naming::decimal_chars;
use crate::order::same_text;
use crate::walk::{facts_hang_together, opens_with_file_fact, parse_file, parsed_from, ParsedFile};
use crate::declared::scope_key;
use crate::facts::ObjectType;
use crate::resolve::{
    imported_types, reaches_type, resolve_call, resolve_type_relation, spec_resolve_call, spec_resolve_type_relation,
    LocalScope,
};
use crate::typeenv::{solve, Corpus, TypeEnv};
use crate::edges::{
    finished_edge_matches, finished_evidence, fold_site, lemma_lookup_unique, lookup_pending, spec_confidence,
    spec_edge_type_name, spec_reason_name, Edge, EdgeKey, EvidenceView, PendingView,
};
use crate::imports::{spec_is_relative, spec_resolve};
use crate::mentions::{sort_dedup_mentions, spec_harvest, MentionView};
use crate::naming::{spec_file_name, spec_normalize_path};

verus! {

/// What one extraction produced.
#[derive(Debug, Clone, PartialEq, Eq)]
pub struct ExtractionResult {
    pub nodes: Vec<NodeRecord>,
    pub edges: Vec<EdgeRecord>,
    pub mentions: Vec<Mention>,
    pub diagnostics: Vec<Diagnostic>,
    pub stats: ExtractionStats,
}

/// What the batch bounded, so an under-supplied batch is visible rather than
/// silent.
#[derive(Debug, Clone, Copy, PartialEq, Eq)]
pub struct ExtractionStats {
    pub files: u32,
    pub files_with_errors: u32,
    pub unresolved_calls: u32,
}

impl Default for ExtractionStats {
    fn default() -> (s: Self)
        ensures
            s.files == 0 && s.files_with_errors == 0 && s.unresolved_calls == 0,
    {
        ExtractionStats { files: 0, files_with_errors: 0, unresolved_calls: 0 }
    }
}

/// File order: org, repo, then normalized path.
pub open spec fn file_key_before(a: (Seq<char>, Seq<char>, Seq<char>), b: (Seq<char>, Seq<char>, Seq<char>)) -> bool {
    ||| text_lt(a.0, b.0)
    ||| a.0 == b.0 && text_lt(a.1, b.1)
    ||| a.0 == b.0 && a.1 == b.1 && text_lt(a.2, b.2)
}

fn file_key_precedes(a: &(String, String, String, usize), b: &(String, String, String, usize)) -> (r: bool)
    ensures
        r == file_key_before((a.0@, a.1@, a.2@), (b.0@, b.1@, b.2@)),
{
    match compare_text(a.0.as_str(), b.0.as_str()) {
        Precedence::Before => true,
        Precedence::After => false,
        Precedence::Same => match compare_text(a.1.as_str(), b.1.as_str()) {
            Precedence::Before => true,
            Precedence::After => false,
            Precedence::Same => compare_text(a.2.as_str(), b.2.as_str()) == Precedence::Before,
        },
    }
}

/// Diagnostic order: path, then line (none first), then code.
pub open spec fn diagnostic_before(a: Diagnostic, b: Diagnostic) -> bool {
    ||| text_lt(a.path@, b.path@)
    ||| a.path@ == b.path@ && line_before(a.line, b.line)
    ||| a.path@ == b.path@ && a.line == b.line && text_lt(a.code@, b.code@)
}

pub open spec fn line_before(a: Option<u32>, b: Option<u32>) -> bool {
    match (a, b) {
        (None, Some(_)) => true,
        (Some(x), Some(y)) => x < y,
        _ => false,
    }
}

fn diagnostic_precedes(a: &Diagnostic, b: &Diagnostic) -> (r: bool)
    ensures
        r == diagnostic_before(*a, *b),
{
    match compare_text(a.path.as_str(), b.path.as_str()) {
        Precedence::Before => true,
        Precedence::After => false,
        Precedence::Same => {
            let lines_before = match (a.line, b.line) {
                (None, Some(_)) => true,
                (Some(x), Some(y)) => x < y,
                _ => false,
            };
            if lines_before {
                return true;
            }
            if a.line != b.line {
                return false;
            }
            compare_text(a.code.as_str(), b.code.as_str()) == Precedence::Before
        },
    }
}

/// The diagnostics are in report order: none sorts before one that precedes
/// it.
pub open spec fn diagnostics_in_order(s: Seq<Diagnostic>) -> bool {
    forall|i: int, j: int| 0 <= i < j < s.len() ==> !diagnostic_before(#[trigger] s[j], #[trigger] s[i])
}

proof fn lemma_diagnostic_before_order(a: Diagnostic, b: Diagnostic, c: Diagnostic)
    ensures
        !diagnostic_before(a, a),
        diagnostic_before(a, b) && diagnostic_before(b, c) ==> diagnostic_before(a, c),
{
    lemma_text_lt_irreflexive(a.path@);
    lemma_text_lt_irreflexive(a.code@);
    if diagnostic_before(a, b) && diagnostic_before(b, c) {
        if text_lt(a.path@, b.path@) && text_lt(b.path@, c.path@) {
            lemma_text_lt_transitive(a.path@, b.path@, c.path@);
        }
        if text_lt(a.code@, b.code@) && text_lt(b.code@, c.code@) {
            lemma_text_lt_transitive(a.code@, b.code@, c.code@);
        }
    }
}

/// The diagnostics as plain values.
pub open spec fn diagnostic_views(ds: Seq<Diagnostic>) -> Seq<DiagnosticView> {
    ds.map_values(|d: Diagnostic| d@)
}

/// Sort diagnostics stably into report order.
fn sort_diagnostics(ds: Vec<Diagnostic>) -> (out: Vec<Diagnostic>)
    ensures
        diagnostics_in_order(out@),
        out@.to_multiset() == ds@.to_multiset(),
        diagnostic_views(out@).to_multiset() == diagnostic_views(ds@).to_multiset(),
{
    broadcast use vstd::seq_lib::group_to_multiset_ensures;

    let mut rest = ds;
    let ghost all = rest@;
    let total = rest.len();
    let mut sorted: Vec<Diagnostic> = Vec::new();
    let mut n: usize = 0;
    assert(all.take(0) =~= Seq::<Diagnostic>::empty());
    while rest.len() > 0
        invariant
            n + rest.len() == all.len(),
            all.len() == total,
            rest@ == all.skip(n as int),
            diagnostics_in_order(sorted@),
            sorted@.to_multiset() == all.take(n as int).to_multiset(),
            diagnostic_views(sorted@).to_multiset() == diagnostic_views(all.take(n as int)).to_multiset(),
        decreases rest.len(),
    {
        let e = rest.remove(0);
        proof {
            assert(e == all[n as int]);
            assert(all.skip(n + 1) =~= all.skip(n as int).drop_first());
            assert(all.take(n + 1) =~= all.take(n as int).push(e));
        }
        let mut i: usize = 0;
        while i < sorted.len() && !diagnostic_precedes(&e, &sorted[i])
            invariant
                i <= sorted.len(),
                forall|j: int| 0 <= j < i ==> !diagnostic_before(e, #[trigger] sorted@[j]),
            decreases sorted.len() - i,
        {
            i = i + 1;
        }
        let ghost s = sorted@;
        sorted.insert(i, e);
        proof {
            let r = sorted@;
            assert(r == s.insert(i as int, e));
            vstd::seq_lib::to_multiset_insert(s, i as int, e);
            vstd::seq_lib::to_multiset_build(all.take(n as int), e);
            assert(diagnostic_views(r) =~= diagnostic_views(s).insert(i as int, e@));
            assert(diagnostic_views(all.take(n + 1)) =~= diagnostic_views(all.take(n as int)).push(e@));
            vstd::seq_lib::to_multiset_insert(diagnostic_views(s), i as int, e@);
            vstd::seq_lib::to_multiset_build(diagnostic_views(all.take(n as int)), e@);
            assert forall|a: int, b: int| 0 <= a < b < r.len() implies !diagnostic_before(#[trigger] r[b], #[trigger] r[a]) by {
                let k = i as int;
                if b < k {
                    assert(r[a] == s[a] && r[b] == s[b]);
                } else if b == k {
                    assert(r[a] == s[a]);
                } else if a < k {
                    assert(r[a] == s[a] && r[b] == s[b - 1]);
                } else if a == k {
                    assert(r[b] == s[b - 1]);
                    lemma_diagnostic_before_order(s[b - 1], e, s[k]);
                    if b - 1 > k {
                        assert(!diagnostic_before(s[b - 1], s[k]));
                    }
                } else {
                    assert(r[a] == s[a - 1] && r[b] == s[b - 1]);
                }
            }
        }
        n = n + 1;
    }
    assert(all.take(n as int) == all);
    sorted
}

/// A file's place in processing order: org, repo, normalized path.
pub open spec fn file_key(f: SourceFile) -> (Seq<char>, Seq<char>, Seq<char>) {
    (f.org@, f.repo@, crate::naming::spec_normalize_path(f.path@))
}

/// Position `a` is processed before position `b`: its key sorts first, or
/// the keys are equal and it came first in the batch.
pub open spec fn processed_before(files: Seq<SourceFile>, a: usize, b: usize) -> bool {
    file_key_before(file_key(files[a as int]), file_key(files[b as int])) || (file_key(files[a as int])
        == file_key(files[b as int]) && a < b)
}

/// `order` holds each position of the batch once, in processing order.
pub open spec fn processing_order(files: Seq<SourceFile>, order: Seq<usize>) -> bool {
    &&& order.len() == files.len()
    &&& forall|i: int| 0 <= i < order.len() ==> #[trigger] order[i] < files.len()
    &&& forall|i: int, j: int|
        0 <= i < j < order.len() ==> processed_before(files, #[trigger] order[i], #[trigger] order[j])
}

proof fn lemma_file_key_order(
    a: (Seq<char>, Seq<char>, Seq<char>),
    b: (Seq<char>, Seq<char>, Seq<char>),
    c: (Seq<char>, Seq<char>, Seq<char>),
)
    ensures
        !file_key_before(a, a),
        file_key_before(a, b) ==> !file_key_before(b, a),
        file_key_before(a, b) && file_key_before(b, c) ==> file_key_before(a, c),
        file_key_before(a, b) || a == b || file_key_before(b, a),
{
    lemma_text_lt_irreflexive(a.0);
    lemma_text_lt_irreflexive(a.1);
    lemma_text_lt_irreflexive(a.2);
    crate::order::lemma_text_lt_total(a.0, b.0);
    crate::order::lemma_text_lt_total(a.1, b.1);
    crate::order::lemma_text_lt_total(a.2, b.2);
    if file_key_before(a, b) && file_key_before(b, c) {
        if text_lt(a.0, b.0) && text_lt(b.0, c.0) {
            lemma_text_lt_transitive(a.0, b.0, c.0);
        }
        if text_lt(a.1, b.1) && text_lt(b.1, c.1) {
            lemma_text_lt_transitive(a.1, b.1, c.1);
        }
        if text_lt(a.2, b.2) && text_lt(b.2, c.2) {
            lemma_text_lt_transitive(a.2, b.2, c.2);
        }
    }
    assert(a.0 == b.0 && a.1 == b.1 && a.2 == b.2 ==> a == b);
}

/// The positions of the files in processing order: by org, repo and
/// normalized path, ties kept in input order.
fn file_order(files: &[SourceFile]) -> (order: Vec<usize>)
    ensures
        processing_order(files@, order@),
{
    let ghost fs = files@;
    let mut sorted: Vec<(String, String, String, usize)> = Vec::new();
    let mut i: usize = 0;
    while i < files.len()
        invariant
            fs == files@,
            i <= files.len(),
            sorted.len() == i,
            forall|m: int|
                0 <= m < sorted.len() ==> (#[trigger] sorted[m]).3 < i && (sorted[m].0@, sorted[m].1@, sorted[m].2@)
                    == file_key(fs[sorted[m].3 as int]),
            forall|m: int, n: int|
                0 <= m < n < sorted.len() ==> processed_before(fs, (#[trigger] sorted[m]).3, (#[trigger] sorted[n]).3),
        decreases files.len() - i,
    {
        let f = &files[i];
        let e = (f.org.clone(), f.repo.clone(), f.normalized_path(), i);
        assert((e.0@, e.1@, e.2@) == file_key(fs[i as int]));
        let mut k: usize = 0;
        while k < sorted.len() && !file_key_precedes(&e, &sorted[k])
            invariant
                k <= sorted.len(),
                forall|m: int| 0 <= m < k ==> !file_key_before((e.0@, e.1@, e.2@), (#[trigger] sorted[m].0@, sorted[m].1@, sorted[m].2@)),
            decreases sorted.len() - k,
        {
            k = k + 1;
        }
        let ghost before = sorted@;
        sorted.insert(k, e);
        proof {
            let ek = file_key(fs[i as int]);
            assert forall|m: int| 0 <= m < before.len() implies processed_before(fs, (#[trigger] before[m]).3, i) || processed_before(fs, i, before[m].3) by {
                let mk = file_key(fs[before[m].3 as int]);
                lemma_file_key_order(mk, ek, mk);
            }
            assert forall|m: int, n: int| 0 <= m < n < sorted.len() implies processed_before(
                fs,
                (#[trigger] sorted[m]).3,
                (#[trigger] sorted[n]).3,
            ) by {
                let kk = k as int;
                if n < kk {
                    assert(sorted[m] == before[m] && sorted[n] == before[n]);
                } else if n == kk {
                    assert(sorted[m] == before[m]);
                    let mk = file_key(fs[before[m].3 as int]);
                    lemma_file_key_order(ek, mk, ek);
                } else if m < kk {
                    assert(sorted[m] == before[m] && sorted[n] == before[n - 1]);
                } else if m == kk {
                    assert(sorted[n] == before[n - 1]);
                    let nk = file_key(fs[before[n - 1].3 as int]);
                    let kk_key = file_key(fs[before[kk].3 as int]);
                    // e sorts strictly before before[k], which sorts no later than before[n-1].
                    lemma_file_key_order(ek, kk_key, nk);
                    if n - 1 > kk {
                        assert(processed_before(fs, before[kk].3, before[n - 1].3));
                    }
                } else {
                    assert(sorted[m] == before[m - 1] && sorted[n] == before[n - 1]);
                }
            }
        }
        i = i + 1;
    }
    let mut order: Vec<usize> = Vec::new();
    let mut j: usize = 0;
    while j < sorted.len()
        invariant
            fs == files@,
            j <= sorted.len(),
            sorted.len() == files.len(),
            order.len() == j,
            forall|m: int| 0 <= m < j ==> #[trigger] order[m] == sorted[m].3,
            forall|m: int| 0 <= m < sorted.len() ==> (#[trigger] sorted[m]).3 < files.len(),
        decreases sorted.len() - j,
    {
        order.push(sorted[j].3);
        j = j + 1;
    }
    proof {
        assert forall|a: int, b: int| 0 <= a < b < order.len() implies processed_before(
            fs,
            #[trigger] order[a],
            #[trigger] order[b],
        ) by {
            assert(order[a] == sorted[a].3 && order[b] == sorted[b].3);
        }
    }
    order
}

/// One site contributing to an edge: its triple, its reason, its evidence.
pub type Site = (EdgeKey, Reason, EvidenceView);

/// The normalized paths of the batch.
pub open spec fn batch_paths(files: Seq<SourceFile>) -> Set<Seq<char>> {
    files.map_values(|f: SourceFile| spec_normalize_path(f.path@)).to_set()
}

/// Each fact with a parent contributes a containment site, evidenced at
/// the fact's first line.
pub open spec fn containment_sites(facts: Seq<CodeFact>, path: Seq<char>) -> Seq<Site>
    decreases facts.len(),
{
    if facts.len() == 0 {
        Seq::empty()
    } else {
        let f = facts.last();
        containment_sites(facts.drop_last(), path) + match f.parent {
            Some(p) => seq![((p@, EdgeType::Contains, f.qualified_name@), Reason::Syntactic, (path, f.span.start))],
            None => Seq::empty(),
        }
    }
}

/// Each relative import that names a file of the batch contributes an
/// import site from the importing file to that file.
pub open spec fn import_sites(imports: Seq<(String, u32)>, file: SourceFile, fqn: Seq<char>, batch: Set<Seq<char>>) -> Seq<
    Site,
>
    decreases imports.len(),
{
    if imports.len() == 0 {
        Seq::empty()
    } else {
        let spec_text = imports.last().0@;
        let line = imports.last().1;
        let path = spec_normalize_path(file.path@);
        let target = spec_resolve(spec_text, path, file.language, batch);
        import_sites(imports.drop_last(), file, fqn, batch) + if spec_is_relative(spec_text, file.language)
            && target is Some {
            seq![
                (
                    (fqn, EdgeType::Imports, spec_file_name(file.org@, file.repo@, target->0)),
                    Reason::PathResolved,
                    (path, line),
                ),
            ]
        } else {
            Seq::empty()
        }
    }
}

/// Each mention contributes a reference site from its source to the
/// identifier as written.
pub open spec fn mention_sites(ms: Seq<MentionView>, path: Seq<char>) -> Seq<Site>
    decreases ms.len(),
{
    if ms.len() == 0 {
        Seq::empty()
    } else {
        let m = ms.last();
        mention_sites(ms.drop_last(), path) + seq![((m.2, EdgeType::References, m.0), Reason::ExplicitMention, (path, m.4))]
    }
}

/// The type a callable fact is a method of: the type enclosing its scope
/// in the file's table, if any.
pub open spec fn owner_of(enc: Map<Seq<char>, Seq<char>>, f: CodeFact) -> Option<Seq<char>> {
    if enc.contains_key(scope_key(f)) {
        Some(enc[scope_key(f)])
    } else {
        None
    }
}

/// The types among the facts: (simple name, qualified name).
pub open spec fn fact_types(fs: Seq<CodeFact>) -> Set<(Seq<char>, Seq<char>)>
    decreases fs.len(),
{
    if fs.len() == 0 {
        Set::empty()
    } else {
        let f = fs.last();
        let rest = fact_types(fs.drop_last());
        if f.object_type == ObjectType::Type {
            rest.insert((f.simple_name@, f.qualified_name@))
        } else {
            rest
        }
    }
}

/// The methods among the facts: (owning type, simple name, qualified name).
pub open spec fn fact_methods(enc: Map<Seq<char>, Seq<char>>, fs: Seq<CodeFact>) -> Set<(Seq<char>, Seq<char>, Seq<char>)>
    decreases fs.len(),
{
    if fs.len() == 0 {
        Set::empty()
    } else {
        let f = fs.last();
        let rest = fact_methods(enc, fs.drop_last());
        if f.object_type == ObjectType::Function && owner_of(enc, f) is Some {
            rest.insert((owner_of(enc, f)->0, f.simple_name@, f.qualified_name@))
        } else {
            rest
        }
    }
}

/// The free functions among the facts: (simple name, qualified name).
pub open spec fn fact_functions(enc: Map<Seq<char>, Seq<char>>, fs: Seq<CodeFact>) -> Set<(Seq<char>, Seq<char>)>
    decreases fs.len(),
{
    if fs.len() == 0 {
        Set::empty()
    } else {
        let f = fs.last();
        let rest = fact_functions(enc, fs.drop_last());
        if f.object_type == ObjectType::Function && owner_of(enc, f) is None {
            rest.insert((f.simple_name@, f.qualified_name@))
        } else {
            rest
        }
    }
}

/// The type names a file declares: (file's qualified name, simple name).
pub open spec fn fact_type_names(fqn: Seq<char>, fs: Seq<CodeFact>) -> Set<(Seq<char>, Seq<char>)>
    decreases fs.len(),
{
    if fs.len() == 0 {
        Set::empty()
    } else {
        let f = fs.last();
        let rest = fact_type_names(fqn, fs.drop_last());
        if f.object_type == ObjectType::Type {
            rest.insert((fqn, f.simple_name@))
        } else {
            rest
        }
    }
}

/// The files a file imports: (importer, imported), for each relative
/// import that names a file of the batch.
pub open spec fn import_pairs(imports: Seq<(String, u32)>, file: SourceFile, fqn: Seq<char>, batch: Set<Seq<char>>) -> Set<
    (Seq<char>, Seq<char>),
>
    decreases imports.len(),
{
    if imports.len() == 0 {
        Set::empty()
    } else {
        let spec_text = imports.last().0@;
        let path = spec_normalize_path(file.path@);
        let target = spec_resolve(spec_text, path, file.language, batch);
        let rest = import_pairs(imports.drop_last(), file, fqn, batch);
        if spec_is_relative(spec_text, file.language) && target is Some {
            rest.insert((fqn, spec_file_name(file.org@, file.repo@, target->0)))
        } else {
            rest
        }
    }
}

/// What the batch declares, for resolution: its types, methods and free
/// functions, its return and field types (a later file's standing over an
/// earlier one's), the type names each file declares, and the files each
/// file imports; over the files at the listed positions.
pub open spec fn batch_corpus(files: Seq<SourceFile>, parsed: Seq<ParsedFile>, order: Seq<usize>) -> (
    Set<(Seq<char>, Seq<char>)>,
    Set<(Seq<char>, Seq<char>, Seq<char>)>,
    Set<(Seq<char>, Seq<char>)>,
    Map<Seq<char>, Seq<char>>,
    Map<(Seq<char>, Seq<char>), Seq<char>>,
    Set<(Seq<char>, Seq<char>)>,
    Set<(Seq<char>, Seq<char>)>,
)
    decreases order.len(),
{
    if order.len() == 0 {
        (Set::empty(), Set::empty(), Set::empty(), Map::empty(), Map::empty(), Set::empty(), Set::empty())
    } else {
        let c = batch_corpus(files, parsed, order.drop_last());
        let p = parsed[order.last() as int];
        let file = files[order.last() as int];
        (
            c.0 + fact_types(p.facts@),
            c.1 + fact_methods(p.enclosing_types@, p.facts@),
            c.2 + fact_functions(p.enclosing_types@, p.facts@),
            c.3.union_prefer_right(p.return_types@),
            c.4.union_prefer_right(p.field_types@),
            c.5 + fact_type_names(p.file_qualified_name@, p.facts@),
            c.6 + import_pairs(p.imports@, file, p.file_qualified_name@, batch_paths(files)),
        )
    }
}

/// A corpus holds what the batch declares.
pub open spec fn corpus_fits(
    corpus: Corpus,
    c: (
        Set<(Seq<char>, Seq<char>)>,
        Set<(Seq<char>, Seq<char>, Seq<char>)>,
        Set<(Seq<char>, Seq<char>)>,
        Map<Seq<char>, Seq<char>>,
        Map<(Seq<char>, Seq<char>), Seq<char>>,
        Set<(Seq<char>, Seq<char>)>,
        Set<(Seq<char>, Seq<char>)>,
    ),
) -> bool {
    &&& corpus.types@ == c.0
    &&& corpus.methods@ == c.1
    &&& corpus.functions@ == c.2
    &&& corpus.return_types@ == c.3
    &&& corpus.field_types@ == c.4
}

/// The types a file declares, by simple name (a later one standing).
pub open spec fn local_types(fs: Seq<CodeFact>) -> Map<Seq<char>, Seq<char>>
    decreases fs.len(),
{
    if fs.len() == 0 {
        Map::empty()
    } else {
        let f = fs.last();
        let rest = local_types(fs.drop_last());
        if f.object_type == ObjectType::Type {
            rest.insert(f.simple_name@, f.qualified_name@)
        } else {
            rest
        }
    }
}

/// The methods a file declares, by owning type and simple name.
pub open spec fn local_methods(enc: Map<Seq<char>, Seq<char>>, fs: Seq<CodeFact>) -> Map<(Seq<char>, Seq<char>), Seq<char>>
    decreases fs.len(),
{
    if fs.len() == 0 {
        Map::empty()
    } else {
        let f = fs.last();
        let rest = local_methods(enc, fs.drop_last());
        if f.object_type == ObjectType::Function && owner_of(enc, f) is Some {
            rest.insert((owner_of(enc, f)->0, f.simple_name@), f.qualified_name@)
        } else {
            rest
        }
    }
}

/// The free functions a file declares, by simple name.
pub open spec fn local_functions(enc: Map<Seq<char>, Seq<char>>, fs: Seq<CodeFact>) -> Map<Seq<char>, Seq<char>>
    decreases fs.len(),
{
    if fs.len() == 0 {
        Map::empty()
    } else {
        let f = fs.last();
        let rest = local_functions(enc, fs.drop_last());
        if f.object_type == ObjectType::Function && owner_of(enc, f) is None {
            rest.insert(f.simple_name@, f.qualified_name@)
        } else {
            rest
        }
    }
}

/// What resolving a file's calls consults: its own declarations, the type
/// environment its bindings solve to against the corpus, and the types it
/// reaches through its imports.
pub open spec fn context_fits(
    local: LocalScope,
    env: TypeEnv,
    imported: Set<Seq<char>>,
    p: ParsedFile,
    corpus: Corpus,
    c: (
        Set<(Seq<char>, Seq<char>)>,
        Set<(Seq<char>, Seq<char>, Seq<char>)>,
        Set<(Seq<char>, Seq<char>)>,
        Map<Seq<char>, Seq<char>>,
        Map<(Seq<char>, Seq<char>), Seq<char>>,
        Set<(Seq<char>, Seq<char>)>,
        Set<(Seq<char>, Seq<char>)>,
    ),
) -> bool {
    &&& local.types@ == local_types(p.facts@)
    &&& local.methods@ == local_methods(p.enclosing_types@, p.facts@)
    &&& local.functions@ == local_functions(p.enclosing_types@, p.facts@)
    &&& env.bindings() == solve(p.bindings@, p.enclosing_types@, corpus).0
    &&& env.owners() == p.enclosing_types@
    &&& forall|t: Seq<char>| #[trigger] imported.contains(t) <==> reaches_type(p.file_qualified_name@, c.6, c.5, t)
}

/// Each call that resolves contributes a call site from its caller to the
/// callee, with the tier that found it.
pub open spec fn call_sites(
    calls: Seq<CallSite>,
    env: TypeEnv,
    corpus: Corpus,
    imported: Set<Seq<char>>,
    local: LocalScope,
    path: Seq<char>,
) -> Seq<Site>
    decreases calls.len(),
{
    if calls.len() == 0 {
        Seq::empty()
    } else {
        let call = calls.last();
        call_sites(calls.drop_last(), env, corpus, imported, local, path) + match spec_resolve_call(
            call,
            env,
            corpus,
            imported,
            local,
        ) {
            Some(r) => seq![((call.caller@, EdgeType::Calls, r.0), r.1, (path, call.line))],
            None => Seq::empty(),
        }
    }
}

/// How many calls resolve to nothing.
pub open spec fn unresolved_count(
    calls: Seq<CallSite>,
    env: TypeEnv,
    corpus: Corpus,
    imported: Set<Seq<char>>,
    local: LocalScope,
) -> nat
    decreases calls.len(),
{
    if calls.len() == 0 {
        0
    } else {
        unresolved_count(calls.drop_last(), env, corpus, imported, local) + if spec_resolve_call(
            calls.last(),
            env,
            corpus,
            imported,
            local,
        ) is None {
            1nat
        } else {
            0nat
        }
    }
}

/// The first type fact of a simple name: its qualified name and first line.
pub open spec fn first_type_fact(fs: Seq<CodeFact>, name: Seq<char>) -> Option<(Seq<char>, u32)>
    decreases fs.len(),
{
    if fs.len() == 0 {
        None
    } else if fs[0].object_type == ObjectType::Type && fs[0].simple_name@ == name {
        Some((fs[0].qualified_name@, fs[0].span.start))
    } else {
        first_type_fact(fs.drop_first(), name)
    }
}

/// Each type relation whose child the file declares and whose parent
/// resolves contributes an `implements_trait` site for a trait, an
/// `extends` site otherwise, evidenced at the child's first line.
pub open spec fn relation_sites(
    rels: Seq<(String, String, bool)>,
    facts: Seq<CodeFact>,
    corpus: Corpus,
    local: LocalScope,
    path: Seq<char>,
) -> Seq<Site>
    decreases rels.len(),
{
    if rels.len() == 0 {
        Seq::empty()
    } else {
        let r = rels.last();
        relation_sites(rels.drop_last(), facts, corpus, local, path) + match (
            first_type_fact(facts, r.0@),
            spec_resolve_type_relation(corpus, local, r.1@),
        ) {
            (Some(src), Some(target)) => seq![
                (
                    (src.0, if r.2 { EdgeType::ImplementsTrait } else { EdgeType::Extends }, target),
                    Reason::Syntactic,
                    (path, src.1),
                ),
            ],
            _ => Seq::empty(),
        }
    }
}

/// A file's resolution sites: its calls, then its type relations.
pub open spec fn resolved_sites(
    file: SourceFile,
    p: ParsedFile,
    corpus: Corpus,
    ctx: (LocalScope, TypeEnv, Set<Seq<char>>),
) -> Seq<Site> {
    let path = spec_normalize_path(file.path@);
    call_sites(p.calls@, ctx.1, corpus, ctx.2, ctx.0, path) + relation_sites(
        p.type_relations@,
        p.facts@,
        corpus,
        ctx.0,
        path,
    )
}

/// What one parsed file contributes to the edges: containment, then
/// imports, then mentions.
pub open spec fn file_sites(file: SourceFile, parsed: ParsedFile, batch: Set<Seq<char>>) -> Seq<Site> {
    let path = spec_normalize_path(file.path@);
    containment_sites(parsed.facts@, path) + import_sites(parsed.imports@, file, parsed.file_qualified_name@, batch)
        + mention_sites(spec_harvest(parsed.comments@, path), path)
}

/// The sites of the files at the listed positions, in that order.
pub open spec fn batch_sites(
    files: Seq<SourceFile>,
    parsed: Seq<ParsedFile>,
    order: Seq<usize>,
    corpus: Corpus,
    ctxs: Seq<(LocalScope, TypeEnv, Set<Seq<char>>)>,
) -> Seq<Site>
    decreases order.len(),
{
    if order.len() == 0 {
        Seq::empty()
    } else {
        batch_sites(files, parsed, order.drop_last(), corpus, ctxs.drop_last()) + file_sites(
            files[order.last() as int],
            parsed[order.last() as int],
            batch_paths(files),
        ) + resolved_sites(files[order.last() as int], parsed[order.last() as int], corpus, ctxs.last())
    }
}

/// How many calls of the files at the listed positions resolve to nothing.
pub open spec fn batch_unresolved(
    parsed: Seq<ParsedFile>,
    order: Seq<usize>,
    corpus: Corpus,
    ctxs: Seq<(LocalScope, TypeEnv, Set<Seq<char>>)>,
) -> nat
    decreases order.len(),
{
    if order.len() == 0 {
        0
    } else {
        let ctx = ctxs.last();
        batch_unresolved(parsed, order.drop_last(), corpus, ctxs.drop_last()) + unresolved_count(
            parsed[order.last() as int].calls@,
            ctx.1,
            corpus,
            ctx.2,
            ctx.0,
        )
    }
}

/// A count, held at the largest `u32`.
pub open spec fn saturated(n: nat) -> u32 {
    if n > u32::MAX {
        u32::MAX
    } else {
        n as u32
    }
}

/// The corpus and the per-file contexts the files at the listed positions
/// are resolved against: the corpus holds what the batch declares, and the
/// `k`-th context is that of the `k`-th file processed.
pub open spec fn resolution_fits(
    files: Seq<SourceFile>,
    parsed: Seq<ParsedFile>,
    order: Seq<usize>,
    corpus: Corpus,
    ctxs: Seq<(LocalScope, TypeEnv, Set<Seq<char>>)>,
) -> bool {
    &&& corpus_fits(corpus, batch_corpus(files, parsed, order))
    &&& ctxs.len() == order.len()
    &&& forall|k: int|
        0 <= k < order.len() ==> context_fits(
            (#[trigger] ctxs[k]).0,
            ctxs[k].1,
            ctxs[k].2,
            parsed[order[k] as int],
            corpus,
            batch_corpus(files, parsed, order),
        )
}

/// What the sites, folded in order, leave pending for one triple; a site
/// whose source is its target contributes nothing.
pub open spec fn pending_after(sites: Seq<Site>, k: EdgeKey) -> Option<PendingView>
    decreases sites.len(),
{
    if sites.len() == 0 {
        None
    } else {
        let prev = pending_after(sites.drop_last(), k);
        let s = sites.last();
        if s.0 == k && k.0 != k.2 {
            Some(fold_site(prev, s.1, s.2))
        } else {
            prev
        }
    }
}

/// The facts of the files at the listed positions, in that order.
pub open spec fn batch_facts(parsed: Seq<ParsedFile>, order: Seq<usize>) -> Seq<CodeFact>
    decreases order.len(),
{
    if order.len() == 0 {
        Seq::empty()
    } else {
        batch_facts(parsed, order.drop_last()) + parsed[order.last() as int].facts@
    }
}

/// The mentions harvested from the files at the listed positions, in that
/// order.
pub open spec fn batch_mentions(files: Seq<SourceFile>, parsed: Seq<ParsedFile>, order: Seq<usize>) -> Seq<MentionView>
    decreases order.len(),
{
    if order.len() == 0 {
        Seq::empty()
    } else {
        batch_mentions(files, parsed, order.drop_last()) + spec_harvest(
            parsed[order.last() as int].comments@,
            spec_normalize_path(files[order.last() as int].path@),
        )
    }
}

/// Each relative import that names no file of the batch is reported.
pub open spec fn import_diagnostics(imports: Seq<(String, u32)>, file: SourceFile, batch: Set<Seq<char>>) -> Seq<
    DiagnosticView,
>
    decreases imports.len(),
{
    if imports.len() == 0 {
        Seq::empty()
    } else {
        let spec_text = imports.last().0@;
        let line = imports.last().1;
        let path = spec_normalize_path(file.path@);
        import_diagnostics(imports.drop_last(), file, batch) + if spec_is_relative(spec_text, file.language)
            && spec_resolve(spec_text, path, file.language, batch) is None {
            seq![
                (
                    "unresolved_import"@,
                    spec_unresolved_import_message(spec_text),
                    path,
                    Some(line),
                    None,
                    Severity::Warning,
                ),
            ]
        } else {
            Seq::empty()
        }
    }
}

/// The diagnostics of the files at the listed positions, in that order:
/// each file's own, then those for its unresolved imports.
pub open spec fn batch_diagnostics(files: Seq<SourceFile>, parsed: Seq<ParsedFile>, order: Seq<usize>) -> Seq<
    DiagnosticView,
>
    decreases order.len(),
{
    if order.len() == 0 {
        Seq::empty()
    } else {
        let p = parsed[order.last() as int];
        batch_diagnostics(files, parsed, order.drop_last()) + diagnostic_views(p.diagnostics@) + import_diagnostics(
            p.imports@,
            files[order.last() as int],
            batch_paths(files),
        )
    }
}

/// The parse reported a syntax error.
pub open spec fn parse_failed(p: ParsedFile) -> bool {
    exists|i: int| 0 <= i < p.diagnostics.len() && (#[trigger] p.diagnostics[i]).code@ == "parse_error"@
}

/// How many of the files at the listed positions failed to parse cleanly.
pub open spec fn failed_count(parsed: Seq<ParsedFile>, order: Seq<usize>) -> nat
    decreases order.len(),
{
    if order.len() == 0 {
        0
    } else {
        failed_count(parsed, order.drop_last()) + if parse_failed(parsed[order.last() as int]) {
            1nat
        } else {
            0nat
        }
    }
}

/// The record a finished triple becomes: its triple, its reason and that
/// reason's confidence, its evidence sorted, deduplicated and capped, and
/// its site count.
pub open spec fn edge_record_for(r: EdgeRecord, k: EdgeKey, p: PendingView) -> bool {
    let ev = finished_evidence(p.1);
    &&& r.source_ref@ == k.0
    &&& r.edge_type@ == spec_edge_type_name(k.1)
    &&& r.target_ref@ == k.2
    &&& r.confidence_percent == spec_confidence(p.0)
    &&& r.reason@ == spec_reason_name(p.0)
    &&& r.evidence.len() == ev.len()
    &&& forall|i: int|
        0 <= i < ev.len() ==> (#[trigger] r.evidence[i]).file@ == ev[i].0 && r.evidence[i].line == ev[i].1
    &&& r.count == p.2
}

/// The record is the one some pending triple becomes.
pub open spec fn record_of_pending(sites: Seq<Site>, r: EdgeRecord) -> bool {
    exists|k: EdgeKey| #[trigger] pending_after(sites, k) is Some && edge_record_for(r, k, pending_after(sites, k)->0)
}

/// Some record is the one the pending triple `k` becomes.
pub open spec fn pending_recorded(sites: Seq<Site>, records: Seq<EdgeRecord>, k: EdgeKey) -> bool {
    exists|i: int| 0 <= i < records.len() && edge_record_for(#[trigger] records[i], k, pending_after(sites, k)->0)
}

/// The records the facts become, one per fact, sorted.
pub open spec fn nodes_of(facts: Seq<CodeFact>, nodes: Seq<NodeRecord>) -> bool {
    exists|u: Seq<NodeRecord>|
        #![trigger sorted_nodes(u)]
        u.len() == facts.len() && (forall|i: int| 0 <= i < u.len() ==> node_record_matches(#[trigger] u[i], facts[i]))
            && nodes == sorted_nodes(u)
}

/// What extracting the parsed files, processed in `order`, yields: the
/// sorted records of their facts; their harvested mentions, sorted and
/// deduplicated; their diagnostics and those of their unresolved imports;
/// the counts of files and of files that failed to parse; and, against the
/// corpus of what the batch declares and each file's resolution context,
/// one edge record per triple their sites (containment, imports, mentions,
/// resolved calls and type relations) leave pending and no other, and the
/// count of calls nothing resolved.
pub open spec fn extracted_from(
    files: Seq<SourceFile>,
    parsed: Seq<ParsedFile>,
    order: Seq<usize>,
    result: ExtractionResult,
) -> bool {
    &&& result.stats.files == files.len()
    &&& result.stats.files_with_errors == failed_count(parsed, order)
    &&& nodes_of(batch_facts(parsed, order), result.nodes@)
    &&& result.mentions@.map_values(|m: Mention| m@) == sort_dedup_mentions(batch_mentions(files, parsed, order), false)
    &&& diagnostic_views(result.diagnostics@).to_multiset() == batch_diagnostics(files, parsed, order).to_multiset()
    &&& exists|corpus: Corpus, ctxs: Seq<(LocalScope, TypeEnv, Set<Seq<char>>)>|
        #[trigger] resolution_fits(files, parsed, order, corpus, ctxs) && edges_from(
            batch_sites(files, parsed, order, corpus, ctxs),
            result,
        ) && result.stats.unresolved_calls == saturated(batch_unresolved(parsed, order, corpus, ctxs))
}

/// One edge record per triple the sites leave pending, and no other.
pub open spec fn edges_from(sites: Seq<Site>, result: ExtractionResult) -> bool {
    &&& forall|i: int| 0 <= i < result.edges.len() ==> record_of_pending(sites, #[trigger] result.edges[i])
    &&& forall|k: EdgeKey| #[trigger] pending_after(sites, k) is Some ==> pending_recorded(sites, result.edges@, k)
}

/// The orderings every extraction result keeps: records, edges, mentions
/// and diagnostics in canonical order, no triple twice, no self-edge.
pub open spec fn canonical(result: ExtractionResult) -> bool {
    &&& nodes_in_order(result.nodes@)
    &&& edges_in_order(result.edges@)
    &&& distinct_triples(result.edges@)
    &&& no_self_edges(result.edges@)
    &&& mentions_sorted(result.mentions@.map_values(|m: Mention| m@), false)
    &&& diagnostics_in_order(result.diagnostics@)
}

/// Extract canonical records from a batch of source files.
///
/// Pure: no filesystem, no network, no clock, no randomness.
pub fn extract(files: &[SourceFile]) -> (result: ExtractionResult)
    requires
        files.len() <= u32::MAX,
    ensures
        canonical(result),
        result.stats.files == files.len(),
        result.stats.files_with_errors <= files.len(),
        exists|parsed: Seq<ParsedFile>, order: Seq<usize>|
            {
                &&& parsed.len() == files.len()
                &&& forall|i: int| 0 <= i < files.len() ==> parsed_from(files@[i], #[trigger] parsed[i])
                &&& processing_order(files@, order)
                &&& extracted_from(files@, parsed, order, result)
            },
{
    let mut parsed: Vec<ParsedFile> = Vec::new();
    let mut i: usize = 0;
    while i < files.len()
        invariant
            i <= files.len(),
            parsed.len() == i,
            forall|j: int| 0 <= j < i ==> parsed_from(files@[j], #[trigger] parsed@[j]),
        decreases files.len() - i,
    {
        parsed.push(parse_file(&files[i]));
        i = i + 1;
    }
    let ghost parsed_view = parsed@;
    let result = extract_parsed(files, parsed);
    proof {
        let order = choose|order: Seq<usize>|
            processing_order(files@, order) && extracted_from(files@, parsed_view, order, result);
        assert(processing_order(files@, order) && extracted_from(files@, parsed_view, order, result));
        lemma_failed_count_bound(parsed_view, order);
    }
    result
}

proof fn lemma_failed_count_bound(parsed: Seq<ParsedFile>, order: Seq<usize>)
    ensures
        failed_count(parsed, order) <= order.len(),
    decreases order.len(),
{
    if order.len() > 0 {
        lemma_failed_count_bound(parsed, order.drop_last());
    }
}

/// One more site folds into the pending state of its own triple only.
proof fn lemma_pending_push(sites: Seq<Site>, s: Site, k: EdgeKey)
    ensures
        pending_after(sites + seq![s], k) == if s.0 == k && k.0 != k.2 {
            Some(fold_site(pending_after(sites, k), s.1, s.2))
        } else {
            pending_after(sites, k)
        },
{
    assert((sites + seq![s]).drop_last() =~= sites);
}

/// The record of a finished edge is the record of its triple.
proof fn lemma_record_for(r: EdgeRecord, e: Edge, k: EdgeKey, p: PendingView)
    requires
        edge_record_matches(r, e),
        finished_edge_matches(e, k, p),
    ensures
        edge_record_for(r, k, p),
{
    let ev = finished_evidence(p.1);
    assert forall|i: int| 0 <= i < ev.len() implies (#[trigger] r.evidence[i]).file@ == ev[i].0 && r.evidence[i].line
        == ev[i].1 by {
        assert(e.evidence@.map_values(|x: Evidence| x@)[i] == e.evidence[i]@);
    }
}

/// `b` is `a` reordered: position `i` of `b` holds position `perm[i]` of
/// `a`, and each position of `a` is used once.
pub open spec fn reordered<T>(a: Seq<T>, b: Seq<T>, perm: Seq<int>) -> bool {
    &&& perm.len() == a.len()
    &&& b.len() == a.len()
    &&& perm.no_duplicates()
    &&& forall|i: int| 0 <= i < perm.len() ==> 0 <= #[trigger] perm[i] < a.len() && b[i] == a[perm[i]]
}

/// No two files of the batch share an org, a repo and a normalized path.
pub open spec fn keys_distinct(files: Seq<SourceFile>) -> bool {
    forall|i: int, j: int| 0 <= i < j < files.len() ==> file_key(#[trigger] files[i]) != file_key(#[trigger] files[j])
}

/// Batch order does not affect output: where no two files share an org, a
/// repo and a path, a result is what extracting the parsed batch yields
/// exactly when it is what extracting any reordering of that batch yields.
pub proof fn law_batch_order_does_not_affect_output(
    files1: Seq<SourceFile>,
    parsed1: Seq<ParsedFile>,
    order1: Seq<usize>,
    files2: Seq<SourceFile>,
    parsed2: Seq<ParsedFile>,
    order2: Seq<usize>,
    perm: Seq<int>,
    result: ExtractionResult,
)
    requires
        parsed1.len() == files1.len(),
        reordered(files1, files2, perm),
        reordered(parsed1, parsed2, perm),
        keys_distinct(files1),
        processing_order(files1, order1),
        processing_order(files2, order2),
    ensures
        extracted_from(files1, parsed1, order1, result) == extracted_from(files2, parsed2, order2, result),
{
    let n = files1.len();
    lemma_permutation_onto(perm, n as int);
    // Where each position of the first batch went.
    let inv = Seq::new(n, |a: int| choose|i: int| 0 <= i < n && perm[i] == a);
    assert forall|a: int| 0 <= a < n implies 0 <= #[trigger] inv[a] < n && perm[inv[a]] == a by {
        assert(perm.contains(a));
    }
    lemma_processing_order_onto(files1, order1);
    if n > 0 {
        assert(positions(order1).contains(n - 1));
        let i = choose|i: int| 0 <= i < order1.len() && positions(order1)[i] == n - 1;
        assert(n - 1 <= usize::MAX);
    }
    let moved = Seq::new(n, |k: int| inv[order1[k] as int] as usize);
    assert forall|k: int| 0 <= k < n implies {
        let a = order1[k] as int;
        &&& #[trigger] moved[k] as int == inv[a]
        &&& files2[inv[a]] == files1[a]
        &&& parsed2[inv[a]] == parsed1[a]
    } by {
        let a = order1[k] as int;
        assert(0 <= a < n);
        assert(perm[inv[a]] == a);
    }
    assert forall|k: int, l: int| 0 <= k < l < n implies processed_before(files2, #[trigger] moved[k], #[trigger] moved[l]) by {
        let a = order1[k] as int;
        let b = order1[l] as int;
        assert(processed_before(files1, order1[k], order1[l]));
        lemma_processed_before_order(files1, order1[k], order1[l], order1[l]);
        assert(a != b);
        let ka = file_key(files1[a]);
        let kb = file_key(files1[b]);
        if a < b {
            assert(ka != kb);
        } else {
            assert(kb != ka);
        }
        assert(file_key_before(ka, kb));
        assert(moved[k] as int == inv[a] && moved[l] as int == inv[b]);
        assert(file_key(files2[moved[k] as int]) == ka);
        assert(file_key(files2[moved[l] as int]) == kb);
    }
    assert(processing_order(files2, moved));
    lemma_processing_order_unique(files2, moved, order2);
    assert forall|k: int| 0 <= k < n implies files1[#[trigger] order1[k] as int] == files2[order2[k] as int]
        && parsed1[order1[k] as int] == parsed2[order2[k] as int] by {
        assert(order2[k] == moved[k]);
        assert(moved[k] as int == inv[order1[k] as int]);
    }
    assert(batch_paths(files1) =~= batch_paths(files2)) by {
        let f = |x: SourceFile| spec_normalize_path(x.path@);
        assert forall|p: Seq<char>| batch_paths(files1).contains(p) implies batch_paths(files2).contains(p) by {
            let a = choose|a: int| 0 <= a < n && files1.map_values(f)[a] == p;
            assert(files2.map_values(f)[inv[a]] == p);
        }
        assert forall|p: Seq<char>| batch_paths(files2).contains(p) implies batch_paths(files1).contains(p) by {
            let i = choose|i: int| 0 <= i < n && files2.map_values(f)[i] == p;
            assert(files1.map_values(f)[perm[i]] == p);
        }
    }
    lemma_same_files_in_order(files1, parsed1, order1, files2, parsed2, order2, n as int);
    assert(order1.take(n as int) =~= order1);
    assert(order2.take(n as int) =~= order2);
    assert forall|corpus: Corpus, ctxs: Seq<(LocalScope, TypeEnv, Set<Seq<char>>)>|
        resolution_fits(files1, parsed1, order1, corpus, ctxs) == resolution_fits(files2, parsed2, order2, corpus, ctxs)
            && (ctxs.len() == n ==> batch_sites(files1, parsed1, order1, corpus, ctxs) == batch_sites(
            files2,
            parsed2,
            order2,
            corpus,
            ctxs,
        ) && batch_unresolved(parsed1, order1, corpus, ctxs) == batch_unresolved(parsed2, order2, corpus, ctxs)) by {
        if ctxs.len() == n {
            lemma_same_resolution(files1, parsed1, order1, files2, parsed2, order2, n as int, corpus, ctxs);
        }
        assert forall|k: int| 0 <= k < order1.len() implies parsed1[#[trigger] order1[k] as int] == parsed2[order2[k] as int] by {
        }
    }
}

/// Two batches taken in orders that meet the same files and parses, with
/// the same paths, resolved in the same contexts against the same corpus,
/// contribute the same sites and leave the same calls unresolved.
proof fn lemma_same_resolution(
    files1: Seq<SourceFile>,
    parsed1: Seq<ParsedFile>,
    order1: Seq<usize>,
    files2: Seq<SourceFile>,
    parsed2: Seq<ParsedFile>,
    order2: Seq<usize>,
    m: int,
    corpus: Corpus,
    ctxs: Seq<(LocalScope, TypeEnv, Set<Seq<char>>)>,
)
    requires
        0 <= m <= order1.len(),
        ctxs.len() == m,
        order1.len() == order2.len(),
        batch_paths(files1) == batch_paths(files2),
        forall|k: int|
            0 <= k < order1.len() ==> files1[#[trigger] order1[k] as int] == files2[order2[k] as int]
                && parsed1[order1[k] as int] == parsed2[order2[k] as int],
    ensures
        batch_sites(files1, parsed1, order1.take(m), corpus, ctxs) == batch_sites(files2, parsed2, order2.take(m), corpus, ctxs),
        batch_unresolved(parsed1, order1.take(m), corpus, ctxs) == batch_unresolved(parsed2, order2.take(m), corpus, ctxs),
    decreases m,
{
    if m > 0 {
        lemma_same_resolution(files1, parsed1, order1, files2, parsed2, order2, m - 1, corpus, ctxs.drop_last());
        assert(order1.take(m).drop_last() =~= order1.take(m - 1));
        assert(order2.take(m).drop_last() =~= order2.take(m - 1));
        assert(order1.take(m).last() == order1[m - 1]);
        assert(order2.take(m).last() == order2[m - 1]);
        assert(files1[order1[m - 1] as int] == files2[order2[m - 1] as int]);
    } else {
        assert(order1.take(0) =~= order2.take(0));
    }
}

/// Two batches taken in orders that meet the same files and parses, with
/// the same paths, contribute the same sites, facts, diagnostics, mentions
/// and failures.
proof fn lemma_same_files_in_order(
    files1: Seq<SourceFile>,
    parsed1: Seq<ParsedFile>,
    order1: Seq<usize>,
    files2: Seq<SourceFile>,
    parsed2: Seq<ParsedFile>,
    order2: Seq<usize>,
    m: int,
)
    requires
        0 <= m <= order1.len(),
        order1.len() == order2.len(),
        batch_paths(files1) == batch_paths(files2),
        forall|k: int|
            0 <= k < order1.len() ==> files1[#[trigger] order1[k] as int] == files2[order2[k] as int]
                && parsed1[order1[k] as int] == parsed2[order2[k] as int],
    ensures
        batch_facts(parsed1, order1.take(m)) == batch_facts(parsed2, order2.take(m)),
        batch_corpus(files1, parsed1, order1.take(m)) == batch_corpus(files2, parsed2, order2.take(m)),
        batch_diagnostics(files1, parsed1, order1.take(m)) == batch_diagnostics(files2, parsed2, order2.take(m)),
        batch_mentions(files1, parsed1, order1.take(m)) == batch_mentions(files2, parsed2, order2.take(m)),
        failed_count(parsed1, order1.take(m)) == failed_count(parsed2, order2.take(m)),
    decreases m,
{
    if m > 0 {
        lemma_same_files_in_order(files1, parsed1, order1, files2, parsed2, order2, m - 1);
        assert(order1.take(m).drop_last() =~= order1.take(m - 1));
        assert(order2.take(m).drop_last() =~= order2.take(m - 1));
        assert(order1.take(m).last() == order1[m - 1]);
        assert(order2.take(m).last() == order2[m - 1]);
        assert(files1[order1[m - 1] as int] == files2[order2[m - 1] as int]);
    } else {
        assert(order1.take(0) =~= order2.take(0));
    }
}

/// Positions as integers.
pub open spec fn positions(o: Seq<usize>) -> Seq<int> {
    o.map_values(|x: usize| x as int)
}

/// Distinct positions, as many as there are, below that many: every
/// position is among them.
proof fn lemma_permutation_onto(perm: Seq<int>, n: int)
    requires
        perm.len() == n,
        perm.no_duplicates(),
        forall|i: int| 0 <= i < perm.len() ==> 0 <= #[trigger] perm[i] < n,
    ensures
        forall|a: int| 0 <= a < n ==> perm.contains(a),
{
    let range = vstd::set_lib::set_int_range(0, n);
    vstd::set_lib::lemma_int_range(0, n);
    perm.unique_seq_to_set();
    assert(perm.to_set().subset_of(range)) by {
        assert forall|a: int| perm.to_set().contains(a) implies range.contains(a) by {
            let i = choose|i: int| 0 <= i < perm.len() && perm[i] == a;
        }
    }
    vstd::set_lib::lemma_subset_equality(perm.to_set(), range);
    assert forall|a: int| 0 <= a < n implies perm.contains(a) by {
        assert(range.contains(a));
        assert(perm.to_set().contains(a));
    }
}

/// A batch has one processing order.
proof fn lemma_processing_order_unique(files: Seq<SourceFile>, o1: Seq<usize>, o2: Seq<usize>)
    requires
        processing_order(files, o1),
        processing_order(files, o2),
    ensures
        o1 == o2,
{
    let n = files.len() as int;
    let p1 = positions(o1);
    let p2 = positions(o2);
    lemma_processing_order_onto(files, o1);
    lemma_processing_order_onto(files, o2);
    assert forall|k: int| 0 <= k < n implies o1[k] == o2[k] by {
        lemma_sorted_positions_agree(files, o1, o2, k);
    }
    assert(o1 =~= o2);
}

/// Processing order is irreflexive, asymmetric and transitive.
proof fn lemma_processed_before_order(files: Seq<SourceFile>, a: usize, b: usize, c: usize)
    requires
        a < files.len(),
        b < files.len(),
        c < files.len(),
    ensures
        !processed_before(files, a, a),
        processed_before(files, a, b) ==> !processed_before(files, b, a),
        processed_before(files, a, b) && processed_before(files, b, c) ==> processed_before(files, a, c),
        a != b ==> processed_before(files, a, b) || processed_before(files, b, a),
{
    let ka = file_key(files[a as int]);
    let kb = file_key(files[b as int]);
    let kc = file_key(files[c as int]);
    lemma_file_key_order(ka, kb, kc);
    lemma_file_key_order(kb, ka, kc);
    lemma_file_key_order(ka, kb, ka);
    lemma_file_key_order(kb, kc, ka);
    lemma_file_key_order(ka, kc, kb);
}

/// Every position of the batch appears in its processing order.
proof fn lemma_processing_order_onto(files: Seq<SourceFile>, o: Seq<usize>)
    requires
        processing_order(files, o),
    ensures
        forall|a: int| 0 <= a < files.len() ==> #[trigger] positions(o).contains(a),
{
    let p = positions(o);
    assert forall|i: int, j: int| 0 <= i < j < p.len() implies p[i] != p[j] by {
        lemma_processed_before_order(files, o[i], o[j], o[j]);
        assert(processed_before(files, o[i], o[j]));
    }
    lemma_permutation_onto(p, files.len() as int);
}

/// The position at rank `k` of one processing order is that of any other:
/// it is the position exactly `k` others are processed before.
proof fn lemma_sorted_positions_agree(files: Seq<SourceFile>, o1: Seq<usize>, o2: Seq<usize>, k: int)
    requires
        processing_order(files, o1),
        processing_order(files, o2),
        forall|a: int| 0 <= a < files.len() ==> #[trigger] positions(o1).contains(a),
        forall|a: int| 0 <= a < files.len() ==> #[trigger] positions(o2).contains(a),
        0 <= k < files.len(),
    ensures
        o1[k] == o2[k],
    decreases k,
{
    let p1 = positions(o1);
    let p2 = positions(o2);
    if k > 0 {
        lemma_sorted_positions_agree(files, o1, o2, k - 1);
    }
    // Where o1[k] sits in o2, and o2[k] in o1.
    assert(p2.contains(o1[k] as int));
    let j = choose|j: int| 0 <= j < p2.len() && p2[j] == o1[k] as int;
    assert(p1.contains(o2[k] as int));
    let i = choose|i: int| 0 <= i < p1.len() && p1[i] == o2[k] as int;
    assert(o2[j] == o1[k]);
    assert(o1[i] == o2[k]);
    if j != k {
        if j < k {
            // o2[j] is o1[j] by the earlier ranks, and o1 lists it once.
            lemma_sorted_positions_agree(files, o1, o2, j);
            lemma_processed_before_order(files, o1[j], o1[k], o1[k]);
            assert(processed_before(files, o1[j], o1[k]));
        } else {
            assert(processed_before(files, o2[k], o2[j]));
            assert(processed_before(files, o1[i], o1[k]));
            if i < k {
                lemma_sorted_positions_agree(files, o1, o2, i);
                lemma_processed_before_order(files, o2[i], o2[k], o2[k]);
                assert(processed_before(files, o2[i], o2[k]));
            } else if i == k {
                lemma_processed_before_order(files, o1[k], o1[k], o1[k]);
            } else {
                assert(processed_before(files, o1[k], o1[i]));
                lemma_processed_before_order(files, o1[k], o1[i], o1[k]);
            }
        }
    }
}

/// A parse with nothing in it, left where a parse was taken out.
fn vacant_parse() -> (p: ParsedFile)
    ensures
        p.facts@ == Seq::<CodeFact>::empty(),
        p.diagnostics@ == Seq::<Diagnostic>::empty(),
        p.imports@ == Seq::<(String, u32)>::empty(),
        p.comments@ == Seq::<CommentText>::empty(),
        p.file_qualified_name@ == Seq::<char>::empty(),
        p.bindings@ == Seq::<RawBinding>::empty(),
        p.calls@ == Seq::<CallSite>::empty(),
        p.enclosing_types@ == Map::<Seq<char>, Seq<char>>::empty(),
        p.return_types@ == Map::<Seq<char>, Seq<char>>::empty(),
        p.field_types@ == Map::<(Seq<char>, Seq<char>), Seq<char>>::empty(),
        p.type_relations@ == Seq::<(String, String, bool)>::empty(),
{
    ParsedFile {
        facts: Vec::new(),
        diagnostics: Vec::new(),
        imports: Vec::new(),
        comments: Vec::new(),
        file_qualified_name: String::new(),
        bindings: Vec::new(),
        calls: Vec::new(),
        enclosing_types: TextMap::new(),
        return_types: TextMap::new(),
        field_types: PairMap::new(),
        type_relations: Vec::new(),
    }
}

/// The type a callable fact is a method of, from the file's table of
/// enclosing types.
fn owner_of_fact(p: &ParsedFile, f: &CodeFact) -> (r: Option<String>)
    ensures
        match r {
            Some(o) => owner_of(p.enclosing_types@, *f) == Some(o@),
            None => owner_of(p.enclosing_types@, *f) is None,
        },
{
    let mut key = chars_of(f.simple_name.as_str());
    key.push('@');
    let line = decimal_chars(f.span.start as usize);
    extend_chars(&mut key, &line);
    let key = string_of(&key);
    proof {
        reveal_strlit("@");
        assert(key@ =~= scope_key(*f));
    }
    match p.enclosing_types.get(key.as_str()) {
        Some(o) => Some(o.to_owned()),
        None => None,
    }
}

/// Adds what one file declares to the corpus, and its type names to the
/// table of types by file.
fn add_declarations(corpus: &mut Corpus, types_by_file: &mut TextRelation, p: &ParsedFile)
    ensures
        final(corpus).types@ == old(corpus).types@ + fact_types(p.facts@),
        final(corpus).methods@ == old(corpus).methods@ + fact_methods(p.enclosing_types@, p.facts@),
        final(corpus).functions@ == old(corpus).functions@ + fact_functions(p.enclosing_types@, p.facts@),
        final(corpus).return_types@ == old(corpus).return_types@.union_prefer_right(p.return_types@),
        final(corpus).field_types@ == old(corpus).field_types@.union_prefer_right(p.field_types@),
        final(types_by_file)@ == old(types_by_file)@ + fact_type_names(p.file_qualified_name@, p.facts@),
{
    let ghost c0 = *corpus;
    let ghost t0 = types_by_file@;
    let ghost fs = p.facts@;
    let mut i: usize = 0;
    proof {
        assert(fs.take(0) =~= Seq::<CodeFact>::empty());
        assert(c0.types@ + Set::empty() =~= c0.types@);
        assert(c0.methods@ + Set::empty() =~= c0.methods@);
        assert(c0.functions@ + Set::empty() =~= c0.functions@);
        assert(t0 + Set::empty() =~= t0);
    }
    while i < p.facts.len()
        invariant
            fs == p.facts@,
            i <= p.facts.len(),
            corpus.types@ == c0.types@ + fact_types(fs.take(i as int)),
            corpus.methods@ == c0.methods@ + fact_methods(p.enclosing_types@, fs.take(i as int)),
            corpus.functions@ == c0.functions@ + fact_functions(p.enclosing_types@, fs.take(i as int)),
            corpus.return_types@ == c0.return_types@,
            corpus.field_types@ == c0.field_types@,
            types_by_file@ == t0 + fact_type_names(p.file_qualified_name@, fs.take(i as int)),
        decreases p.facts.len() - i,
    {
        let f = &p.facts[i];
        proof {
            assert(fs.take(i + 1).drop_last() =~= fs.take(i as int));
            assert(fs.take(i + 1).last() == *f);
        }
        if f.object_type == ObjectType::Type {
            corpus.types.insert(f.simple_name.as_str(), f.qualified_name.as_str());
            types_by_file.insert(p.file_qualified_name.as_str(), f.simple_name.as_str());
            proof {
                assert(corpus.types@ =~= c0.types@ + fact_types(fs.take(i + 1)));
                assert(types_by_file@ =~= t0 + fact_type_names(p.file_qualified_name@, fs.take(i + 1)));
                assert(fact_methods(p.enclosing_types@, fs.take(i + 1)) == fact_methods(p.enclosing_types@, fs.take(i as int)));
                assert(fact_functions(p.enclosing_types@, fs.take(i + 1)) == fact_functions(p.enclosing_types@, fs.take(i as int)));
            }
        } else if f.object_type == ObjectType::Function {
            match owner_of_fact(p, f) {
                Some(owner) => {
                    corpus.methods.insert(owner.as_str(), f.simple_name.as_str(), f.qualified_name.as_str());
                    proof {
                        assert(corpus.methods@ =~= c0.methods@ + fact_methods(p.enclosing_types@, fs.take(i + 1)));
                    }
                },
                None => {
                    corpus.functions.insert(f.simple_name.as_str(), f.qualified_name.as_str());
                    proof {
                        assert(corpus.functions@ =~= c0.functions@ + fact_functions(p.enclosing_types@, fs.take(i + 1)));
                    }
                },
            }
        }
        i = i + 1;
    }
    proof {
        assert(fs.take(p.facts.len() as int) =~= fs);
    }
    corpus.return_types.absorb(&p.return_types);
    corpus.field_types.absorb(&p.field_types);
}

/// Adds the files one file imports to the table of imports.
fn add_imports(import_edges: &mut TextRelation, p: &ParsedFile, file: &SourceFile, batch: &TextSet)
    ensures
        final(import_edges)@ == old(import_edges)@ + import_pairs(p.imports@, *file, p.file_qualified_name@, batch@),
{
    let ghost e0 = import_edges@;
    let ghost is = p.imports@;
    let path = file.normalized_path();
    let mut m: usize = 0;
    proof {
        assert(is.take(0) =~= Seq::<(String, u32)>::empty());
        assert(e0 + Set::empty() =~= e0);
    }
    while m < p.imports.len()
        invariant
            is == p.imports@,
            m <= p.imports.len(),
            path@ == spec_normalize_path(file.path@),
            import_edges@ == e0 + import_pairs(is.take(m as int), *file, p.file_qualified_name@, batch@),
        decreases p.imports.len() - m,
    {
        let specifier = p.imports[m].0.as_str();
        proof {
            assert(is.take(m + 1).drop_last() =~= is.take(m as int));
            assert(is.take(m + 1).last() == is[m as int]);
        }
        if imports::is_relative(specifier, file.language) {
            match imports::resolve(specifier, path.as_str(), file.language, batch) {
                Some(target_path) => {
                    let target = file_name(file.org.as_str(), file.repo.as_str(), target_path.as_str());
                    import_edges.insert(p.file_qualified_name.as_str(), target.as_str());
                    proof {
                        assert(import_edges@ =~= e0 + import_pairs(is.take(m + 1), *file, p.file_qualified_name@, batch@));
                    }
                },
                None => {},
            }
        }
        m = m + 1;
    }
    proof {
        assert(is.take(p.imports.len() as int) =~= is);
    }
}

/// What a file declares itself, for resolution.
fn local_scope_of(p: &ParsedFile) -> (l: LocalScope)
    ensures
        l.types@ == local_types(p.facts@),
        l.methods@ == local_methods(p.enclosing_types@, p.facts@),
        l.functions@ == local_functions(p.enclosing_types@, p.facts@),
{
    let ghost fs = p.facts@;
    let mut l = LocalScope::new();
    let mut i: usize = 0;
    proof {
        assert(fs.take(0) =~= Seq::<CodeFact>::empty());
    }
    while i < p.facts.len()
        invariant
            fs == p.facts@,
            i <= p.facts.len(),
            l.types@ == local_types(fs.take(i as int)),
            l.methods@ == local_methods(p.enclosing_types@, fs.take(i as int)),
            l.functions@ == local_functions(p.enclosing_types@, fs.take(i as int)),
        decreases p.facts.len() - i,
    {
        let f = &p.facts[i];
        proof {
            assert(fs.take(i + 1).drop_last() =~= fs.take(i as int));
            assert(fs.take(i + 1).last() == *f);
        }
        if f.object_type == ObjectType::Type {
            l.types.insert(f.simple_name.as_str(), f.qualified_name.as_str());
        } else if f.object_type == ObjectType::Function {
            match owner_of_fact(p, f) {
                Some(owner) => {
                    l.methods.insert(owner.as_str(), f.simple_name.as_str(), f.qualified_name.as_str());
                },
                None => {
                    l.functions.insert(f.simple_name.as_str(), f.qualified_name.as_str());
                },
            }
        }
        i = i + 1;
    }
    proof {
        assert(fs.take(p.facts.len() as int) =~= fs);
    }
    l
}

/// The first type fact of a simple name: its qualified name and first line.
fn first_type_of(facts: &Vec<CodeFact>, name: &str) -> (r: Option<(String, u32)>)
    ensures
        match r {
            Some(x) => first_type_fact(facts@, name@) == Some((x.0@, x.1)),
            None => first_type_fact(facts@, name@) is None,
        },
{
    let mut i: usize = 0;
    assert(facts@.skip(0) =~= facts@);
    while i < facts.len()
        invariant
            i <= facts.len(),
            first_type_fact(facts@, name@) == first_type_fact(facts@.skip(i as int), name@),
        decreases facts.len() - i,
    {
        proof {
            assert(facts@.skip(i as int).drop_first() =~= facts@.skip(i + 1));
            assert(facts@.skip(i as int)[0] == facts@[i as int]);
        }
        let f = &facts[i];
        if f.object_type == ObjectType::Type && same_text(f.simple_name.as_str(), name) {
            return Some((f.qualified_name.clone(), f.span.start));
        }
        i = i + 1;
    }
    None
}

/// Resolves one file's calls and type relations against the corpus and
/// folds the sites that resolve into the accumulator, counting the calls
/// that resolve to nothing. Returns the context it resolved in.
fn resolve_file(
    accumulator: &mut EdgeAccumulator,
    unresolved: &mut u32,
    p: &ParsedFile,
    file: &SourceFile,
    path: &String,
    corpus: &Corpus,
    types_by_file: &TextRelation,
    import_edges: &TextRelation,
    Ghost(prefix): Ghost<Seq<Site>>,
    Ghost(before): Ghost<nat>,
) -> (ctx: Ghost<(LocalScope, TypeEnv, Set<Seq<char>>)>)
    requires
        old(accumulator).wf(),
        path@ == spec_normalize_path(file.path@),
        forall|key: EdgeKey| #[trigger] lookup_pending(old(accumulator).entries(), key) == pending_after(prefix, key),
        *old(unresolved) == saturated(before),
    ensures
        final(accumulator).wf(),
        forall|key: EdgeKey|
            #[trigger] lookup_pending(final(accumulator).entries(), key) == pending_after(
                prefix + resolved_sites(*file, *p, *corpus, ctx@),
                key,
            ),
        *final(unresolved) == saturated(before + unresolved_count(p.calls@, ctx@.1, *corpus, ctx@.2, ctx@.0)),
        ctx@.0.types@ == local_types(p.facts@),
        ctx@.0.methods@ == local_methods(p.enclosing_types@, p.facts@),
        ctx@.0.functions@ == local_functions(p.enclosing_types@, p.facts@),
        ctx@.1.bindings() == solve(p.bindings@, p.enclosing_types@, *corpus).0,
        ctx@.1.owners() == p.enclosing_types@,
        forall|t: Seq<char>| #[trigger] ctx@.2.contains(t) <==> reaches_type(
            p.file_qualified_name@,
            import_edges@,
            types_by_file@,
            t,
        ),
{
    let local = local_scope_of(p);
    let env = TypeEnv::build(p.bindings.as_slice(), &p.enclosing_types, corpus);
    let imported = imported_types(p.file_qualified_name.as_str(), import_edges, types_by_file);
    let ghost ctx = (local, env, imported@);
    let ghost cs = p.calls@;
    let ghost path_v = path@;
    let mut i: usize = 0;
    proof {
        assert(cs.take(0) =~= Seq::<CallSite>::empty());
        assert(prefix + Seq::<Site>::empty() =~= prefix);
    }
    while i < p.calls.len()
        invariant
            cs == p.calls@,
            i <= p.calls.len(),
            path@ == path_v,
            accumulator.wf(),
            forall|key: EdgeKey|
                #[trigger] lookup_pending(accumulator.entries(), key) == pending_after(
                    prefix + call_sites(cs.take(i as int), env, *corpus, imported@, local, path_v),
                    key,
                ),
            *unresolved == saturated(before + unresolved_count(cs.take(i as int), env, *corpus, imported@, local)),
        decreases p.calls.len() - i,
    {
        let call = &p.calls[i];
        let ghost pre = prefix + call_sites(cs.take(i as int), env, *corpus, imported@, local, path_v);
        proof {
            assert(cs.take(i + 1).drop_last() =~= cs.take(i as int));
            assert(cs.take(i + 1).last() == *call);
        }
        match resolve_call(call, &env, corpus, &imported, &local) {
            Some(res) => {
                let ghost site: Site = ((call.caller@, EdgeType::Calls, res.target@), res.reason, (path_v, call.line));
                accumulator.add(
                    call.caller.clone(),
                    EdgeType::Calls,
                    res.target,
                    res.reason,
                    Evidence { file: path.clone(), line: call.line },
                );
                proof {
                    assert(prefix + call_sites(cs.take(i + 1), env, *corpus, imported@, local, path_v) =~= pre + seq![site]);
                    assert forall|key: EdgeKey| #[trigger] lookup_pending(accumulator.entries(), key) == pending_after(
                        pre + seq![site],
                        key,
                    ) by {
                        lemma_pending_push(pre, site, key);
                    }
                }
            },
            None => {
                if *unresolved < u32::MAX {
                    *unresolved = *unresolved + 1;
                }
                proof {
                    assert(prefix + call_sites(cs.take(i + 1), env, *corpus, imported@, local, path_v) =~= pre);
                }
            },
        }
        i = i + 1;
    }
    proof {
        assert(cs.take(p.calls.len() as int) =~= cs);
    }
    let ghost after_calls = prefix + call_sites(cs, env, *corpus, imported@, local, path_v);
    let ghost rs = p.type_relations@;
    let mut j: usize = 0;
    proof {
        assert(rs.take(0) =~= Seq::<(String, String, bool)>::empty());
        assert(after_calls + Seq::<Site>::empty() =~= after_calls);
    }
    while j < p.type_relations.len()
        invariant
            rs == p.type_relations@,
            j <= p.type_relations.len(),
            path@ == path_v,
            accumulator.wf(),
            forall|key: EdgeKey|
                #[trigger] lookup_pending(accumulator.entries(), key) == pending_after(
                    after_calls + relation_sites(rs.take(j as int), p.facts@, *corpus, local, path_v),
                    key,
                ),
        decreases p.type_relations.len() - j,
    {
        let rel = &p.type_relations[j];
        let ghost pre = after_calls + relation_sites(rs.take(j as int), p.facts@, *corpus, local, path_v);
        proof {
            assert(rs.take(j + 1).drop_last() =~= rs.take(j as int));
            assert(rs.take(j + 1).last() == *rel);
        }
        let source = first_type_of(&p.facts, rel.0.as_str());
        let target = resolve_type_relation(corpus, &local, rel.1.as_str());
        match (source, target) {
            (Some(src), Some(t)) => {
                let edge_type = if rel.2 {
                    EdgeType::ImplementsTrait
                } else {
                    EdgeType::Extends
                };
                let ghost site: Site = ((src.0@, edge_type, t@), Reason::Syntactic, (path_v, src.1));
                accumulator.add(src.0, edge_type, t, Reason::Syntactic, Evidence { file: path.clone(), line: src.1 });
                proof {
                    assert(after_calls + relation_sites(rs.take(j + 1), p.facts@, *corpus, local, path_v) =~= pre
                        + seq![site]);
                    assert forall|key: EdgeKey| #[trigger] lookup_pending(accumulator.entries(), key) == pending_after(
                        pre + seq![site],
                        key,
                    ) by {
                        lemma_pending_push(pre, site, key);
                    }
                }
            },
            _ => {
                proof {
                    assert(after_calls + relation_sites(rs.take(j + 1), p.facts@, *corpus, local, path_v) =~= pre);
                }
            },
        }
        j = j + 1;
    }
    proof {
        assert(rs.take(p.type_relations.len() as int) =~= rs);
        assert(prefix + resolved_sites(*file, *p, *corpus, ctx) =~= after_calls + relation_sites(
            rs,
            p.facts@,
            *corpus,
            local,
            path_v,
        ));
    }
    Ghost(ctx)
}

/// Extract canonical records from files already parsed: `parsed[i]` is
/// what parsing `files[i]` gave.
///
/// Files are taken in processing order; each contributes its facts, its
/// diagnostics, a containment edge per fact with a parent, an import edge
/// per relative import naming a file of the batch (a diagnostic for one
/// naming none), and a reference edge per harvested mention.
#[verifier::rlimit(100)]
#[verifier::spinoff_prover]
pub fn extract_parsed(files: &[SourceFile], parsed: Vec<ParsedFile>) -> (result: ExtractionResult)
    requires
        files.len() == parsed.len(),
        files.len() <= u32::MAX,
    ensures
        canonical(result),
        exists|order: Seq<usize>| processing_order(files@, order) && extracted_from(files@, parsed@, order, result),
{
    let ghost fs = files@;
    let ghost originals = parsed@;
    let mut parsed = parsed;
    let mut batch_paths_set = TextSet::new();
    let mut i: usize = 0;
    while i < files.len()
        invariant
            fs == files@,
            i <= files.len(),
            batch_paths_set@ == fs.take(i as int).map_values(|f: SourceFile| spec_normalize_path(f.path@)).to_set(),
        decreases files.len() - i,
    {
        let p = files[i].normalized_path();
        batch_paths_set.insert(p.as_str());
        proof {
            let pre = fs.take(i as int).map_values(|f: SourceFile| spec_normalize_path(f.path@));
            assert(fs.take(i + 1).map_values(|f: SourceFile| spec_normalize_path(f.path@)) =~= pre.push(p@));
            pre.lemma_push_to_set_commute(p@);
        }
        i = i + 1;
    }
    assert(fs.take(files.len() as int) =~= fs);
    let mut all_facts: Vec<CodeFact> = Vec::new();
    let mut diagnostics: Vec<Diagnostic> = Vec::new();
    let mut all_mentions: Vec<Mention> = Vec::new();
    let mut accumulator = EdgeAccumulator::new();
    let mut files_with_errors: u32 = 0;
    let order = file_order(files);
    let ghost ord = order@;
    // What the batch declares, for resolving calls and type relations.
    let mut corpus = Corpus::new();
    let mut types_by_file = TextRelation::new();
    let mut import_edges = TextRelation::new();
    let mut c: usize = 0;
    proof {
        assert(ord.take(0) =~= Seq::<usize>::empty());
        assert(corpus.types@ =~= batch_corpus(fs, originals, ord.take(0)).0);
        assert(corpus.methods@ =~= batch_corpus(fs, originals, ord.take(0)).1);
        assert(corpus.functions@ =~= batch_corpus(fs, originals, ord.take(0)).2);
        assert(types_by_file@ =~= batch_corpus(fs, originals, ord.take(0)).5);
        assert(import_edges@ =~= batch_corpus(fs, originals, ord.take(0)).6);
    }
    while c < order.len()
        invariant
            fs == files@,
            ord == order@,
            parsed@ == originals,
            originals.len() == fs.len(),
            processing_order(fs, ord),
            c <= order.len(),
            batch_paths_set@ == batch_paths(fs),
            corpus_fits(corpus, batch_corpus(fs, originals, ord.take(c as int))),
            types_by_file@ == batch_corpus(fs, originals, ord.take(c as int)).5,
            import_edges@ == batch_corpus(fs, originals, ord.take(c as int)).6,
        decreases order.len() - c,
    {
        let idx = order[c];
        assert(idx < files.len());
        add_declarations(&mut corpus, &mut types_by_file, &parsed[idx]);
        add_imports(&mut import_edges, &parsed[idx], &files[idx], &batch_paths_set);
        proof {
            let next = ord.take(c + 1);
            assert(next.drop_last() =~= ord.take(c as int));
            assert(next.last() == idx);
        }
        c = c + 1;
    }
    proof {
        assert(ord.take(order.len() as int) =~= ord);
    }
    let ghost whole = batch_corpus(fs, originals, ord);
    let mut unresolved: u32 = 0;
    let ghost mut ctxs: Seq<(LocalScope, TypeEnv, Set<Seq<char>>)> = Seq::empty();
    proof {
        assert(ord.take(0) =~= Seq::<usize>::empty());
        assert(diagnostic_views(diagnostics@) =~= Seq::<DiagnosticView>::empty());
        assert(all_mentions@.map_values(|m: Mention| m@) =~= Seq::<MentionView>::empty());
    }
    let mut k: usize = 0;
    while k < order.len()
        invariant
            fs == files@,
            ord == order@,
            processing_order(fs, ord),
            k <= order.len(),
            files.len() <= u32::MAX,
            parsed.len() == originals.len(),
            originals.len() == fs.len(),
            batch_paths_set@ == batch_paths(fs),
            forall|m: int| k <= m < ord.len() ==> parsed@[#[trigger] ord[m] as int] == originals[ord[m] as int],
            accumulator.wf(),
            corpus_fits(corpus, whole),
            whole == batch_corpus(fs, originals, ord),
            types_by_file@ == whole.5,
            import_edges@ == whole.6,
            ctxs.len() == k,
            forall|j: int|
                0 <= j < k ==> context_fits(
                    (#[trigger] ctxs[j]).0,
                    ctxs[j].1,
                    ctxs[j].2,
                    originals[ord[j] as int],
                    corpus,
                    whole,
                ),
            unresolved == saturated(batch_unresolved(originals, ord.take(k as int), corpus, ctxs)),
            forall|key: EdgeKey|
                #[trigger] lookup_pending(accumulator.entries(), key) == pending_after(
                    batch_sites(fs, originals, ord.take(k as int), corpus, ctxs),
                    key,
                ),
            all_facts@ == batch_facts(originals, ord.take(k as int)),
            diagnostic_views(diagnostics@) == batch_diagnostics(fs, originals, ord.take(k as int)),
            all_mentions@.map_values(|m: Mention| m@) == batch_mentions(fs, originals, ord.take(k as int)),
            files_with_errors == failed_count(originals, ord.take(k as int)),
            files_with_errors <= k,
        decreases order.len() - k,
    {
        let idx = order[k];
        let file = &files[idx];
        let path = file.normalized_path();
        let mut current = vacant_parse();
        std::mem::swap(&mut current, &mut parsed[idx]);
        let ghost cur0 = current;
        proof {
            assert(cur0 == originals[idx as int]);
            assert forall|m: int| k + 1 <= m < ord.len() implies parsed@[#[trigger] ord[m] as int] == originals[ord[m] as int] by {
                assert(processed_before(fs, ord[k as int], ord[m]));
                crate::order::lemma_text_lt_irreflexive(fs[idx as int].org@);
                crate::order::lemma_text_lt_irreflexive(fs[idx as int].repo@);
                crate::order::lemma_text_lt_irreflexive(spec_normalize_path(fs[idx as int].path@));
            }
        }
        let ghost prefix = batch_sites(fs, originals, ord.take(k as int), corpus, ctxs);

        let mut erred = false;
        let mut d: usize = 0;
        while d < current.diagnostics.len()
            invariant
                d <= current.diagnostics.len(),
                current == cur0,
                erred == exists|x: int| 0 <= x < d && (#[trigger] cur0.diagnostics@[x]).code@ == "parse_error"@,
            decreases current.diagnostics.len() - d,
        {
            if crate::order::same_text(current.diagnostics[d].code.as_str(), "parse_error") {
                erred = true;
            }
            d = d + 1;
        }
        if erred {
            files_with_errors = files_with_errors + 1;
        }
        let mut parsed_diagnostics = Vec::new();
        std::mem::swap(&mut parsed_diagnostics, &mut current.diagnostics);
        let ghost diags_before = diagnostic_views(diagnostics@);
        diagnostics.append(&mut parsed_diagnostics);
        proof {
            assert(diagnostic_views(diagnostics@) =~= diags_before + diagnostic_views(cur0.diagnostics@));
        }
        let ghost after_own = diags_before + diagnostic_views(cur0.diagnostics@);

        let ghost path_v = path@;
        let mut f: usize = 0;
        while f < current.facts.len()
            invariant
                f <= current.facts.len(),
                current.facts == cur0.facts,
                path@ == path_v,
                accumulator.wf(),
                forall|key: EdgeKey|
                    #[trigger] lookup_pending(accumulator.entries(), key) == pending_after(
                        prefix + containment_sites(cur0.facts@.take(f as int), path_v),
                        key,
                    ),
            decreases current.facts.len() - f,
        {
            let fact = &current.facts[f];
            let ghost before = prefix + containment_sites(cur0.facts@.take(f as int), path_v);
            proof {
                assert(cur0.facts@.take(f + 1).drop_last() =~= cur0.facts@.take(f as int));
                assert(cur0.facts@.take(f + 1).last() == *fact);
            }
            match &fact.parent {
                Some(parent) => {
                    let ghost site: Site = (
                        (parent@, EdgeType::Contains, fact.qualified_name@),
                        Reason::Syntactic,
                        (path_v, fact.span.start),
                    );
                    accumulator.add(
                        parent.clone(),
                        EdgeType::Contains,
                        fact.qualified_name.clone(),
                        Reason::Syntactic,
                        Evidence { file: path.clone(), line: fact.span.start },
                    );
                    proof {
                        assert(prefix + containment_sites(cur0.facts@.take(f + 1), path_v) =~= before + seq![site]);
                        assert forall|key: EdgeKey| #[trigger] lookup_pending(accumulator.entries(), key) == pending_after(
                            before + seq![site],
                            key,
                        ) by {
                            lemma_pending_push(before, site, key);
                        }
                    }
                },
                None => {
                    proof {
                        assert(prefix + containment_sites(cur0.facts@.take(f + 1), path_v) =~= before);
                    }
                },
            }
            f = f + 1;
        }
        proof {
            assert(cur0.facts@.take(cur0.facts.len() as int) =~= cur0.facts@);
        }
        let ghost after_contains = prefix + containment_sites(cur0.facts@, path_v);

        let mut m: usize = 0;
        while m < current.imports.len()
            invariant
                m <= current.imports.len(),
                current.imports == cur0.imports,
                current.file_qualified_name == cur0.file_qualified_name,
                path@ == path_v,
                path_v == spec_normalize_path(file.path@),
                batch_paths_set@ == batch_paths(fs),
                accumulator.wf(),
                diagnostic_views(diagnostics@) == after_own + import_diagnostics(
                    cur0.imports@.take(m as int),
                    *file,
                    batch_paths(fs),
                ),
                forall|key: EdgeKey|
                    #[trigger] lookup_pending(accumulator.entries(), key) == pending_after(
                        after_contains + import_sites(
                            cur0.imports@.take(m as int),
                            *file,
                            cur0.file_qualified_name@,
                            batch_paths(fs),
                        ),
                        key,
                    ),
            decreases current.imports.len() - m,
        {
            let specifier = current.imports[m].0.as_str();
            let line = current.imports[m].1;
            let ghost before = after_contains + import_sites(
                cur0.imports@.take(m as int),
                *file,
                cur0.file_qualified_name@,
                batch_paths(fs),
            );
            let ghost after = after_contains + import_sites(
                cur0.imports@.take(m + 1),
                *file,
                cur0.file_qualified_name@,
                batch_paths(fs),
            );
            proof {
                assert(cur0.imports@.take(m + 1).drop_last() =~= cur0.imports@.take(m as int));
                assert(cur0.imports@.take(m + 1).last() == cur0.imports@[m as int]);
            }
            if imports::is_relative(specifier, file.language) {
                match imports::resolve(specifier, path.as_str(), file.language, &batch_paths_set) {
                    Some(target_path) => {
                        let target = file_name(file.org.as_str(), file.repo.as_str(), target_path.as_str());
                        let ghost site: Site = (
                            (cur0.file_qualified_name@, EdgeType::Imports, target@),
                            Reason::PathResolved,
                            (path_v, line),
                        );
                        accumulator.add(
                            current.file_qualified_name.clone(),
                            EdgeType::Imports,
                            target,
                            Reason::PathResolved,
                            Evidence { file: path.clone(), line },
                        );
                        proof {
                            assert(after =~= before + seq![site]);
                            assert(import_diagnostics(cur0.imports@.take(m + 1), *file, batch_paths(fs))
                                =~= import_diagnostics(cur0.imports@.take(m as int), *file, batch_paths(fs)));
                            assert forall|key: EdgeKey| #[trigger] lookup_pending(accumulator.entries(), key)
                                == pending_after(before + seq![site], key) by {
                                lemma_pending_push(before, site, key);
                            }
                        }
                    },
                    None => {
                        let ghost dv = diagnostic_views(diagnostics@);
                        let d = Diagnostic::unresolved_import(path.as_str(), specifier, line);
                        diagnostics.push(d);
                        proof {
                            assert(after =~= before);
                            assert(diagnostic_views(diagnostics@) =~= dv.push(d@));
                            assert(import_diagnostics(cur0.imports@.take(m + 1), *file, batch_paths(fs))
                                =~= import_diagnostics(cur0.imports@.take(m as int), *file, batch_paths(fs)).push(d@));
                        }
                    },
                }
            } else {
                proof {
                    assert(after =~= before);
                    assert(import_diagnostics(cur0.imports@.take(m + 1), *file, batch_paths(fs))
                        =~= import_diagnostics(cur0.imports@.take(m as int), *file, batch_paths(fs)));
                }
            }
            m = m + 1;
        }
        proof {
            assert(cur0.imports@.take(cur0.imports.len() as int) =~= cur0.imports@);
        }
        let ghost after_imports = after_contains + import_sites(
            cur0.imports@,
            *file,
            cur0.file_qualified_name@,
            batch_paths(fs),
        );

        let found = crate::mentions::harvest(current.comments.as_slice(), path.as_str());
        let ghost found_v = found@.map_values(|x: Mention| x@);
        let mut q: usize = 0;
        while q < found.len()
            invariant
                q <= found.len(),
                found_v == found@.map_values(|x: Mention| x@),
                path@ == path_v,
                accumulator.wf(),
                forall|key: EdgeKey|
                    #[trigger] lookup_pending(accumulator.entries(), key) == pending_after(
                        after_imports + mention_sites(found_v.take(q as int), path_v),
                        key,
                    ),
            decreases found.len() - q,
        {
            let mention = &found[q];
            let ghost before = after_imports + mention_sites(found_v.take(q as int), path_v);
            let ghost site: Site = (
                (mention.source@, EdgeType::References, mention.identifier@),
                Reason::ExplicitMention,
                (path_v, mention.line),
            );
            proof {
                assert(found_v.take(q + 1).drop_last() =~= found_v.take(q as int));
                assert(found_v.take(q + 1).last() == mention@);
                assert(after_imports + mention_sites(found_v.take(q + 1), path_v) =~= before + seq![site]);
            }
            accumulator.add(
                mention.source.clone(),
                EdgeType::References,
                mention.identifier.clone(),
                Reason::ExplicitMention,
                Evidence { file: path.clone(), line: mention.line },
            );
            proof {
                assert forall|key: EdgeKey| #[trigger] lookup_pending(accumulator.entries(), key) == pending_after(
                    before + seq![site],
                    key,
                ) by {
                    lemma_pending_push(before, site, key);
                }
            }
            q = q + 1;
        }
        proof {
            assert(found_v.take(found.len() as int) =~= found_v);
            assert(current.comments == cur0.comments);
            assert(after_imports + mention_sites(found_v, path_v) =~= prefix + file_sites(*file, cur0, batch_paths(fs)));
        }
        let ghost before_resolution = prefix + file_sites(*file, cur0, batch_paths(fs));
        let ghost count_before = batch_unresolved(originals, ord.take(k as int), corpus, ctxs);
        assert(current.calls == cur0.calls && current.facts == cur0.facts && current.type_relations
            == cur0.type_relations && current.bindings == cur0.bindings && current.enclosing_types
            == cur0.enclosing_types && current.file_qualified_name == cur0.file_qualified_name);
        let ctx = resolve_file(
            &mut accumulator,
            &mut unresolved,
            &current,
            file,
            &path,
            &corpus,
            &types_by_file,
            &import_edges,
            Ghost(before_resolution),
            Ghost(count_before),
        );
        proof {
            let next = ord.take(k + 1);
            let old_ctxs = ctxs;
            ctxs = ctxs.push(ctx@);
            assert(next.drop_last() =~= ord.take(k as int));
            assert(next.last() == idx);
            assert(ctxs.drop_last() =~= old_ctxs);
            assert(ctxs.last() == ctx@);
            assert(resolved_sites(*file, current, corpus, ctx@) == resolved_sites(*file, cur0, corpus, ctx@));
            assert(batch_sites(fs, originals, next, corpus, ctxs) =~= before_resolution + resolved_sites(
                *file,
                cur0,
                corpus,
                ctx@,
            ));
            assert(batch_unresolved(originals, next, corpus, ctxs) == count_before + unresolved_count(
                cur0.calls@,
                ctx@.1,
                corpus,
                ctx@.2,
                ctx@.0,
            ));
            assert forall|j: int| 0 <= j < k + 1 implies context_fits(
                (#[trigger] ctxs[j]).0,
                ctxs[j].1,
                ctxs[j].2,
                originals[ord[j] as int],
                corpus,
                whole,
            ) by {
                if j < k {
                    assert(ctxs[j] == old_ctxs[j]);
                }
            }
        }
        let mut found = found;
        all_mentions.append(&mut found);
        let mut facts = Vec::new();
        std::mem::swap(&mut facts, &mut current.facts);
        all_facts.append(&mut facts);
        proof {
            let next = ord.take(k + 1);
            assert(all_facts@ =~= batch_facts(originals, next));
            assert(diagnostic_views(diagnostics@) =~= batch_diagnostics(fs, originals, next));
            assert(all_mentions@.map_values(|x: Mention| x@) =~= batch_mentions(fs, originals, next));
            if erred {
                assert(parse_failed(cur0));
            } else {
                assert(!parse_failed(cur0));
            }
            assert(files_with_errors == failed_count(originals, next));
        }
        k = k + 1;
    }
    proof {
        assert(ord.take(order.len() as int) =~= ord);
    }

    let mut nodes: Vec<NodeRecord> = Vec::new();
    let mut n: usize = 0;
    while n < all_facts.len()
        invariant
            n <= all_facts.len(),
            nodes.len() == n,
            forall|j: int| 0 <= j < n ==> node_record_matches(#[trigger] nodes@[j], all_facts@[j]),
        decreases all_facts.len() - n,
    {
        nodes.push(node_record(&all_facts[n]));
        n = n + 1;
    }
    let ghost unsorted_nodes = nodes@;
    sort_nodes(&mut nodes);
    proof {
        law_sorted_nodes_are_ordered_permutations(unsorted_nodes);
        assert(nodes_of(batch_facts(originals, ord), nodes@));
    }

    let ghost sites = batch_sites(fs, originals, ord, corpus, ctxs);
    proof {
        accumulator.lemma_sorted_entries();
    }
    let ghost entries = accumulator.entries();
    let finished = accumulator.finish();
    let mut edges: Vec<EdgeRecord> = Vec::new();
    let mut e: usize = 0;
    while e < finished.len()
        invariant
            e <= finished.len(),
            edges.len() == e,
            forall|j: int| 0 <= j < e ==> edge_record_matches(#[trigger] edges@[j], finished@[j]),
        decreases finished.len() - e,
    {
        edges.push(edge_record(&finished[e]));
        e = e + 1;
    }
    proof {
        assert forall|i: int, j: int| 0 <= i < j < edges@.len() implies edge_triple(#[trigger] edges@[i])
            != edge_triple(#[trigger] edges@[j]) by {
            let a = edge_key(finished@[i]);
            let b = edge_key(finished@[j]);
            assert(edge_record_matches(edges@[i], finished@[i]));
            assert(edge_record_matches(edges@[j], finished@[j]));
            assert(key_lt(a, b));
            lemma_text_lt_irreflexive(a.0);
            lemma_text_lt_irreflexive(a.2);
            if a.1 != b.1 {
                lemma_edge_type_names_distinct(a.1, b.1);
            }
        }
        assert forall|i: int| 0 <= i < edges@.len() implies (#[trigger] edges@[i]).source_ref@
            != edges@[i].target_ref@ by {
            assert(edge_record_matches(edges@[i], finished@[i]));
        }
        assert forall|j: int| 0 <= j < edges@.len() implies edge_record_for(
            #[trigger] edges@[j],
            entries[j].0,
            entries[j].1,
        ) && pending_after(sites, entries[j].0) == Some(entries[j].1) by {
            lemma_record_for(edges@[j], finished@[j], entries[j].0, entries[j].1);
            lemma_lookup_unique(entries, entries[j].0);
            assert(lookup_pending(entries, entries[j].0) == pending_after(sites, entries[j].0));
        }
    }
    let ghost unsorted_edges = edges@;
    sort_edges(&mut edges);
    proof {
        broadcast use vstd::seq_lib::group_to_multiset_ensures;

        law_sorted_edges_are_ordered_permutations(unsorted_edges);
        law_sorting_keeps_edges_deduplicated(unsorted_edges);
        assert forall|i: int| 0 <= i < edges@.len() implies record_of_pending(sites, #[trigger] edges@[i]) by {
            let r = edges@[i];
            assert(edges@.contains(r));
            assert(edges@.to_multiset().count(r) > 0);
            assert(unsorted_edges.contains(r));
            let j = choose|j: int| 0 <= j < unsorted_edges.len() && unsorted_edges[j] == r;
            assert(edge_record_for(unsorted_edges[j], entries[j].0, entries[j].1));
            assert(pending_after(sites, entries[j].0) is Some);
        }
        assert forall|key: EdgeKey| #[trigger] pending_after(sites, key) is Some implies pending_recorded(
            sites,
            edges@,
            key,
        ) by {
            lemma_lookup_unique(entries, key);
            assert(lookup_pending(entries, key) == pending_after(sites, key));
            let j = choose|j: int| 0 <= j < entries.len() && entries[j].0 == key;
            let r = unsorted_edges[j];
            assert(edge_record_for(r, key, pending_after(sites, key)->0));
            assert(unsorted_edges.contains(r));
            assert(unsorted_edges.to_multiset().count(r) > 0);
            assert(edges@.contains(r));
            let i = choose|i: int| 0 <= i < edges@.len() && edges@[i] == r;
            assert(edge_record_for(edges@[i], key, pending_after(sites, key)->0));
        }
    }

    let mentions = sort_dedup(&all_mentions, false);
    let diagnostics = sort_diagnostics(diagnostics);

    let result = ExtractionResult {
        nodes,
        edges,
        mentions,
        diagnostics,
        stats: ExtractionStats {
            files: files.len() as u32,
            files_with_errors,
            unresolved_calls: unresolved,
        },
    };
    proof {
        assert(ord.take(order.len() as int) =~= ord);
        assert(resolution_fits(fs, originals, ord, corpus, ctxs));
        assert(edges_from(sites, result));
        assert(extracted_from(fs, originals, ord, result));
    }
    result
}

} // verus!
