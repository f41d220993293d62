//! Edge provenance and deduplication.
//!
//! Every candidate edge passes through an [`EdgeAccumulator`], which folds all
//! sites naming one `(source_ref, edge_type, target_ref)` triple onto one
//! edge: `count` accumulates, evidence collects, and the most confident reason
//! wins. The `reason` vocabulary and the evidence cap are a shared contract
//! with the consumer.

use vstd::prelude::*;

use crate::order::{compare_text, text_lt, Precedence, lemma_text_lt_irreflexive,
    lemma_text_lt_total, lemma_text_lt_transitive};

verus! {

/// Maximum evidence entries retained on a deduplicated edge.
pub const EVIDENCE_CAP: usize = 20;

/// Why an edge was emitted.
#[derive(Debug, Clone, Copy, PartialEq, Eq, PartialOrd, Ord, Hash, Structural)]
pub enum Reason {
    Syntactic,
    PathResolved,
    NameMatch,
    ImportScoped,
    ReceiverTyped,
    ExplicitMention,
}

/// The wire name of a reason.
pub open spec fn spec_reason_name(r: Reason) -> Seq<char> {
    match r {
        Reason::Syntactic => "syntactic"@,
        Reason::PathResolved => "path-resolved"@,
        Reason::NameMatch => "name-match"@,
        Reason::ImportScoped => "import-scoped"@,
        Reason::ReceiverTyped => "receiver-typed"@,
        Reason::ExplicitMention => "explicit-mention"@,
    }
}

/// The confidence a reason carries, in hundredths: the three reasons read
/// directly from source are certain, the inferred tiers descend.
pub open spec fn spec_confidence(r: Reason) -> u32 {
    match r {
        Reason::Syntactic | Reason::PathResolved | Reason::ExplicitMention => 100,
        Reason::ReceiverTyped => 90,
        Reason::ImportScoped => 70,
        Reason::NameMatch => 50,
    }
}

impl Reason {
    /// The wire name.
    pub fn as_str(self) -> (s: &'static str)
        ensures
            s@ == spec_reason_name(self),
    {
        match self {
            Reason::Syntactic => "syntactic",
            Reason::PathResolved => "path-resolved",
            Reason::NameMatch => "name-match",
            Reason::ImportScoped => "import-scoped",
            Reason::ReceiverTyped => "receiver-typed",
            Reason::ExplicitMention => "explicit-mention",
        }
    }

    /// The confidence this reason carries, in hundredths (`100` is 1.0).
    pub fn confidence_percent(self) -> (c: u32)
        ensures
            c == spec_confidence(self),
    {
        match self {
            Reason::Syntactic | Reason::PathResolved | Reason::ExplicitMention => 100,
            Reason::ReceiverTyped => 90,
            Reason::ImportScoped => 70,
            Reason::NameMatch => 50,
        }
    }
}

/// The relationship an edge asserts.
#[derive(Debug, Clone, Copy, PartialEq, Eq, PartialOrd, Ord, Hash, Structural)]
pub enum EdgeType {
    Contains,
    Imports,
    Calls,
    ImplementsTrait,
    Extends,
    References,
}

/// The wire name of an edge type.
pub open spec fn spec_edge_type_name(t: EdgeType) -> Seq<char> {
    match t {
        EdgeType::Contains => "contains"@,
        EdgeType::Imports => "imports"@,
        EdgeType::Calls => "calls"@,
        EdgeType::ImplementsTrait => "implements_trait"@,
        EdgeType::Extends => "extends"@,
        EdgeType::References => "references"@,
    }
}

/// Declaration order of the edge types, the order edges sort by.
pub open spec fn edge_type_rank(t: EdgeType) -> int {
    match t {
        EdgeType::Contains => 0,
        EdgeType::Imports => 1,
        EdgeType::Calls => 2,
        EdgeType::ImplementsTrait => 3,
        EdgeType::Extends => 4,
        EdgeType::References => 5,
    }
}

impl EdgeType {
    /// The wire name.
    pub fn as_str(self) -> (s: &'static str)
        ensures
            s@ == spec_edge_type_name(self),
    {
        match self {
            EdgeType::Contains => "contains",
            EdgeType::Imports => "imports",
            EdgeType::Calls => "calls",
            EdgeType::ImplementsTrait => "implements_trait",
            EdgeType::Extends => "extends",
            EdgeType::References => "references",
        }
    }

    /// The position of this type in declaration order.
    pub fn rank(self) -> (r: u8)
        ensures
            r as int == edge_type_rank(self),
    {
        match self {
            EdgeType::Contains => 0,
            EdgeType::Imports => 1,
            EdgeType::Calls => 2,
            EdgeType::ImplementsTrait => 3,
            EdgeType::Extends => 4,
            EdgeType::References => 5,
        }
    }
}

/// One call site or citation that contributed to an edge.
#[derive(Debug, Clone, PartialEq, Eq, PartialOrd, Ord)]
pub struct Evidence {
    pub file: String,
    pub line: u32,
}

/// Evidence as plain values: the file's characters and the line.
pub type EvidenceView = (Seq<char>, u32);

impl View for Evidence {
    type V = EvidenceView;

    open spec fn view(&self) -> EvidenceView {
        (self.file@, self.line)
    }
}

impl Evidence {
    /// An equal copy.
    pub fn copy(&self) -> (e: Evidence)
        ensures
            e@ == self@,
    {
        Evidence { file: self.file.clone(), line: self.line }
    }
}

/// Evidence order: by file, then by line.
pub open spec fn evidence_lt(a: EvidenceView, b: EvidenceView) -> bool {
    text_lt(a.0, b.0) || (a.0 == b.0 && a.1 < b.1)
}

/// A sequence sorted strictly increasing under [`evidence_lt`].
pub open spec fn evidence_sorted(s: Seq<EvidenceView>) -> bool {
    forall|i: int, j: int| 0 <= i < j < s.len() ==> evidence_lt(s[i], s[j])
}

/// `e` inserted into a strictly sorted sequence, unless already present.
pub open spec fn insert_sorted(s: Seq<EvidenceView>, e: EvidenceView) -> Seq<EvidenceView>
    decreases s.len(),
{
    if s.len() == 0 {
        seq![e]
    } else if s[0] == e {
        s
    } else if evidence_lt(e, s[0]) {
        seq![e] + s
    } else {
        seq![s[0]] + insert_sorted(s.drop_first(), e)
    }
}

/// The distinct entries of `evs`, sorted by file then line.
pub open spec fn sort_dedup(evs: Seq<EvidenceView>) -> Seq<EvidenceView>
    decreases evs.len(),
{
    if evs.len() == 0 {
        Seq::empty()
    } else {
        insert_sorted(sort_dedup(evs.drop_last()), evs.last())
    }
}

/// The evidence a finished edge keeps: the distinct sites in source order,
/// at most [`EVIDENCE_CAP`] of them.
pub open spec fn finished_evidence(evs: Seq<EvidenceView>) -> Seq<EvidenceView> {
    let s = sort_dedup(evs);
    if s.len() > 20 {
        s.take(20)
    } else {
        s
    }
}

/// A deduplicated edge with its provenance.
#[derive(Debug, Clone, PartialEq, Eq)]
pub struct Edge {
    pub source_ref: String,
    pub edge_type: EdgeType,
    pub target_ref: String,
    /// The reason's confidence in hundredths.
    pub confidence_percent: u32,
    pub reason: Reason,
    /// At most [`EVIDENCE_CAP`] entries, ordered by file then line.
    pub evidence: Vec<Evidence>,
    /// Total contributing sites, including those beyond the cap.
    pub count: u32,
}

/// The triple an edge is deduplicated on.
pub type EdgeKey = (Seq<char>, EdgeType, Seq<char>);

/// What is known of one triple while sites accumulate: the winning reason,
/// every site's evidence in arrival order, and the site count.
pub type PendingView = (Reason, Seq<EvidenceView>, u32);

/// Edge key order: source, then edge type, then target.
pub open spec fn key_lt(a: EdgeKey, b: EdgeKey) -> bool {
    text_lt(a.0, b.0) || (a.0 == b.0 && (edge_type_rank(a.1) < edge_type_rank(b.1) || (a.1
        == b.1 && text_lt(a.2, b.2))))
}

/// What one more site contributes to a triple's pending state.
pub open spec fn fold_site(prev: Option<PendingView>, reason: Reason, ev: EvidenceView) -> PendingView {
    match prev {
        None => (reason, seq![ev], 1u32),
        Some(p) => (
            if spec_confidence(reason) > spec_confidence(p.0) { reason } else { p.0 },
            p.1.push(ev),
            if p.2 == u32::MAX { p.2 } else { (p.2 + 1) as u32 },
        ),
    }
}

/// The pending state recorded for `k` in a sequence of keyed entries.
pub open spec fn lookup_pending(s: Seq<(EdgeKey, PendingView)>, k: EdgeKey) -> Option<PendingView>
    decreases s.len(),
{
    if s.len() == 0 {
        None
    } else if s[0].0 == k {
        Some(s[0].1)
    } else {
        lookup_pending(s.drop_first(), k)
    }
}

/// Keyed entries sorted strictly by key.
pub open spec fn keys_sorted(s: Seq<(EdgeKey, PendingView)>) -> bool {
    forall|i: int, j: int| 0 <= i < j < s.len() ==> key_lt(#[trigger] s[i].0, #[trigger] s[j].0)
}

/// No entry's source equals its target.
pub open spec fn no_self_edges(s: Seq<(EdgeKey, PendingView)>) -> bool {
    forall|i: int| 0 <= i < s.len() ==> (#[trigger] s[i]).0.0 != s[i].0.2
}

struct PendingEdge {
    source_ref: String,
    edge_type: EdgeType,
    target_ref: String,
    reason: Reason,
    evidence: Vec<Evidence>,
    count: u32,
}

impl PendingEdge {
    spec fn key(&self) -> EdgeKey {
        (self.source_ref@, self.edge_type, self.target_ref@)
    }

    spec fn pending(&self) -> PendingView {
        (self.reason, self.evidence@.map_values(|e: Evidence| e@), self.count)
    }
}

/// Accumulates candidate edges and folds them onto one edge per
/// `(source_ref, edge_type, target_ref)` triple.
pub struct EdgeAccumulator {
    edges: Vec<PendingEdge>,
}

/// The edge a finished triple becomes.
pub open spec fn finished_edge_matches(e: Edge, k: EdgeKey, p: PendingView) -> bool {
    &&& e.source_ref@ == k.0
    &&& e.edge_type == k.1
    &&& e.target_ref@ == k.2
    &&& e.reason == p.0
    &&& e.confidence_percent == spec_confidence(p.0)
    &&& e.evidence@.map_values(|x: Evidence| x@) == finished_evidence(p.1)
    &&& e.count == p.2
}

/// The key of a finished edge.
pub open spec fn edge_key(e: Edge) -> EdgeKey {
    (e.source_ref@, e.edge_type, e.target_ref@)
}

impl EdgeAccumulator {
    /// The pending triples, sorted by key.
    pub closed spec fn entries(&self) -> Seq<(EdgeKey, PendingView)> {
        self.edges@.map_values(|p: PendingEdge| (p.key(), p.pending()))
    }

    /// The accumulator's entries are sorted strictly by key.
    pub closed spec fn wf(&self) -> bool {
        &&& keys_sorted(self.entries())
        &&& no_self_edges(self.entries())
    }

    /// A well-formed accumulator's entries are sorted strictly by key.
    pub proof fn lemma_sorted_entries(&self)
        requires
            self.wf(),
        ensures
            keys_sorted(self.entries()),
    {
    }

    /// An empty accumulator.
    pub fn new() -> (acc: Self)
        ensures
            acc.wf(),
            acc.entries() == Seq::<(EdgeKey, PendingView)>::empty(),
    {
        let acc = EdgeAccumulator { edges: Vec::new() };
        assert(acc.entries() =~= Seq::<(EdgeKey, PendingView)>::empty());
        acc
    }

    /// Record one contributing site for an edge.
    ///
    /// Repeated calls for the same triple fold together: `count` accumulates
    /// (saturating), evidence collects, and the more confident reason wins so
    /// a well-resolved site is not degraded by a weaker one. An edge whose
    /// source and target are equal is dropped.
    pub fn add(
        &mut self,
        source_ref: String,
        edge_type: EdgeType,
        target_ref: String,
        reason: Reason,
        evidence: Evidence,
    )
        requires
            old(self).wf(),
        ensures
            final(self).wf(),
            source_ref@ == target_ref@ ==> final(self).entries() == old(self).entries(),
            source_ref@ != target_ref@ ==> forall|k: EdgeKey|
                #[trigger] lookup_pending(final(self).entries(), k) == if k == (
                    source_ref@,
                    edge_type,
                    target_ref@,
                ) {
                    Some(
                        fold_site(
                            lookup_pending(old(self).entries(), k),
                            reason,
                            evidence@,
                        ),
                    )
                } else {
                    lookup_pending(old(self).entries(), k)
                },
    {
        if crate::order::same_text(source_ref.as_str(), target_ref.as_str()) {
            return;
        }
        let ghost k: EdgeKey = (source_ref@, edge_type, target_ref@);
        let ghost old_entries = self.entries();
        // Find the first entry whose key is not below `k`.
        let mut i: usize = 0;
        let mut found = false;
        let mut stop = false;
        while i < self.edges.len() && !stop
            invariant
                i <= self.edges.len(),
                self.wf(),
                self.entries() == old_entries,
                old_entries.len() == self.edges.len(),
                k == (source_ref@, edge_type, target_ref@),
                forall|j: int| 0 <= j < i ==> key_lt(#[trigger] old_entries[j].0, k),
                stop ==> i < self.edges.len(),
                stop && found ==> old_entries[i as int].0 == k,
                stop && !found ==> key_lt(k, old_entries[i as int].0),
                !stop ==> !found,
            decreases self.edges.len() - i + (if stop { 0int } else { 1int }),
        {
            let c = compare_key(&self.edges[i], &source_ref, edge_type, &target_ref);
            if c == Precedence::Same {
                found = true;
                stop = true;
            } else if c == Precedence::After {
                stop = true;
            } else {
                i = i + 1;
            }
        }
        proof {
            lemma_lookup_unique(old_entries, k);
        }
        if found {
            let p = self.edges.remove(i);
            let p = fold_into(p, reason, evidence);
            self.edges.insert(i, p);
            proof {
                let new_entries = self.entries();
                assert(new_entries =~= old_entries.update(
                    i as int,
                    (k, fold_site(Some(old_entries[i as int].1), reason, evidence@)),
                ));
                let v = fold_site(Some(old_entries[i as int].1), reason, evidence@);
                assert(new_entries == old_entries.update(i as int, (old_entries[i as int].0, v)));
                lemma_update_keeps_sorted(old_entries, i as int, v);
                assert forall|j: int| 0 <= j < new_entries.len() implies (#[trigger] new_entries[j]).0.0 != new_entries[j].0.2 by {
                    assert(new_entries[j].0 == old_entries[j].0);
                }
                lemma_lookup_update(old_entries, i as int, v);
                assert(lookup_pending(old_entries, k) == Some(old_entries[i as int].1));
            }
        } else {
            let p = PendingEdge {
                source_ref,
                edge_type,
                target_ref,
                reason,
                evidence: vec![evidence],
                count: 1,
            };
            proof {
                assert(p.evidence@.map_values(|e: Evidence| e@) =~= seq![evidence@]);
                assert forall|j: int| 0 <= j < old_entries.len() implies old_entries[j].0 != k by {
                    if j < i {
                        lemma_key_lt_total(old_entries[j].0, k);
                    } else {
                        lemma_key_lt_total(k, k);
                        if j > i {
                            assert(key_lt(old_entries[i as int].0, old_entries[j].0));
                            lemma_key_lt_transitive(k, old_entries[i as int].0, old_entries[j].0);
                        }
                    }
                }
                lemma_lookup_unique(old_entries, k);
            }
            self.edges.insert(i, p);
            proof {
                let new_entries = self.entries();
                let x = (k, fold_site(None, reason, evidence@));
                assert(new_entries =~= old_entries.insert(i as int, x));
                lemma_insert_keeps_sorted(old_entries, i as int, x);
                assert forall|j: int| 0 <= j < new_entries.len() implies (#[trigger] new_entries[j]).0.0 != new_entries[j].0.2 by {
                    if j < i {
                        assert(new_entries[j] == old_entries[j]);
                    } else if j > i {
                        assert(new_entries[j] == old_entries[j - 1]);
                    }
                }
                lemma_lookup_insert(old_entries, i as int, x);
            }
        }
    }

    /// Finish, producing one edge per triple in key order, each with its
    /// evidence sorted, deduplicated and capped.
    pub fn finish(self) -> (out: Vec<Edge>)
        requires
            self.wf(),
        ensures
            out.len() == self.entries().len(),
            forall|i: int|
                0 <= i < out.len() ==> finished_edge_matches(
                    #[trigger] out[i],
                    self.entries()[i].0,
                    self.entries()[i].1,
                ),
            forall|i: int, j: int|
                0 <= i < j < out.len() ==> key_lt(edge_key(#[trigger] out[i]), edge_key(
                    #[trigger] out[j],
                )),
            forall|i: int| 0 <= i < out.len() ==> (#[trigger] out[i]).source_ref@ != out[i].target_ref@,
    {
        let mut out: Vec<Edge> = Vec::new();
        let mut i: usize = 0;
        while i < self.edges.len()
            invariant
                i <= self.edges.len(),
                out.len() == i,
                self.wf(),
                forall|j: int|
                    0 <= j < i ==> finished_edge_matches(
                        #[trigger] out[j],
                        self.entries()[j].0,
                        self.entries()[j].1,
                    ),
            decreases self.edges.len() - i,
        {
            let p = &self.edges[i];
            let ev = finish_evidence(&p.evidence);
            let e = Edge {
                source_ref: p.source_ref.clone(),
                edge_type: p.edge_type,
                target_ref: p.target_ref.clone(),
                confidence_percent: p.reason.confidence_percent(),
                reason: p.reason,
                evidence: ev,
                count: p.count,
            };
            out.push(e);
            i = i + 1;
        }
        proof {
            assert forall|a: int| 0 <= a < out.len() implies (#[trigger] out[a]).source_ref@ != out[a].target_ref@ by {
                assert(self.entries()[a].0.0 != self.entries()[a].0.2);
            }
            assert forall|a: int, b: int| 0 <= a < b < out.len() implies key_lt(
                edge_key(#[trigger] out[a]),
                edge_key(#[trigger] out[b]),
            ) by {
                assert(edge_key(out[a]) == self.entries()[a].0);
                assert(edge_key(out[b]) == self.entries()[b].0);
            }
        }
        out
    }
}

fn fold_into(p: PendingEdge, reason: Reason, evidence: Evidence) -> (q: PendingEdge)
    ensures
        q.key() == p.key(),
        q.pending() == fold_site(Some(p.pending()), reason, evidence@),
{
    let mut p = p;
    if reason.confidence_percent() > p.reason.confidence_percent() {
        p.reason = reason;
    }
    p.count = if p.count == u32::MAX { p.count } else { p.count + 1 };
    let ghost before_ev = p.evidence@;
    p.evidence.push(evidence);
    proof {
        assert(p.evidence@.map_values(|e: Evidence| e@) =~= before_ev.map_values(|e: Evidence| e@).push(
            evidence@,
        ));
    }
    p
}

fn compare_key(p: &PendingEdge, source_ref: &String, edge_type: EdgeType, target_ref: &String) -> (r: Precedence)
    ensures
        r == Precedence::Before <==> key_lt(p.key(), (source_ref@, edge_type, target_ref@)),
        r == Precedence::Same <==> p.key() == (source_ref@, edge_type, target_ref@),
        r == Precedence::After <==> key_lt((source_ref@, edge_type, target_ref@), p.key()),
{
    let ghost k: EdgeKey = (source_ref@, edge_type, target_ref@);
    proof {
        lemma_key_lt_total(p.key(), k);
    }
    let a = compare_text(p.source_ref.as_str(), source_ref.as_str());
    if a != Precedence::Same {
        proof {
            lemma_text_lt_total(p.source_ref@, source_ref@);
        }
        return a;
    }
    let ra = p.edge_type.rank();
    let rb = edge_type.rank();
    if ra < rb {
        return Precedence::Before;
    }
    if ra > rb {
        return Precedence::After;
    }
    assert(p.edge_type == edge_type) by {
        lemma_rank_injective(p.edge_type, edge_type);
    }
    proof {
        lemma_text_lt_total(p.target_ref@, target_ref@);
    }
    compare_text(p.target_ref.as_str(), target_ref.as_str())
}

proof fn lemma_rank_injective(a: EdgeType, b: EdgeType)
    requires
        edge_type_rank(a) == edge_type_rank(b),
    ensures
        a == b,
{
}

/// Key order is a strict total order.
pub proof fn lemma_key_lt_total(a: EdgeKey, b: EdgeKey)
    ensures
        key_lt(a, b) || a == b || key_lt(b, a),
        !(key_lt(a, b) && key_lt(b, a)),
        !key_lt(a, a),
{
    lemma_text_lt_total(a.0, b.0);
    lemma_text_lt_total(a.2, b.2);
    lemma_text_lt_irreflexive(a.0);
    lemma_text_lt_irreflexive(a.2);
    if edge_type_rank(a.1) == edge_type_rank(b.1) {
        lemma_rank_injective(a.1, b.1);
    }
}

/// Key order is transitive.
pub proof fn lemma_key_lt_transitive(a: EdgeKey, b: EdgeKey, c: EdgeKey)
    requires
        key_lt(a, b),
        key_lt(b, c),
    ensures
        key_lt(a, c),
{
    if text_lt(a.0, b.0) && text_lt(b.0, c.0) {
        lemma_text_lt_transitive(a.0, b.0, c.0);
    }
    if a.0 == b.0 && b.0 == c.0 && a.1 == b.1 && b.1 == c.1 && text_lt(a.2, b.2) && text_lt(
        b.2,
        c.2,
    ) {
        lemma_text_lt_transitive(a.2, b.2, c.2);
    }
}

/// In sorted entries, a key's lookup is the unique entry carrying it.
pub proof fn lemma_lookup_unique(s: Seq<(EdgeKey, PendingView)>, k: EdgeKey)
    requires
        keys_sorted(s),
    ensures
        forall|i: int| 0 <= i < s.len() && s[i].0 == k ==> lookup_pending(s, k) == Some(s[i].1),
        (forall|i: int| 0 <= i < s.len() ==> s[i].0 != k) ==> lookup_pending(s, k) is None,
    decreases s.len(),
{
    if s.len() > 0 {
        assert(keys_sorted(s.drop_first())) by {
            assert forall|i: int, j: int| 0 <= i < j < s.drop_first().len() implies key_lt(
                #[trigger] s.drop_first()[i].0,
                #[trigger] s.drop_first()[j].0,
            ) by {
                assert(s.drop_first()[i] == s[i + 1]);
                assert(s.drop_first()[j] == s[j + 1]);
            }
        }
        lemma_lookup_unique(s.drop_first(), k);
        assert forall|i: int| 0 <= i < s.len() && s[i].0 == k implies lookup_pending(s, k) == Some(
            s[i].1,
        ) by {
            if i > 0 {
                if s[0].0 == k {
                    assert(key_lt(s[0].0, s[i].0));
                    lemma_key_lt_total(k, k);
                }
                assert(s.drop_first()[i - 1] == s[i]);
            }
        }
        if forall|i: int| 0 <= i < s.len() ==> s[i].0 != k {
            assert forall|i: int| 0 <= i < s.drop_first().len() implies s.drop_first()[i].0 != k by {
                assert(s.drop_first()[i] == s[i + 1]);
            }
        }
    }
}

proof fn lemma_update_keeps_sorted(s: Seq<(EdgeKey, PendingView)>, i: int, v: PendingView)
    requires
        keys_sorted(s),
        0 <= i < s.len(),
    ensures
        keys_sorted(s.update(i, (s[i].0, v))),
{
    let t = s.update(i, (s[i].0, v));
    assert forall|a: int, b: int| 0 <= a < b < t.len() implies key_lt(#[trigger] t[a].0, #[trigger] t[b].0) by {
        assert(t[a].0 == s[a].0);
        assert(t[b].0 == s[b].0);
    }
}

proof fn lemma_lookup_update(s: Seq<(EdgeKey, PendingView)>, i: int, v: PendingView)
    requires
        keys_sorted(s),
        0 <= i < s.len(),
    ensures
        forall|k: EdgeKey|
            #[trigger] lookup_pending(s.update(i, (s[i].0, v)), k) == if k == s[i].0 {
                Some(v)
            } else {
                lookup_pending(s, k)
            },
{
    let t = s.update(i, (s[i].0, v));
    lemma_update_keeps_sorted(s, i, v);
    assert forall|k: EdgeKey| #[trigger] lookup_pending(t, k) == if k == s[i].0 {
        Some(v)
    } else {
        lookup_pending(s, k)
    } by {
        lemma_lookup_unique(s, k);
        lemma_lookup_unique(t, k);
        if k == s[i].0 {
            assert(t[i].0 == k);
        } else {
            if exists|j: int| 0 <= j < s.len() && s[j].0 == k {
                let j = choose|j: int| 0 <= j < s.len() && s[j].0 == k;
                assert(t[j] == s[j]);
            } else {
                assert forall|j: int| 0 <= j < t.len() implies t[j].0 != k by {
                    if j != i {
                        assert(t[j] == s[j]);
                    }
                }
            }
        }
    }
}

proof fn lemma_insert_keeps_sorted(s: Seq<(EdgeKey, PendingView)>, i: int, x: (EdgeKey, PendingView))
    requires
        keys_sorted(s),
        0 <= i <= s.len(),
        forall|j: int| 0 <= j < i ==> key_lt(#[trigger] s[j].0, x.0),
        i < s.len() ==> key_lt(x.0, s[i].0),
    ensures
        keys_sorted(s.insert(i, x)),
{
    let t = s.insert(i, x);
    assert forall|a: int, b: int| 0 <= a < b < t.len() implies key_lt(#[trigger] t[a].0, #[trigger] t[b].0) by {
        if a < i && b < i {
            assert(t[a] == s[a] && t[b] == s[b]);
        } else if a < i && b == i {
            assert(t[a] == s[a]);
        } else if a < i && b > i {
            assert(t[a] == s[a] && t[b] == s[b - 1]);
            if a < b - 1 {
                assert(key_lt(s[a].0, s[b - 1].0));
            }
        } else if a == i {
            assert(t[b] == s[b - 1]);
            if b - 1 > i {
                assert(key_lt(s[i].0, s[b - 1].0));
                lemma_key_lt_transitive(x.0, s[i].0, s[b - 1].0);
            }
        } else {
            assert(t[a] == s[a - 1] && t[b] == s[b - 1]);
        }
    }
}

proof fn lemma_lookup_insert(s: Seq<(EdgeKey, PendingView)>, i: int, x: (EdgeKey, PendingView))
    requires
        keys_sorted(s),
        keys_sorted(s.insert(i, x)),
        0 <= i <= s.len(),
    ensures
        forall|k: EdgeKey|
            #[trigger] lookup_pending(s.insert(i, x), k) == if k == x.0 {
                Some(x.1)
            } else {
                lookup_pending(s, k)
            },
{
    let t = s.insert(i, x);
    assert forall|k: EdgeKey| #[trigger] lookup_pending(t, k) == if k == x.0 {
        Some(x.1)
    } else {
        lookup_pending(s, k)
    } by {
        lemma_lookup_unique(s, k);
        lemma_lookup_unique(t, k);
        if k == x.0 {
            assert(t[i] == x);
        } else {
            if exists|j: int| 0 <= j < s.len() && s[j].0 == k {
                let j = choose|j: int| 0 <= j < s.len() && s[j].0 == k;
                if j < i {
                    assert(t[j] == s[j]);
                } else {
                    assert(t[j + 1] == s[j]);
                }
            } else {
                assert forall|j: int| 0 <= j < t.len() implies t[j].0 != k by {
                    if j < i {
                        assert(t[j] == s[j]);
                    } else if j > i {
                        assert(t[j] == s[j - 1]);
                    }
                }
            }
        }
    }
}

fn compare_evidence(a: &Evidence, b: &Evidence) -> (r: Precedence)
    ensures
        r == Precedence::Before <==> evidence_lt(a@, b@),
        r == Precedence::Same <==> a@ == b@,
        r == Precedence::After <==> evidence_lt(b@, a@),
{
    proof {
        lemma_text_lt_total(a.file@, b.file@);
        lemma_text_lt_irreflexive(a.file@);
    }
    let c = compare_text(a.file.as_str(), b.file.as_str());
    if c != Precedence::Same {
        c
    } else if a.line < b.line {
        Precedence::Before
    } else if a.line == b.line {
        Precedence::Same
    } else {
        Precedence::After
    }
}

/// Evidence order is a strict total order.
pub proof fn lemma_evidence_lt_total(a: EvidenceView, b: EvidenceView)
    ensures
        evidence_lt(a, b) || a == b || evidence_lt(b, a),
        !(evidence_lt(a, b) && evidence_lt(b, a)),
        !evidence_lt(a, a),
{
    lemma_text_lt_total(a.0, b.0);
    lemma_text_lt_irreflexive(a.0);
}

/// Evidence order is transitive.
pub proof fn lemma_evidence_lt_transitive(a: EvidenceView, b: EvidenceView, c: EvidenceView)
    requires
        evidence_lt(a, b),
        evidence_lt(b, c),
    ensures
        evidence_lt(a, c),
{
    if text_lt(a.0, b.0) && text_lt(b.0, c.0) {
        lemma_text_lt_transitive(a.0, b.0, c.0);
    }
}

/// Inserting into a sorted sequence at the first position not below `e`.
proof fn lemma_insert_sorted_at(s: Seq<EvidenceView>, e: EvidenceView, i: int)
    requires
        evidence_sorted(s),
        0 <= i <= s.len(),
        forall|j: int| 0 <= j < i ==> evidence_lt(#[trigger] s[j], e),
        i < s.len() ==> !evidence_lt(s[i], e),
    ensures
        i < s.len() && s[i] == e ==> insert_sorted(s, e) == s,
        !(i < s.len() && s[i] == e) ==> insert_sorted(s, e) == s.insert(i, e),
    decreases s.len(),
{
    if s.len() == 0 {
        assert(s.insert(0, e) =~= seq![e]);
    } else if i == 0 {
        if s[0] == e {
        } else {
            lemma_evidence_lt_total(s[0], e);
            assert(s.insert(0, e) =~= seq![e] + s);
        }
    } else {
        lemma_evidence_lt_total(s[0], e);
        let t = s.drop_first();
        assert(evidence_sorted(t)) by {
            assert forall|a: int, b: int| 0 <= a < b < t.len() implies evidence_lt(t[a], t[b]) by {
                assert(t[a] == s[a + 1] && t[b] == s[b + 1]);
            }
        }
        assert forall|j: int| 0 <= j < i - 1 implies evidence_lt(#[trigger] t[j], e) by {
            assert(t[j] == s[j + 1]);
        }
        lemma_insert_sorted_at(t, e, i - 1);
        assert(s == seq![s[0]] + t);
        if !(i < s.len() && s[i] == e) {
            assert(seq![s[0]] + t.insert(i - 1, e) =~= s.insert(i, e));
        }
    }
}

/// Inserting keeps a sequence strictly sorted.
proof fn lemma_insert_keeps_evidence_sorted(s: Seq<EvidenceView>, e: EvidenceView, i: int)
    requires
        evidence_sorted(s),
        0 <= i <= s.len(),
        forall|j: int| 0 <= j < i ==> evidence_lt(#[trigger] s[j], e),
        i < s.len() ==> evidence_lt(e, s[i]),
    ensures
        evidence_sorted(s.insert(i, e)),
{
    let t = s.insert(i, e);
    assert forall|a: int, b: int| 0 <= a < b < t.len() implies evidence_lt(t[a], t[b]) by {
        if a < i && b < i {
            assert(t[a] == s[a] && t[b] == s[b]);
        } else if a < i && b == i {
            assert(t[a] == s[a]);
        } else if a < i && b > i {
            assert(t[a] == s[a] && t[b] == s[b - 1]);
            if a < b - 1 {
                assert(evidence_lt(s[a], s[b - 1]));
            }
        } else if a == i {
            assert(t[b] == s[b - 1]);
            if b - 1 > i {
                assert(evidence_lt(s[i], s[b - 1]));
                lemma_evidence_lt_transitive(e, s[i], s[b - 1]);
            }
        } else {
            assert(t[a] == s[a - 1] && t[b] == s[b - 1]);
        }
    }
}

/// The distinct entries of `evs` in file-then-line order, capped.
fn finish_evidence(evs: &Vec<Evidence>) -> (out: Vec<Evidence>)
    ensures
        out@.map_values(|x: Evidence| x@) == finished_evidence(evs@.map_values(|x: Evidence| x@)),
{
    let ghost all = evs@.map_values(|x: Evidence| x@);
    let mut sorted: Vec<Evidence> = Vec::new();
    let mut n: usize = 0;
    while n < evs.len()
        invariant
            n <= evs.len(),
            all == evs@.map_values(|x: Evidence| x@),
            sorted@.map_values(|x: Evidence| x@) == sort_dedup(all.take(n as int)),
            evidence_sorted(sort_dedup(all.take(n as int))),
        decreases evs.len() - n,
    {
        let e = &evs[n];
        let ghost s = sorted@.map_values(|x: Evidence| x@);
        let mut i: usize = 0;
        let mut same = false;
        let mut stop = false;
        while i < sorted.len() && !stop
            invariant
                i <= sorted.len(),
                s == sorted@.map_values(|x: Evidence| x@),
                forall|j: int| 0 <= j < i ==> evidence_lt(#[trigger] s[j], e@),
                stop ==> i < sorted.len(),
                stop && same ==> s[i as int] == e@,
                stop && !same ==> evidence_lt(e@, s[i as int]),
                !stop ==> !same,
            decreases sorted.len() - i + (if stop { 0int } else { 1int }),
        {
            let c = compare_evidence(&sorted[i], e);
            if c == Precedence::Same {
                same = true;
                stop = true;
            } else if c == Precedence::After {
                stop = true;
            } else {
                i = i + 1;
            }
        }
        proof {
            assert(all.take(n + 1).drop_last() == all.take(n as int));
            assert(all.take(n + 1).last() == e@);
            if i < s.len() {
                lemma_evidence_lt_total(s[i as int], e@);
            }
            lemma_insert_sorted_at(s, e@, i as int);
        }
        if !same {
            proof {
                lemma_insert_keeps_evidence_sorted(s, e@, i as int);
            }
            sorted.insert(i, e.copy());
            assert(sorted@.map_values(|x: Evidence| x@) =~= s.insert(i as int, e@));
        }
        n = n + 1;
    }
    assert(all.take(evs.len() as int) == all);
    if sorted.len() > EVIDENCE_CAP {
        sorted.truncate(EVIDENCE_CAP);
        assert(sorted@.map_values(|x: Evidence| x@) =~= sort_dedup(all).take(20));
    }
    sorted
}

proof fn lemma_insert_sorted_props(s: Seq<EvidenceView>, e: EvidenceView)
    requires
        evidence_sorted(s),
    ensures
        evidence_sorted(insert_sorted(s, e)),
        forall|x: EvidenceView| #[trigger] insert_sorted(s, e).contains(x) <==> (s.contains(x) || x == e),
        insert_sorted(s, e).len() > 0,
        s.len() > 0 ==> insert_sorted(s, e)[0] == s[0] || insert_sorted(s, e)[0] == e,
    decreases s.len(),
{
    let r = insert_sorted(s, e);
    if s.len() == 0 {
        assert forall|x: EvidenceView| #[trigger] r.contains(x) <==> (s.contains(x) || x == e) by {
            if r.contains(x) {
                let k = choose|k: int| 0 <= k < r.len() && r[k] == x;
                assert(k == 0);
            }
            if x == e {
                assert(r[0] == e);
            }
        }
    } else if s[0] == e {
        assert forall|x: EvidenceView| #[trigger] r.contains(x) <==> (s.contains(x) || x == e) by {
            if x == e {
                assert(s[0] == e);
            }
        }
    } else if evidence_lt(e, s[0]) {
        assert(evidence_sorted(r)) by {
            assert forall|a: int, b: int| 0 <= a < b < r.len() implies evidence_lt(r[a], r[b]) by {
                if a == 0 {
                    assert(r[b] == s[b - 1]);
                    if b - 1 > 0 {
                        assert(evidence_lt(s[0], s[b - 1]));
                        lemma_evidence_lt_transitive(e, s[0], s[b - 1]);
                    }
                } else {
                    assert(r[a] == s[a - 1] && r[b] == s[b - 1]);
                }
            }
        }
        assert forall|x: EvidenceView| #[trigger] r.contains(x) <==> (s.contains(x) || x == e) by {
            if r.contains(x) {
                let k = choose|k: int| 0 <= k < r.len() && r[k] == x;
                if k > 0 {
                    assert(s[k - 1] == x);
                }
            }
            if s.contains(x) {
                let k = choose|k: int| 0 <= k < s.len() && s[k] == x;
                assert(r[k + 1] == x);
            }
            if x == e {
                assert(r[0] == e);
            }
        }
    } else {
        let t = s.drop_first();
        assert(evidence_sorted(t)) by {
            assert forall|a: int, b: int| 0 <= a < b < t.len() implies evidence_lt(t[a], t[b]) by {
                assert(t[a] == s[a + 1] && t[b] == s[b + 1]);
            }
        }
        lemma_insert_sorted_props(t, e);
        let it = insert_sorted(t, e);
        lemma_evidence_lt_total(s[0], e);
        assert(r == seq![s[0]] + it);
        assert(evidence_sorted(r)) by {
            assert forall|a: int, b: int| 0 <= a < b < r.len() implies evidence_lt(r[a], r[b]) by {
                if a == 0 {
                    assert(r[b] == it[b - 1]);
                    assert(it.contains(it[b - 1]));
                    if t.contains(it[b - 1]) {
                        let k = choose|k: int| 0 <= k < t.len() && t[k] == it[b - 1];
                        assert(t[k] == s[k + 1]);
                    }
                } else {
                    assert(r[a] == it[a - 1] && r[b] == it[b - 1]);
                }
            }
        }
        assert forall|x: EvidenceView| #[trigger] r.contains(x) <==> (s.contains(x) || x == e) by {
            if r.contains(x) {
                let k = choose|k: int| 0 <= k < r.len() && r[k] == x;
                if k > 0 {
                    assert(it[k - 1] == x);
                    assert(it.contains(x));
                    if t.contains(x) {
                        let m = choose|m: int| 0 <= m < t.len() && t[m] == x;
                        assert(s[m + 1] == x);
                    }
                }
            }
            if s.contains(x) {
                let k = choose|k: int| 0 <= k < s.len() && s[k] == x;
                if k == 0 {
                    assert(r[0] == x);
                } else {
                    assert(t[k - 1] == x);
                    assert(t.contains(x));
                    assert(it.contains(x));
                    let m = choose|m: int| 0 <= m < it.len() && it[m] == x;
                    assert(r[m + 1] == x);
                }
            }
            if x == e {
                assert(it.contains(e));
                let m = choose|m: int| 0 <= m < it.len() && it[m] == e;
                assert(r[m + 1] == e);
            }
        }
    }
}

/// The evidence an edge keeps is strictly ordered by file, then line — so
/// no site appears twice — and holds exactly the sites that were recorded.
pub proof fn law_evidence_sorted_and_complete(evs: Seq<EvidenceView>)
    ensures
        evidence_sorted(sort_dedup(evs)),
        forall|x: EvidenceView| #[trigger] sort_dedup(evs).contains(x) <==> evs.contains(x),
    decreases evs.len(),
{
    if evs.len() > 0 {
        law_evidence_sorted_and_complete(evs.drop_last());
        lemma_insert_sorted_props(sort_dedup(evs.drop_last()), evs.last());
        assert forall|x: EvidenceView| #[trigger] sort_dedup(evs).contains(x) <==> evs.contains(x) by {
            if evs.drop_last().contains(x) {
                let k = choose|k: int| 0 <= k < evs.drop_last().len() && evs.drop_last()[k] == x;
                assert(evs[k] == x);
            }
            if evs.contains(x) {
                let k = choose|k: int| 0 <= k < evs.len() && evs[k] == x;
                if k < evs.len() - 1 {
                    assert(evs.drop_last()[k] == x);
                }
            }
        }
    } else {
        assert forall|x: EvidenceView| #[trigger] sort_dedup(evs).contains(x) <==> evs.contains(x) by {
        }
    }
}

/// A finished edge keeps at most the first [`EVIDENCE_CAP`] distinct sites
/// in source order.
pub proof fn law_evidence_is_capped(evs: Seq<EvidenceView>)
    ensures
        finished_evidence(evs).len() <= EVIDENCE_CAP,
        finished_evidence(evs) == sort_dedup(evs).take(finished_evidence(evs).len() as int),
{
    let s = sort_dedup(evs);
    if s.len() <= 20 {
        assert(s.take(s.len() as int) == s);
    }
}

/// Two strictly sorted evidence sequences holding the same entries are one
/// sequence.
proof fn lemma_sorted_evidence_unique(a: Seq<EvidenceView>, b: Seq<EvidenceView>)
    requires
        evidence_sorted(a),
        evidence_sorted(b),
        forall|x: EvidenceView| a.contains(x) <==> b.contains(x),
    ensures
        a == b,
    decreases a.len() + b.len(),
{
    if a.len() == 0 {
        if b.len() > 0 {
            assert(b.contains(b[0]));
        }
        assert(a =~= b);
    } else if b.len() == 0 {
        assert(a.contains(a[0]));
    } else {
        assert(a.contains(a[0]));
        assert(b.contains(b[0]));
        let j = choose|j: int| 0 <= j < b.len() && b[j] == a[0];
        let i = choose|i: int| 0 <= i < a.len() && a[i] == b[0];
        lemma_evidence_lt_total(a[0], b[0]);
        if a[0] != b[0] {
            assert(j > 0 && i > 0);
            assert(evidence_lt(b[0], b[j]));
            assert(evidence_lt(a[0], a[i]));
        }
        let ta = a.drop_first();
        let tb = b.drop_first();
        assert(evidence_sorted(ta)) by {
            assert forall|p: int, q: int| 0 <= p < q < ta.len() implies evidence_lt(ta[p], ta[q]) by {
                assert(ta[p] == a[p + 1] && ta[q] == a[q + 1]);
            }
        }
        assert(evidence_sorted(tb)) by {
            assert forall|p: int, q: int| 0 <= p < q < tb.len() implies evidence_lt(tb[p], tb[q]) by {
                assert(tb[p] == b[p + 1] && tb[q] == b[q + 1]);
            }
        }
        assert forall|x: EvidenceView| ta.contains(x) <==> tb.contains(x) by {
            if ta.contains(x) {
                let p = choose|p: int| 0 <= p < ta.len() && ta[p] == x;
                assert(a[p + 1] == x);
                assert(a.contains(x));
                let q = choose|q: int| 0 <= q < b.len() && b[q] == x;
                lemma_evidence_lt_total(a[0], x);
                assert(evidence_lt(a[0], a[p + 1]));
                assert(q != 0);
                assert(tb[q - 1] == x);
            }
            if tb.contains(x) {
                let p = choose|p: int| 0 <= p < tb.len() && tb[p] == x;
                assert(b[p + 1] == x);
                assert(b.contains(x));
                let q = choose|q: int| 0 <= q < a.len() && a[q] == x;
                lemma_evidence_lt_total(b[0], x);
                assert(evidence_lt(b[0], b[p + 1]));
                assert(q != 0);
                assert(ta[q - 1] == x);
            }
        }
        lemma_sorted_evidence_unique(ta, tb);
        assert(a =~= seq![a[0]] + ta);
        assert(b =~= seq![b[0]] + tb);
    }
}

/// The finished evidence of an edge does not depend on the order its sites
/// arrived in: two arrival orders of the same sites give the same evidence.
pub proof fn law_evidence_ignores_arrival_order(evs1: Seq<EvidenceView>, evs2: Seq<EvidenceView>)
    requires
        evs1.to_multiset() == evs2.to_multiset(),
    ensures
        finished_evidence(evs1) == finished_evidence(evs2),
{
    law_evidence_sorted_and_complete(evs1);
    law_evidence_sorted_and_complete(evs2);
    assert forall|x: EvidenceView| sort_dedup(evs1).contains(x) <==> sort_dedup(evs2).contains(x) by {
        assert(evs1.contains(x) <==> evs1.to_multiset().contains(x)) by {
            evs1.to_multiset_ensures();
        }
        assert(evs2.contains(x) <==> evs2.to_multiset().contains(x)) by {
            evs2.to_multiset_ensures();
        }
    }
    lemma_sorted_evidence_unique(sort_dedup(evs1), sort_dedup(evs2));
}

/// Two sites folded onto one triple, in either order, finish as the same
/// edge: the same reason (and so the same confidence), the same count and
/// the same evidence, when the two reasons differ in confidence or are the
/// same reason.
pub proof fn law_two_sites_finish_alike(
    prev: Option<PendingView>,
    r1: Reason,
    e1: EvidenceView,
    r2: Reason,
    e2: EvidenceView,
)
    requires
        spec_confidence(r1) != spec_confidence(r2) || r1 == r2,
    ensures
        ({
            let a = fold_site(Some(fold_site(prev, r1, e1)), r2, e2);
            let b = fold_site(Some(fold_site(prev, r2, e2)), r1, e1);
            &&& a.0 == b.0
            &&& a.2 == b.2
            &&& finished_evidence(a.1) == finished_evidence(b.1)
        }),
{
    let a = fold_site(Some(fold_site(prev, r1, e1)), r2, e2);
    let b = fold_site(Some(fold_site(prev, r2, e2)), r1, e1);
    let base = match prev {
        Some(p) => p.1,
        None => Seq::<EvidenceView>::empty(),
    };
    match prev {
        Some(p) => {},
        None => {
            assert(seq![e1].push(e2) =~= Seq::<EvidenceView>::empty().push(e1).push(e2));
            assert(seq![e2].push(e1) =~= Seq::<EvidenceView>::empty().push(e2).push(e1));
        },
    }
    assert(a.1 =~= base.push(e1).push(e2));
    assert(b.1 =~= base.push(e2).push(e1));
    assert(base.push(e1).push(e2).to_multiset() =~= base.push(e2).push(e1).to_multiset()) by {
        base.to_multiset_ensures();
        base.push(e1).to_multiset_ensures();
        base.push(e2).to_multiset_ensures();
    }
    law_evidence_ignores_arrival_order(a.1, b.1);
}

/// Folding two sites onto one triple gives the same winning reason and the
/// same count whichever arrives first, when their confidences differ: the
/// more confident reason always wins.
pub proof fn law_stronger_reason_wins_in_either_order(
    prev: Option<PendingView>,
    r1: Reason,
    e1: EvidenceView,
    r2: Reason,
    e2: EvidenceView,
)
    requires
        spec_confidence(r1) != spec_confidence(r2),
    ensures
        fold_site(Some(fold_site(prev, r1, e1)), r2, e2).0 == fold_site(
            Some(fold_site(prev, r2, e2)),
            r1,
            e1,
        ).0,
        fold_site(Some(fold_site(prev, r1, e1)), r2, e2).2 == fold_site(
            Some(fold_site(prev, r2, e2)),
            r1,
            e1,
        ).2,
        spec_confidence(fold_site(Some(fold_site(prev, r1, e1)), r2, e2).0) >= spec_confidence(r1),
        spec_confidence(fold_site(Some(fold_site(prev, r1, e1)), r2, e2).0) >= spec_confidence(r2),
{
}

/// A site never lowers the confidence a triple already holds, and every site
/// is counted until the count saturates.
pub proof fn law_fold_is_monotone(prev: PendingView, reason: Reason, ev: EvidenceView)
    ensures
        spec_confidence(fold_site(Some(prev), reason, ev).0) >= spec_confidence(prev.0),
        spec_confidence(fold_site(Some(prev), reason, ev).0) >= spec_confidence(reason),
        prev.2 < u32::MAX ==> fold_site(Some(prev), reason, ev).2 == prev.2 + 1,
        fold_site(Some(prev), reason, ev).1 == prev.1.push(ev),
{
}

} // verus!
