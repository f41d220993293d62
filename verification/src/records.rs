//! Canonical record emission.
//!
//! Node identity is a pure function of `(object_type, qualified_name)`.
//! Nothing mutable is hashed (not the line span, not the file content), so
//! moving a declaration within its file preserves its id while updating its
//! span. That is what makes a consumer's skip-if-unchanged reindex sound.

use vstd::prelude::*;
use vstd::utf8::encode_utf8;
use sha2::Digest;

use crate::edges::{Edge, EdgeType, Evidence, Reason, spec_edge_type_name, spec_reason_name};
use crate::facts::{CodeFact, LineSpan, ObjectType, Visibility, spec_object_type_name};
use crate::naming::{ix_ref, spec_ix_ref};
use crate::order::{
    compare_text, lemma_text_lt_irreflexive, lemma_text_lt_total, lemma_text_lt_transitive, text_lt,
    Precedence,
};
use crate::typeenv::opt_string;

verus! {

/// A canonical graph node record.
#[derive(Debug, Clone, PartialEq, Eq)]
pub struct NodeRecord {
    /// Lowercase-hex SHA-256 of `(object_type, qualified_name)`.
    pub id: String,
    /// `ix://{org}/{repo}/{qualified-name}`.
    pub reference: String,
    pub object_type: String,
    pub name: String,
    pub data: NodeData,
}

/// The typed payload carried on a node record.
#[derive(Debug, Clone, PartialEq, Eq)]
pub struct NodeData {
    /// The concrete declaration form: `struct`, `class`, `method`, …
    pub kind: String,
    pub path: String,
    pub span: LineSpan,
    pub parent: Option<String>,
    /// How widely the declaration is visible. A consumer tiering an
    /// export-set change reads this to tell a new private helper, which
    /// invalidates nothing, from a new export.
    pub visibility: Visibility,
    /// Normalized parameter/return summary for a callable, absent for every
    /// declaration with no parameter list.
    pub signature: Option<String>,
}

/// A canonical graph edge record with its provenance.
#[derive(Debug, Clone, PartialEq, Eq)]
pub struct EdgeRecord {
    pub source_ref: String,
    pub edge_type: String,
    pub target_ref: String,
    /// The reason's confidence in hundredths (`100` is 1.0).
    pub confidence_percent: u32,
    pub reason: String,
    pub evidence: Vec<EvidenceRecord>,
    pub count: u32,
}

#[derive(Debug, Clone, PartialEq, Eq)]
pub struct EvidenceRecord {
    pub file: String,
    pub line: u32,
}

/// Lowercase hexadecimal SHA-256 digest of the bytes.
pub uninterp spec fn sha256_hex(bytes: Seq<u8>) -> Seq<char>;

/// A lowercase hexadecimal digit.
pub open spec fn is_lower_hex(c: char) -> bool {
    ('0' <= c && c <= '9') || ('a' <= c && c <= 'f')
}

/// `Sha256::digest` formatted with `{:x}`: the 32-byte digest as 64
/// lowercase hexadecimal digits.
#[verifier::external_body]
pub(crate) fn sha256_hex_of(bytes: &[u8]) -> (r: String)
    ensures
        r@ == sha256_hex(bytes@),
        r@.len() == 64,
        forall|i: int| 0 <= i < 64 ==> is_lower_hex(#[trigger] r@[i]),
{
    format!("{:x}", sha2::Sha256::digest(bytes))
}

/// The bytes a node's identity hashes: the object type's wire name, a
/// separator no name can contain, then the qualified name.
pub open spec fn identity_bytes(object_type: ObjectType, qualified_name: Seq<char>) -> Seq<u8> {
    encode_utf8(spec_object_type_name(object_type)) + seq![0x1fu8] + encode_utf8(qualified_name)
}

/// The stable record id of a node.
pub open spec fn spec_node_id(object_type: ObjectType, qualified_name: Seq<char>) -> Seq<char> {
    sha256_hex(identity_bytes(object_type, qualified_name))
}

fn push_bytes(out: &mut Vec<u8>, bytes: &[u8])
    ensures
        final(out)@ == old(out)@ + bytes@,
{
    let ghost start = out@;
    let mut i: usize = 0;
    while i < bytes.len()
        invariant
            i <= bytes.len(),
            out@ == start + bytes@.take(i as int),
        decreases bytes.len() - i,
    {
        out.push(bytes[i]);
        i = i + 1;
        assert(out@ =~= start + bytes@.take(i as int));
    }
    assert(bytes@.take(bytes.len() as int) == bytes@);
}

/// The stable record id for a node.
pub fn node_id(object_type: ObjectType, qualified_name: &str) -> (id: String)
    ensures
        id@ == spec_node_id(object_type, qualified_name@),
        id@.len() == 64,
        forall|i: int| 0 <= i < 64 ==> is_lower_hex(#[trigger] id@[i]),
{
    let mut input: Vec<u8> = Vec::new();
    push_bytes(&mut input, object_type.as_str().as_bytes());
    // A separator no name can contain, so `(a, bc)` and `(ab, c)` cannot
    // collide.
    input.push(0x1f);
    push_bytes(&mut input, qualified_name.as_bytes());
    assert(input@ =~= identity_bytes(object_type, qualified_name@));
    sha256_hex_of(input.as_slice())
}

fn copy_text(o: &Option<String>) -> (r: Option<String>)
    ensures
        opt_string(r) == opt_string(*o),
{
    match o {
        Some(s) => Some(s.clone()),
        None => None,
    }
}

/// The record a fact becomes.
pub open spec fn node_record_matches(r: NodeRecord, fact: CodeFact) -> bool {
    &&& r.id@ == spec_node_id(fact.object_type, fact.qualified_name@)
    &&& r.reference@ == spec_ix_ref(fact.qualified_name@)
    &&& r.object_type@ == spec_object_type_name(fact.object_type)
    &&& r.name@ == fact.qualified_name@
    &&& r.data.kind@ == fact.kind@
    &&& r.data.path@ == fact.path@
    &&& r.data.span == fact.span
    &&& opt_string(r.data.parent) == opt_string(fact.parent)
    &&& r.data.visibility == fact.visibility
    &&& opt_string(r.data.signature) == opt_string(fact.signature)
}

/// Convert a fact into its canonical node record.
pub fn node_record(fact: &CodeFact) -> (r: NodeRecord)
    ensures
        node_record_matches(r, *fact),
        r.id@.len() == 64,
        forall|i: int| 0 <= i < 64 ==> is_lower_hex(#[trigger] r.id@[i]),
{
    NodeRecord {
        id: node_id(fact.object_type, fact.qualified_name.as_str()),
        reference: ix_ref(fact.qualified_name.as_str()),
        object_type: fact.object_type.as_str().to_owned(),
        name: fact.qualified_name.clone(),
        data: NodeData {
            kind: fact.kind.to_owned(),
            path: fact.path.clone(),
            span: fact.span,
            parent: copy_text(&fact.parent),
            visibility: fact.visibility,
            signature: copy_text(&fact.signature),
        },
    }
}

/// The record an edge becomes.
pub open spec fn edge_record_matches(r: EdgeRecord, edge: Edge) -> bool {
    &&& r.source_ref@ == edge.source_ref@
    &&& r.edge_type@ == spec_edge_type_name(edge.edge_type)
    &&& r.target_ref@ == edge.target_ref@
    &&& r.confidence_percent == edge.confidence_percent
    &&& r.reason@ == spec_reason_name(edge.reason)
    &&& r.evidence.len() == edge.evidence.len()
    &&& forall|i: int|
        0 <= i < r.evidence.len() ==> (#[trigger] r.evidence[i]).file@ == edge.evidence[i].file@
            && r.evidence[i].line == edge.evidence[i].line
    &&& r.count == edge.count
}

/// Convert an edge into its canonical edge record.
pub fn edge_record(edge: &Edge) -> (r: EdgeRecord)
    ensures
        edge_record_matches(r, *edge),
{
    let mut evidence: Vec<EvidenceRecord> = Vec::new();
    let mut i: usize = 0;
    while i < edge.evidence.len()
        invariant
            i <= edge.evidence.len(),
            evidence.len() == i,
            forall|j: int|
                0 <= j < i ==> (#[trigger] evidence[j]).file@ == edge.evidence[j].file@
                    && evidence[j].line == edge.evidence[j].line,
        decreases edge.evidence.len() - i,
    {
        let e: &Evidence = &edge.evidence[i];
        evidence.push(EvidenceRecord { file: e.file.clone(), line: e.line });
        i = i + 1;
    }
    EdgeRecord {
        source_ref: edge.source_ref.clone(),
        edge_type: edge.edge_type.as_str().to_owned(),
        target_ref: edge.target_ref.clone(),
        confidence_percent: edge.confidence_percent,
        reason: edge.reason.as_str().to_owned(),
        evidence,
        count: edge.count,
    }
}

// ---------------------------------------------------------------------------
// Stable emission order
// ---------------------------------------------------------------------------

/// Node order: object type, then name.
pub open spec fn node_before(a: NodeRecord, b: NodeRecord) -> bool {
    text_lt(a.object_type@, b.object_type@) || (a.object_type@ == b.object_type@ && text_lt(
        a.name@,
        b.name@,
    ))
}

/// `e` placed after every record that does not sort after it: the step of
/// a stable insertion sort.
pub open spec fn insert_node(s: Seq<NodeRecord>, e: NodeRecord) -> Seq<NodeRecord>
    decreases s.len(),
{
    if s.len() == 0 {
        seq![e]
    } else if node_before(e, s[0]) {
        seq![e] + s
    } else {
        seq![s[0]] + insert_node(s.drop_first(), e)
    }
}

/// The records stably sorted by object type, then name: records with equal
/// keys keep their relative order.
pub open spec fn sorted_nodes(s: Seq<NodeRecord>) -> Seq<NodeRecord>
    decreases s.len(),
{
    if s.len() == 0 {
        Seq::empty()
    } else {
        insert_node(sorted_nodes(s.drop_last()), s.last())
    }
}

/// Edge order: source, edge type, then target.
pub open spec fn edge_before(a: EdgeRecord, b: EdgeRecord) -> bool {
    ||| text_lt(a.source_ref@, b.source_ref@)
    ||| a.source_ref@ == b.source_ref@ && text_lt(a.edge_type@, b.edge_type@)
    ||| a.source_ref@ == b.source_ref@ && a.edge_type@ == b.edge_type@ && text_lt(
        a.target_ref@,
        b.target_ref@,
    )
}

pub open spec fn insert_edge(s: Seq<EdgeRecord>, e: EdgeRecord) -> Seq<EdgeRecord>
    decreases s.len(),
{
    if s.len() == 0 {
        seq![e]
    } else if edge_before(e, s[0]) {
        seq![e] + s
    } else {
        seq![s[0]] + insert_edge(s.drop_first(), e)
    }
}

/// The records stably sorted by source, edge type, then target.
pub open spec fn sorted_edges(s: Seq<EdgeRecord>) -> Seq<EdgeRecord>
    decreases s.len(),
{
    if s.len() == 0 {
        Seq::empty()
    } else {
        insert_edge(sorted_edges(s.drop_last()), s.last())
    }
}

proof fn lemma_insert_node_at(s: Seq<NodeRecord>, e: NodeRecord, i: int)
    requires
        0 <= i <= s.len(),
        forall|j: int| 0 <= j < i ==> !node_before(e, #[trigger] s[j]),
        i < s.len() ==> node_before(e, s[i]),
    ensures
        insert_node(s, e) == s.insert(i, e),
    decreases s.len(),
{
    if s.len() == 0 {
        assert(s.insert(0, e) =~= seq![e]);
    } else if i == 0 {
        assert(s.insert(0, e) =~= seq![e] + s);
    } else {
        let t = s.drop_first();
        assert forall|j: int| 0 <= j < i - 1 implies !node_before(e, #[trigger] t[j]) by {
            assert(t[j] == s[j + 1]);
        }
        lemma_insert_node_at(t, e, i - 1);
        assert(seq![s[0]] + t.insert(i - 1, e) =~= s.insert(i, e));
    }
}

proof fn lemma_insert_edge_at(s: Seq<EdgeRecord>, e: EdgeRecord, i: int)
    requires
        0 <= i <= s.len(),
        forall|j: int| 0 <= j < i ==> !edge_before(e, #[trigger] s[j]),
        i < s.len() ==> edge_before(e, s[i]),
    ensures
        insert_edge(s, e) == s.insert(i, e),
    decreases s.len(),
{
    if s.len() == 0 {
        assert(s.insert(0, e) =~= seq![e]);
    } else if i == 0 {
        assert(s.insert(0, e) =~= seq![e] + s);
    } else {
        let t = s.drop_first();
        assert forall|j: int| 0 <= j < i - 1 implies !edge_before(e, #[trigger] t[j]) by {
            assert(t[j] == s[j + 1]);
        }
        lemma_insert_edge_at(t, e, i - 1);
        assert(seq![s[0]] + t.insert(i - 1, e) =~= s.insert(i, e));
    }
}

fn node_precedes(a: &NodeRecord, b: &NodeRecord) -> (r: bool)
    ensures
        r == node_before(*a, *b),
{
    match compare_text(a.object_type.as_str(), b.object_type.as_str()) {
        Precedence::Before => true,
        Precedence::After => false,
        Precedence::Same => compare_text(a.name.as_str(), b.name.as_str()) == Precedence::Before,
    }
}

fn edge_precedes(a: &EdgeRecord, b: &EdgeRecord) -> (r: bool)
    ensures
        r == edge_before(*a, *b),
{
    match compare_text(a.source_ref.as_str(), b.source_ref.as_str()) {
        Precedence::Before => true,
        Precedence::After => false,
        Precedence::Same => match compare_text(a.edge_type.as_str(), b.edge_type.as_str()) {
            Precedence::Before => true,
            Precedence::After => false,
            Precedence::Same => compare_text(a.target_ref.as_str(), b.target_ref.as_str())
                == Precedence::Before,
        },
    }
}

/// Sort node records into the stable emission order: object type, then name.
pub fn sort_nodes(nodes: &mut Vec<NodeRecord>)
    ensures
        final(nodes)@ == sorted_nodes(old(nodes)@),
{
    let ghost all = nodes@;
    let total = nodes.len();
    let mut sorted: Vec<NodeRecord> = Vec::new();
    let mut n: usize = 0;
    assert(all.take(0) =~= Seq::<NodeRecord>::empty());
    while nodes.len() > 0
        invariant
            n + nodes.len() == all.len(),
            all.len() == total,
            nodes@ == all.skip(n as int),
            sorted@ == sorted_nodes(all.take(n as int)),
        decreases nodes.len(),
    {
        let e = nodes.remove(0);
        proof {
            assert(e == all[n as int]);
            assert(all.skip(n + 1) =~= all.skip(n as int).drop_first());
            assert(all.take(n + 1).drop_last() == all.take(n as int));
            assert(all.take(n + 1).last() == e);
        }
        let mut i: usize = 0;
        while i < sorted.len() && !node_precedes(&e, &sorted[i])
            invariant
                i <= sorted.len(),
                forall|j: int| 0 <= j < i ==> !node_before(e, #[trigger] sorted@[j]),
            decreases sorted.len() - i,
        {
            i = i + 1;
        }
        proof {
            lemma_insert_node_at(sorted@, e, i as int);
        }
        sorted.insert(i, e);
        n = n + 1;
    }
    assert(all.take(n as int) == all);
    *nodes = sorted;
}

/// Sort edge records into the stable emission order: source, type, then
/// target.
pub fn sort_edges(edges: &mut Vec<EdgeRecord>)
    ensures
        final(edges)@ == sorted_edges(old(edges)@),
{
    let ghost all = edges@;
    let total = edges.len();
    let mut sorted: Vec<EdgeRecord> = Vec::new();
    let mut n: usize = 0;
    assert(all.take(0) =~= Seq::<EdgeRecord>::empty());
    while edges.len() > 0
        invariant
            n + edges.len() == all.len(),
            all.len() == total,
            edges@ == all.skip(n as int),
            sorted@ == sorted_edges(all.take(n as int)),
        decreases edges.len(),
    {
        let e = edges.remove(0);
        proof {
            assert(e == all[n as int]);
            assert(all.skip(n + 1) =~= all.skip(n as int).drop_first());
            assert(all.take(n + 1).drop_last() == all.take(n as int));
            assert(all.take(n + 1).last() == e);
        }
        let mut i: usize = 0;
        while i < sorted.len() && !edge_precedes(&e, &sorted[i])
            invariant
                i <= sorted.len(),
                forall|j: int| 0 <= j < i ==> !edge_before(e, #[trigger] sorted@[j]),
            decreases sorted.len() - i,
        {
            i = i + 1;
        }
        proof {
            lemma_insert_edge_at(sorted@, e, i as int);
        }
        sorted.insert(i, e);
        n = n + 1;
    }
    assert(all.take(n as int) == all);
    *edges = sorted;
}

// ---------------------------------------------------------------------------
// What the records guarantee
// ---------------------------------------------------------------------------

/// A node's id depends on its object type and qualified name alone: moving a
/// declaration, or changing anything else about it, keeps its id.
pub proof fn law_identity_depends_only_on_type_and_name(
    f1: CodeFact,
    r1: NodeRecord,
    f2: CodeFact,
    r2: NodeRecord,
)
    requires
        node_record_matches(r1, f1),
        node_record_matches(r2, f2),
        f1.object_type == f2.object_type,
        f1.qualified_name@ == f2.qualified_name@,
    ensures
        r1.id@ == r2.id@,
{
}

proof fn lemma_type_name_bytes(t: ObjectType)
    ensures
        encode_utf8(spec_object_type_name(t)).len() == spec_object_type_name(t).len(),
        spec_object_type_name(t).len() >= 9,
        forall|i: int|
            0 <= i < spec_object_type_name(t).len() ==> #[trigger] encode_utf8(spec_object_type_name(t))[i]
                == spec_object_type_name(t)[i] as u8 && spec_object_type_name(t)[i] as u8 != 0x1fu8,
{
    reveal_strlit("code_file");
    reveal_strlit("code_module");
    reveal_strlit("code_function");
    reveal_strlit("code_type");
    let name = spec_object_type_name(t);
    assert(vstd::utf8::is_ascii_chars(name));
    vstd::utf8::is_ascii_chars_encode_utf8(name);
}

/// Distinct (object type, qualified name) pairs hash distinct bytes: the
/// separator keeps the type from bleeding into the name, so no two
/// declarations share an identity input.
pub proof fn law_identity_separates_type_from_name(
    t1: ObjectType,
    n1: Seq<char>,
    t2: ObjectType,
    n2: Seq<char>,
)
    requires
        t1 != t2 || n1 != n2,
    ensures
        identity_bytes(t1, n1) != identity_bytes(t2, n2),
{
    reveal_strlit("code_file");
    reveal_strlit("code_module");
    reveal_strlit("code_function");
    reveal_strlit("code_type");
    lemma_type_name_bytes(t1);
    lemma_type_name_bytes(t2);
    let a = spec_object_type_name(t1);
    let b = spec_object_type_name(t2);
    let x = identity_bytes(t1, n1);
    let y = identity_bytes(t2, n2);
    if x == y {
        if t1 == t2 {
            assert(x.skip(a.len() as int + 1) =~= encode_utf8(n1));
            assert(y.skip(a.len() as int + 1) =~= encode_utf8(n2));
            vstd::utf8::encode_utf8_decode_utf8(n1);
            vstd::utf8::encode_utf8_decode_utf8(n2);
        } else if a.len() < b.len() {
            assert(x[a.len() as int] == 0x1fu8);
            assert(y[a.len() as int] == encode_utf8(b)[a.len() as int]);
        } else if b.len() < a.len() {
            assert(y[b.len() as int] == 0x1fu8);
            assert(x[b.len() as int] == encode_utf8(a)[b.len() as int]);
        } else {
            assert(x[5] == encode_utf8(a)[5]);
            assert(y[5] == encode_utf8(b)[5]);
        }
    }
}

/// The step of the stable sort inserts at the first position whose record
/// sorts after the new one.
pub open spec fn node_insert_position(s: Seq<NodeRecord>, e: NodeRecord) -> int
    decreases s.len(),
{
    if s.len() == 0 || node_before(e, s[0]) {
        0
    } else {
        1 + node_insert_position(s.drop_first(), e)
    }
}

proof fn lemma_node_insert_position(s: Seq<NodeRecord>, e: NodeRecord)
    ensures
        0 <= node_insert_position(s, e) <= s.len(),
        forall|j: int| 0 <= j < node_insert_position(s, e) ==> !node_before(e, #[trigger] s[j]),
        node_insert_position(s, e) < s.len() ==> node_before(e, s[node_insert_position(s, e)]),
        insert_node(s, e) == s.insert(node_insert_position(s, e), e),
    decreases s.len(),
{
    if s.len() > 0 && !node_before(e, s[0]) {
        let t = s.drop_first();
        lemma_node_insert_position(t, e);
        assert forall|j: int| 0 <= j < node_insert_position(s, e) implies !node_before(e, #[trigger] s[j]) by {
            if j > 0 {
                assert(s[j] == t[j - 1]);
            }
        }
    }
    lemma_insert_node_at(s, e, node_insert_position(s, e));
}

/// The records are in emission order: no record sorts before one that
/// precedes it.
pub open spec fn nodes_in_order(s: Seq<NodeRecord>) -> bool {
    forall|i: int, j: int| 0 <= i < j < s.len() ==> !node_before(#[trigger] s[j], #[trigger] s[i])
}

proof fn lemma_node_before_order(a: NodeRecord, b: NodeRecord, c: NodeRecord)
    ensures
        !node_before(a, a),
        node_before(a, b) && node_before(b, c) ==> node_before(a, c),
{
    lemma_text_lt_irreflexive(a.object_type@);
    lemma_text_lt_irreflexive(a.name@);
    if node_before(a, b) && node_before(b, c) {
        if text_lt(a.object_type@, b.object_type@) && text_lt(b.object_type@, c.object_type@) {
            lemma_text_lt_transitive(a.object_type@, b.object_type@, c.object_type@);
        }
        if text_lt(a.name@, b.name@) && text_lt(b.name@, c.name@) {
            lemma_text_lt_transitive(a.name@, b.name@, c.name@);
        }
    }
}

/// Sorting nodes yields a permutation of its input in emission order.
pub proof fn law_sorted_nodes_are_ordered_permutations(s: Seq<NodeRecord>)
    ensures
        nodes_in_order(sorted_nodes(s)),
        sorted_nodes(s).to_multiset() == s.to_multiset(),
    decreases s.len(),
{
    broadcast use vstd::seq_lib::group_to_multiset_ensures;

    if s.len() > 0 {
        let p = sorted_nodes(s.drop_last());
        let e = s.last();
        law_sorted_nodes_are_ordered_permutations(s.drop_last());
        lemma_node_insert_position(p, e);
        let k = node_insert_position(p, e);
        let r = p.insert(k, e);
        assert forall|i: int, j: int| 0 <= i < j < r.len() implies !node_before(#[trigger] r[j], #[trigger] r[i]) by {
            if j < k {
                assert(r[i] == p[i] && r[j] == p[j]);
            } else if j == k {
                assert(r[i] == p[i]);
            } else if i < k {
                assert(r[i] == p[i] && r[j] == p[j - 1]);
            } else if i == k {
                assert(r[j] == p[j - 1]);
                lemma_node_before_order(p[j - 1], e, p[k]);
                if j - 1 > k {
                    assert(!node_before(p[j - 1], p[k]));
                }
            } else {
                assert(r[i] == p[i - 1] && r[j] == p[j - 1]);
            }
        }
        assert(s.drop_last().push(e) == s);
    }
}

/// The step of the stable sort inserts at the first position whose record
/// sorts after the new one.
pub open spec fn edge_insert_position(s: Seq<EdgeRecord>, e: EdgeRecord) -> int
    decreases s.len(),
{
    if s.len() == 0 || edge_before(e, s[0]) {
        0
    } else {
        1 + edge_insert_position(s.drop_first(), e)
    }
}

proof fn lemma_edge_insert_position(s: Seq<EdgeRecord>, e: EdgeRecord)
    ensures
        0 <= edge_insert_position(s, e) <= s.len(),
        forall|j: int| 0 <= j < edge_insert_position(s, e) ==> !edge_before(e, #[trigger] s[j]),
        edge_insert_position(s, e) < s.len() ==> edge_before(e, s[edge_insert_position(s, e)]),
        insert_edge(s, e) == s.insert(edge_insert_position(s, e), e),
    decreases s.len(),
{
    if s.len() > 0 && !edge_before(e, s[0]) {
        let t = s.drop_first();
        lemma_edge_insert_position(t, e);
        assert forall|j: int| 0 <= j < edge_insert_position(s, e) implies !edge_before(e, #[trigger] s[j]) by {
            if j > 0 {
                assert(s[j] == t[j - 1]);
            }
        }
    }
    lemma_insert_edge_at(s, e, edge_insert_position(s, e));
}

/// The records are in emission order: no record sorts before one that
/// precedes it.
pub open spec fn edges_in_order(s: Seq<EdgeRecord>) -> bool {
    forall|i: int, j: int| 0 <= i < j < s.len() ==> !edge_before(#[trigger] s[j], #[trigger] s[i])
}

proof fn lemma_edge_before_order(a: EdgeRecord, b: EdgeRecord, c: EdgeRecord)
    ensures
        !edge_before(a, a),
        edge_before(a, b) && edge_before(b, c) ==> edge_before(a, c),
{
    lemma_text_lt_irreflexive(a.source_ref@);
    lemma_text_lt_irreflexive(a.edge_type@);
    lemma_text_lt_irreflexive(a.target_ref@);
    if edge_before(a, b) && edge_before(b, c) {
        if text_lt(a.source_ref@, b.source_ref@) && text_lt(b.source_ref@, c.source_ref@) {
            lemma_text_lt_transitive(a.source_ref@, b.source_ref@, c.source_ref@);
        }
        if text_lt(a.edge_type@, b.edge_type@) && text_lt(b.edge_type@, c.edge_type@) {
            lemma_text_lt_transitive(a.edge_type@, b.edge_type@, c.edge_type@);
        }
        if text_lt(a.target_ref@, b.target_ref@) && text_lt(b.target_ref@, c.target_ref@) {
            lemma_text_lt_transitive(a.target_ref@, b.target_ref@, c.target_ref@);
        }
    }
}

/// Sorting edges yields a permutation of its input in emission order.
pub proof fn law_sorted_edges_are_ordered_permutations(s: Seq<EdgeRecord>)
    ensures
        edges_in_order(sorted_edges(s)),
        sorted_edges(s).to_multiset() == s.to_multiset(),
    decreases s.len(),
{
    broadcast use vstd::seq_lib::group_to_multiset_ensures;

    if s.len() > 0 {
        let p = sorted_edges(s.drop_last());
        let e = s.last();
        law_sorted_edges_are_ordered_permutations(s.drop_last());
        lemma_edge_insert_position(p, e);
        let k = edge_insert_position(p, e);
        let r = p.insert(k, e);
        assert forall|i: int, j: int| 0 <= i < j < r.len() implies !edge_before(#[trigger] r[j], #[trigger] r[i]) by {
            if j < k {
                assert(r[i] == p[i] && r[j] == p[j]);
            } else if j == k {
                assert(r[i] == p[i]);
            } else if i < k {
                assert(r[i] == p[i] && r[j] == p[j - 1]);
            } else if i == k {
                assert(r[j] == p[j - 1]);
                lemma_edge_before_order(p[j - 1], e, p[k]);
                if j - 1 > k {
                    assert(!edge_before(p[j - 1], p[k]));
                }
            } else {
                assert(r[i] == p[i - 1] && r[j] == p[j - 1]);
            }
        }
        assert(s.drop_last().push(e) == s);
    }
}

/// Every edge type this library emits.
pub const EDGE_TYPES: [EdgeType; 6] = [
    EdgeType::Contains,
    EdgeType::Imports,
    EdgeType::Calls,
    EdgeType::ImplementsTrait,
    EdgeType::Extends,
    EdgeType::References,
];

/// Every provenance reason this library emits.
pub const REASONS: [Reason; 6] = [
    Reason::Syntactic,
    Reason::PathResolved,
    Reason::NameMatch,
    Reason::ImportScoped,
    Reason::ReceiverTyped,
    Reason::ExplicitMention,
];

/// The triple an edge record is deduplicated on: source, edge type, target.
pub open spec fn edge_triple(e: EdgeRecord) -> (Seq<char>, Seq<char>, Seq<char>) {
    (e.source_ref@, e.edge_type@, e.target_ref@)
}

/// No two records share a triple.
pub open spec fn distinct_triples(s: Seq<EdgeRecord>) -> bool {
    forall|i: int, j: int| 0 <= i < j < s.len() ==> edge_triple(#[trigger] s[i]) != edge_triple(#[trigger] s[j])
}

/// No record leads from a node to itself.
pub open spec fn no_self_edges(s: Seq<EdgeRecord>) -> bool {
    forall|i: int| 0 <= i < s.len() ==> (#[trigger] s[i]).source_ref@ != s[i].target_ref@
}

/// Sorting edge records keeps them one per triple and free of self-edges.
pub proof fn law_sorting_keeps_edges_deduplicated(s: Seq<EdgeRecord>)
    requires
        distinct_triples(s),
        no_self_edges(s),
    ensures
        distinct_triples(sorted_edges(s)),
        no_self_edges(sorted_edges(s)),
    decreases s.len(),
{
    broadcast use vstd::seq_lib::group_to_multiset_ensures;

    if s.len() > 0 {
        let t = s.drop_last();
        let e = s.last();
        assert forall|i: int, j: int| 0 <= i < j < t.len() implies edge_triple(#[trigger] t[i])
            != edge_triple(#[trigger] t[j]) by {
            assert(t[i] == s[i] && t[j] == s[j]);
        }
        assert forall|i: int| 0 <= i < t.len() implies (#[trigger] t[i]).source_ref@ != t[i].target_ref@ by {
            assert(t[i] == s[i]);
        }
        law_sorting_keeps_edges_deduplicated(t);
        law_sorted_edges_are_ordered_permutations(t);
        let p = sorted_edges(t);
        lemma_edge_insert_position(p, e);
        let k = edge_insert_position(p, e);
        let r = p.insert(k, e);
        assert(sorted_edges(s) == r);
        assert forall|m: int| 0 <= m < p.len() implies edge_triple(#[trigger] p[m]) != edge_triple(e)
            && p[m].source_ref@ != p[m].target_ref@ by {
            assert(p.to_multiset().count(p[m]) > 0);
            assert(t.contains(p[m]));
            let q = choose|q: int| 0 <= q < t.len() && t[q] == p[m];
            assert(s[q] == p[m]);
            assert(edge_triple(s[q]) != edge_triple(s[s.len() - 1]));
        }
        assert forall|i: int, j: int| 0 <= i < j < r.len() implies edge_triple(#[trigger] r[i])
            != edge_triple(#[trigger] r[j]) by {
            if j < k {
                assert(r[i] == p[i] && r[j] == p[j]);
            } else if j == k {
                assert(r[i] == p[i]);
            } else if i < k {
                assert(r[i] == p[i] && r[j] == p[j - 1]);
            } else if i == k {
                assert(r[j] == p[j - 1]);
            } else {
                assert(r[i] == p[i - 1] && r[j] == p[j - 1]);
            }
        }
        assert forall|i: int| 0 <= i < r.len() implies (#[trigger] r[i]).source_ref@ != r[i].target_ref@ by {
            if i < k {
                assert(r[i] == p[i]);
            } else if i > k {
                assert(r[i] == p[i - 1]);
            }
        }
    }
}

/// Different edge types have different wire names.
pub proof fn lemma_edge_type_names_distinct(a: EdgeType, b: EdgeType)
    requires
        a != b,
    ensures
        spec_edge_type_name(a) != spec_edge_type_name(b),
{
    reveal_strlit("contains");
    reveal_strlit("imports");
    reveal_strlit("calls");
    reveal_strlit("implements_trait");
    reveal_strlit("extends");
    reveal_strlit("references");
    let na = spec_edge_type_name(a);
    let nb = spec_edge_type_name(b);
    if na == nb {
        assert(na.len() == nb.len());
        assert(na[0] == nb[0]);
        assert(na[2] == nb[2]);
    }
}

} // verus!
