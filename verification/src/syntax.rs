//! The syntax tree the grammar yields, held as plain values.
//!
//! The tree-sitter tree is read once, in preorder, into a [`SyntaxTree`]: an
//! arena of nodes that know their kind, byte range, position, error flags,
//! field name, parent and children. Everything downstream reads the arena.

use vstd::prelude::*;
use vstd::utf8::{decode_utf8, encode_utf8, is_char_boundary};

use crate::lang::Language;
use crate::order::same_text;
use crate::table::opt_text;

verus! {

#[verifier::external_type_specification]
#[verifier::external_body]
pub struct ExTree(tree_sitter::Tree);

#[verifier::external_type_specification]
#[verifier::external_body]
pub struct ExTreeCursor<'a>(tree_sitter::TreeCursor<'a>);

/// One node of a syntax tree.
#[derive(Debug)]
pub struct SyntaxNode {
    /// The grammar's node kind, e.g. `function_item`.
    pub kind: String,
    /// The field name this node fills in its parent, if any.
    pub field: Option<String>,
    pub start_byte: usize,
    pub end_byte: usize,
    /// Zero-based row and column of the first byte.
    pub start_row: usize,
    pub start_column: usize,
    /// Zero-based row of the end.
    pub end_row: usize,
    pub is_error: bool,
    pub is_missing: bool,
    /// Whether the node or any node beneath it is an error or missing node.
    pub has_error: bool,
    pub is_named: bool,
    /// The parent's position in the arena; `None` for the root.
    pub parent: Option<usize>,
    /// The children's positions, in source order.
    pub children: Vec<usize>,
}

/// A syntax tree as an arena of nodes in preorder; the root is at position 0.
#[derive(Debug)]
pub struct SyntaxTree {
    pub nodes: Vec<SyntaxNode>,
}

impl SyntaxTree {
    /// The arena is a tree: the root comes first and has no parent, every
    /// other node's parent precedes it, and each node's children are exactly
    /// the later nodes naming it as parent, in increasing order.
    pub open spec fn wf(&self) -> bool {
        &&& self.nodes.len() >= 1
        &&& self.nodes[0].parent.is_none()
        &&& forall|k: int|
            0 < k < self.nodes.len() ==> ((#[trigger] self.nodes[k]).parent matches Some(p) && p < k)
        &&& forall|p: int, j: int|
            0 <= p < self.nodes.len() && 0 <= j < self.nodes[p].children.len() ==> p < #[trigger] self.nodes[p].children[j]
                < self.nodes.len() && self.nodes[self.nodes[p].children[j] as int].parent == Some(
                p as usize,
            )
        &&& forall|p: int, i: int, j: int|
            0 <= p < self.nodes.len() && 0 <= i < j < self.nodes[p].children.len() ==> #[trigger] self.nodes[p].children[i]
                < #[trigger] self.nodes[p].children[j]
    }
}

/// The text of a byte range of `content`, when the range is in order, in
/// bounds and on character boundaries.
pub open spec fn range_text(content: Seq<char>, start: int, end: int) -> Option<Seq<char>> {
    let bytes = encode_utf8(content);
    if start <= end <= bytes.len() && is_char_boundary(bytes, start) && is_char_boundary(bytes, end) {
        Some(decode_utf8(bytes.subrange(start, end)))
    } else {
        None
    }
}

/// `str::get` with a byte range: the text of bytes `start..end`, or `None`
/// when the range is out of order, out of bounds, or splits a character.
#[verifier::external_body]
fn text_between(s: &str, start: usize, end: usize) -> (r: Option<&str>)
    ensures
        r.is_some() <==> (start <= end <= encode_utf8(s@).len() && is_char_boundary(
            encode_utf8(s@),
            start as int,
        ) && is_char_boundary(encode_utf8(s@), end as int)),
        r matches Some(t) ==> encode_utf8(t@) == encode_utf8(s@).subrange(start as int, end as int),
{
    s.get(start..end)
}

/// The text of a byte range of `content`.
pub fn range_text_of(content: &str, start: usize, end: usize) -> (r: Option<&str>)
    ensures
        opt_text(r) == range_text(content@, start as int, end as int),
{
    let r = text_between(content, start, end);
    proof {
        if r.is_some() {
            vstd::utf8::encode_utf8_decode_utf8(r.unwrap()@);
        }
    }
    r
}

/// What the grammar says of one node: kind, byte range, start row and
/// column, end row, and whether it is an error, missing, holds an error
/// below it, or is named.
pub type NodeView = (Seq<char>, usize, usize, usize, usize, usize, bool, bool, bool, bool);

/// A node as the preorder readout yields it: what it says of itself, its
/// depth below the root, and the field it fills in its parent.
pub type NodeEntry = (NodeView, u32, Option<Seq<char>>);

/// What a syntax node says of itself.
pub open spec fn node_view(n: SyntaxNode) -> NodeView {
    (n.kind@, n.start_byte, n.end_byte, n.start_row, n.start_column, n.end_row, n.is_error, n.is_missing, n.has_error, n.is_named)
}

/// The nodes of the tree the language's grammar gives `content`, in
/// preorder from the root; none when the grammar gives no tree.
pub uninterp spec fn grammar_nodes(content: Seq<char>, language: Language) -> Option<Seq<NodeEntry>>;

/// The nodes of a tree-sitter tree, in preorder from the root.
pub uninterp spec fn tree_nodes(tree: tree_sitter::Tree) -> Seq<NodeEntry>;

/// The nodes of the tree a cursor walks, in preorder from its root.
pub uninterp spec fn cursor_nodes(cursor: tree_sitter::TreeCursor) -> Seq<NodeEntry>;

/// The preorder position of a cursor's current node.
pub uninterp spec fn cursor_position(cursor: tree_sitter::TreeCursor) -> int;

/// Parses with the Rust grammar (`tree_sitter_rust::LANGUAGE`):
/// `Parser::set_language` then `Parser::parse`, with no timeout, no
/// cancellation flag and no earlier tree, so the tree, or its absence,
/// depends on the content alone; `grammar_nodes` names it.
#[verifier::external_body]
fn parse_rust(content: &str) -> (r: Option<tree_sitter::Tree>)
    ensures
        match r {
            Some(t) => grammar_nodes(content@, Language::Rust) == Some(tree_nodes(t)),
            None => grammar_nodes(content@, Language::Rust) is None,
        },
{
    let mut parser = tree_sitter::Parser::new();
    parser.set_language(&tree_sitter_rust::LANGUAGE.into()).ok()?;
    parser.parse(content, None)
}

/// Parses with the TypeScript grammar
/// (`tree_sitter_typescript::LANGUAGE_TYPESCRIPT`), as [`parse_rust`] does.
#[verifier::external_body]
fn parse_typescript(content: &str) -> (r: Option<tree_sitter::Tree>)
    ensures
        match r {
            Some(t) => grammar_nodes(content@, Language::TypeScript) == Some(tree_nodes(t)),
            None => grammar_nodes(content@, Language::TypeScript) is None,
        },
{
    let mut parser = tree_sitter::Parser::new();
    parser.set_language(&tree_sitter_typescript::LANGUAGE_TYPESCRIPT.into()).ok()?;
    parser.parse(content, None)
}

/// Parses with the TSX grammar (`tree_sitter_typescript::LANGUAGE_TSX`), as
/// [`parse_rust`] does.
#[verifier::external_body]
fn parse_tsx(content: &str) -> (r: Option<tree_sitter::Tree>)
    ensures
        match r {
            Some(t) => grammar_nodes(content@, Language::Tsx) == Some(tree_nodes(t)),
            None => grammar_nodes(content@, Language::Tsx) is None,
        },
{
    let mut parser = tree_sitter::Parser::new();
    parser.set_language(&tree_sitter_typescript::LANGUAGE_TSX.into()).ok()?;
    parser.parse(content, None)
}

/// Parses with the Python grammar (`tree_sitter_python::LANGUAGE`), as
/// [`parse_rust`] does.
#[verifier::external_body]
fn parse_python(content: &str) -> (r: Option<tree_sitter::Tree>)
    ensures
        match r {
            Some(t) => grammar_nodes(content@, Language::Python) == Some(tree_nodes(t)),
            None => grammar_nodes(content@, Language::Python) is None,
        },
{
    let mut parser = tree_sitter::Parser::new();
    parser.set_language(&tree_sitter_python::LANGUAGE.into()).ok()?;
    parser.parse(content, None)
}

/// Parses `content` with the language's grammar.
pub fn parse_source(content: &str, language: Language) -> (r: Option<tree_sitter::Tree>)
    ensures
        match r {
            Some(t) => grammar_nodes(content@, language) == Some(tree_nodes(t)),
            None => grammar_nodes(content@, language) is None,
        },
{
    match language {
        Language::Rust => parse_rust(content),
        Language::TypeScript => parse_typescript(content),
        Language::Tsx => parse_tsx(content),
        Language::Python => parse_python(content),
    }
}

/// `Node::descendant_count` of the root: the number of nodes in the tree,
/// the root among them.
#[verifier::external_body]
fn node_count(tree: &tree_sitter::Tree) -> (n: usize)
    ensures
        n == tree_nodes(*tree).len(),
{
    tree.root_node().descendant_count()
}

/// `Tree::walk`: a cursor on the root.
#[verifier::external_body]
fn cursor_of(tree: &tree_sitter::Tree) -> (c: tree_sitter::TreeCursor<'_>)
    ensures
        cursor_nodes(c) == tree_nodes(*tree),
        cursor_position(c) == 0,
{
    tree.walk()
}

/// `TreeCursor::goto_descendant`: moves to the node at a preorder position,
/// counted from the cursor's root, which is position 0.
#[verifier::external_body]
fn goto_node(cursor: &mut tree_sitter::TreeCursor<'_>, index: usize)
    requires
        index < cursor_nodes(*old(cursor)).len(),
    ensures
        cursor_nodes(*final(cursor)) == cursor_nodes(*old(cursor)),
        cursor_position(*final(cursor)) == index,
{
    cursor.goto_descendant(index)
}

/// `TreeCursor::depth`: how far below the cursor's root the current node sits.
#[verifier::external_body]
fn cursor_depth(cursor: &tree_sitter::TreeCursor<'_>) -> (d: u32)
    requires
        0 <= cursor_position(*cursor) < cursor_nodes(*cursor).len(),
    ensures
        d == cursor_nodes(*cursor)[cursor_position(*cursor)].1,
{
    cursor.depth()
}

/// `TreeCursor::field_name`: the field the current node fills in its parent.
#[verifier::external_body]
fn cursor_field(cursor: &tree_sitter::TreeCursor<'_>) -> (f: Option<&'static str>)
    requires
        0 <= cursor_position(*cursor) < cursor_nodes(*cursor).len(),
    ensures
        opt_text(f) == cursor_nodes(*cursor)[cursor_position(*cursor)].2,
{
    cursor.field_name()
}

/// The current node's kind, byte range, position and error flags
/// (`TreeCursor::node` and the `Node` getters), with no field, parent or
/// children.
#[verifier::external_body]
fn cursor_node(cursor: &tree_sitter::TreeCursor<'_>) -> (n: SyntaxNode)
    requires
        0 <= cursor_position(*cursor) < cursor_nodes(*cursor).len(),
    ensures
        node_view(n) == cursor_nodes(*cursor)[cursor_position(*cursor)].0,
        n.field is None,
        n.parent is None,
        n.children@.len() == 0,
{
    let node = cursor.node();
    let (start, end) = (node.start_position(), node.end_position());
    SyntaxNode {
        kind: node.kind().to_owned(),
        field: None,
        start_byte: node.start_byte(),
        end_byte: node.end_byte(),
        start_row: start.row, start_column: start.column, end_row: end.row,
        is_error: node.is_error(), is_missing: node.is_missing(),
        has_error: node.has_error(), is_named: node.is_named(),
        parent: None,
        children: Vec::new(),
    }
}

/// The depths describe a tree read in preorder: the root is at depth 0 and
/// each later node sits at least one level below the root and at most one
/// level below the node before it.
pub open spec fn depths_valid(es: Seq<NodeEntry>) -> bool {
    &&& es.len() > 0
    &&& es[0].1 == 0
    &&& forall|k: int| 0 < k < es.len() ==> 1 <= #[trigger] es[k].1 <= es[k - 1].1 + 1
}

/// The last node before position `k` at depth `d`; -1 when there is none.
pub open spec fn latest_at(es: Seq<NodeEntry>, k: int, d: int) -> int
    decreases k,
{
    if k <= 0 {
        -1
    } else if es[k - 1].1 == d {
        k - 1
    } else {
        latest_at(es, k - 1, d)
    }
}

/// The parent of the node at position `k`: the last node before it one
/// level up.
pub open spec fn parent_at(es: Seq<NodeEntry>, k: int) -> int {
    latest_at(es, k, es[k].1 - 1)
}

/// The children of node `q` among the nodes before position `m`, in order.
pub open spec fn children_before(es: Seq<NodeEntry>, q: int, m: int) -> Seq<usize>
    decreases m,
{
    if m <= 1 {
        Seq::empty()
    } else if parent_at(es, m - 1) == q {
        children_before(es, q, m - 1).push((m - 1) as usize)
    } else {
        children_before(es, q, m - 1)
    }
}

/// The first `m` nodes of an arena are the first `m` preorder entries:
/// each says what its entry says and fills its entry's field, the root has
/// no parent, every other node's parent is the last node before it one
/// level up, and each node's children are the nodes so placed below it.
pub open spec fn arena_prefix(nodes: Seq<SyntaxNode>, es: Seq<NodeEntry>, m: int) -> bool {
    &&& nodes.len() == m
    &&& forall|k: int| 0 <= k < m ==> node_view(#[trigger] nodes[k]) == es[k].0 && opt_chars_of(nodes[k].field)
        == es[k].2
    &&& m > 0 ==> nodes[0].parent is None
    &&& forall|k: int| 0 < k < m ==> (#[trigger] nodes[k]).parent == Some(parent_at(es, k) as usize)
    &&& forall|q: int| 0 <= q < m ==> (#[trigger] nodes[q]).children@ == children_before(es, q, m)
}

/// The arena read from the preorder entries: exactly those nodes, placed by
/// their depths.
pub open spec fn arena_of(t: SyntaxTree, es: Seq<NodeEntry>) -> bool {
    arena_prefix(t.nodes@, es, es.len() as int)
}

/// An optional string's characters.
pub open spec fn opt_chars_of(o: Option<String>) -> Option<Seq<char>> {
    match o {
        Some(x) => Some(x@),
        None => None,
    }
}

/// Parse `content` with the language's grammar and read the tree into an
/// arena. `None` when the grammar produced no tree, or one whose preorder
/// positions and depths do not describe a tree.
pub fn syntax_tree(content: &str, language: Language) -> (r: Option<SyntaxTree>)
    ensures
        r matches Some(t) ==> t.wf(),
        match grammar_nodes(content@, language) {
            None => r is None,
            Some(es) => (r is Some <==> depths_valid(es)) && (r matches Some(t) ==> arena_of(t, es)),
        },
{
    let tree = match parse_source(content, language) {
        Some(t) => t,
        None => {
            return None;
        },
    };
    let ghost es = tree_nodes(tree);
    let count = node_count(&tree);
    if count == 0 {
        return None;
    }
    let mut cursor = cursor_of(&tree);
    let mut nodes: Vec<SyntaxNode> = Vec::new();
    // path[d] is the latest node seen at depth d.
    let mut path: Vec<usize> = Vec::new();
    let mut i: usize = 0;
    while i < count
        invariant
            grammar_nodes(content@, language) == Some(es),
            count == es.len(),
            cursor_nodes(cursor) == es,
            i <= count,
            nodes.len() == i,
            arena_prefix(nodes@, es, i as int),
            i > 0 ==> es[0].1 == 0,
            forall|k: int| 0 < k < i ==> 1 <= #[trigger] es[k].1 <= es[k - 1].1 + 1,
            i == 0 ==> path.len() == 0,
            i > 0 ==> path.len() == es[i - 1].1 + 1 && path[0] == 0,
            forall|d: int| 0 <= d < path.len() ==> #[trigger] path[d] == latest_at(es, i as int, d) && path[d] < nodes.len(),
            i > 0 ==> (SyntaxTree { nodes }).wf(),
        decreases count - i,
    {
        goto_node(&mut cursor, i);
        let depth = cursor_depth(&cursor) as usize;
        let mut node = cursor_node(&cursor);
        node.field = match cursor_field(&cursor) {
            Some(f) => Some(f.to_owned()),
            None => None,
        };
        node.children = Vec::new();
        let ghost before = nodes@;
        if i == 0 {
            if depth != 0 {
                proof {
                    assert(!depths_valid(es));
                }
                return None;
            }
            node.parent = None;
            nodes.push(node);
            path.push(0);
            proof {
                let t = SyntaxTree { nodes };
                assert(t.nodes.len() == 1);
                assert(children_before(es, 0, 1) == Seq::<usize>::empty());
                assert(nodes@[0].children@ =~= Seq::<usize>::empty());
            }
        } else {
            if depth == 0 || depth > path.len() {
                proof {
                    assert(!depths_valid(es)) by {
                        if depths_valid(es) {
                            assert(1 <= es[i as int].1 <= es[i - 1].1 + 1);
                        }
                    }
                }
                return None;
            }
            let p = path[depth - 1];
            proof {
                lemma_latest_before(es, i as int, es[i as int].1 - 1);
                assert(p as int == parent_at(es, i as int));
            }
            node.parent = Some(p);
            nodes.push(node);
            let mut siblings = Vec::new();
            std::mem::swap(&mut siblings, &mut nodes[p].children);
            let ghost old_children = siblings@;
            siblings.push(i);
            std::mem::swap(&mut siblings, &mut nodes[p].children);
            proof {
                let t = SyntaxTree { nodes };
                assert(forall|k: int| 0 <= k < i && k != p ==> #[trigger] t.nodes[k] == before[k]);
                assert(t.nodes[p as int].children@ == old_children.push(i));
                assert(t.nodes[i as int].parent == Some(p));
                assert forall|k: int| 0 < k < t.nodes.len() implies ((#[trigger] t.nodes[k]).parent matches Some(q) && q < k) by {
                    if k < i && k != p {
                        assert(t.nodes[k] == before[k]);
                    }
                }
                assert forall|q: int, j: int|
                    0 <= q < t.nodes.len() && 0 <= j < t.nodes[q].children.len() implies q
                        < #[trigger] t.nodes[q].children[j] < t.nodes.len() && t.nodes[t.nodes[q].children[j] as int].parent
                        == Some(q as usize) by {
                    if q == p && j == old_children.len() {
                    } else {
                        let c = t.nodes[q].children[j];
                        assert(c < i);
                        if c != p {
                            assert(t.nodes[c as int] == before[c as int]);
                        }
                    }
                }
                assert forall|q: int, a: int, b: int|
                    0 <= q < t.nodes.len() && 0 <= a < b < t.nodes[q].children.len() implies #[trigger] t.nodes[q].children[a]
                        < #[trigger] t.nodes[q].children[b] by {
                    if q == p && b == old_children.len() {
                        assert(old_children[a] < i);
                    }
                }
                // The arena still holds the entries read so far.
                lemma_no_children_yet(es, i as int, i + 1);
                assert forall|k: int| 0 <= k < i + 1 implies node_view(#[trigger] nodes@[k]) == es[k].0
                    && opt_chars_of(nodes@[k].field) == es[k].2 by {
                    if k < i && k != p {
                        assert(nodes@[k] == before[k]);
                    }
                }
                assert forall|k: int| 0 < k < i + 1 implies (#[trigger] nodes@[k]).parent == Some(parent_at(es, k) as usize) by {
                    if k < i && k != p {
                        assert(nodes@[k] == before[k]);
                    }
                }
                assert forall|q: int| 0 <= q < i + 1 implies (#[trigger] nodes@[q]).children@ == children_before(es, q, i + 1) by {
                    if q < i && q != p {
                        assert(nodes@[q] == before[q]);
                    }
                    if q == i {
                        assert(nodes@[q].children@ =~= Seq::<usize>::empty());
                    }
                }
            }
            let ghost old_path = path@;
            path.truncate(depth);
            path.push(i);
            proof {
                assert forall|d: int| 0 <= d < path.len() implies #[trigger] path[d] == latest_at(es, i + 1, d) && path[d]
                    < nodes.len() by {
                    if d < depth {
                        assert(path[d] == old_path[d]);
                    }
                }
            }
        }
        i = i + 1;
    }
    proof {
        assert(depths_valid(es));
    }
    Some(SyntaxTree { nodes })
}

/// The last node before position `k` at a depth comes before it.
proof fn lemma_latest_before(es: Seq<NodeEntry>, k: int, d: int)
    ensures
        -1 <= latest_at(es, k, d) < k || (k <= 0 && latest_at(es, k, d) == -1),
    decreases k,
{
    if k > 0 {
        lemma_latest_before(es, k - 1, d);
    }
}

/// A node has no children among the nodes up to and including itself.
proof fn lemma_no_children_yet(es: Seq<NodeEntry>, q: int, m: int)
    requires
        m <= q + 1,
    ensures
        children_before(es, q, m) == Seq::<usize>::empty(),
    decreases m,
{
    if m > 1 {
        lemma_latest_before(es, m - 1, es[m - 1].1 - 1);
        lemma_no_children_yet(es, q, m - 1);
    }
}

/// The first of node `n`'s children, from the `j`-th on, that fills
/// `field`.
pub open spec fn field_child_from(t: SyntaxTree, n: int, field: Seq<char>, j: nat) -> Option<usize>
    decreases t.nodes[n].children.len() - j,
{
    let cs = t.nodes[n].children@;
    if j >= cs.len() {
        None
    } else if opt_string_is(t.nodes[cs[j as int] as int].field, field) {
        Some(cs[j as int])
    } else {
        field_child_from(t, n, field, j + 1)
    }
}

/// The first child of node `n` that fills `field`.
pub open spec fn field_child(t: SyntaxTree, n: int, field: Seq<char>) -> Option<usize> {
    field_child_from(t, n, field, 0)
}

/// An optional name is present and equal to `s`.
pub open spec fn opt_string_is(o: Option<String>, s: Seq<char>) -> bool {
    o matches Some(x) && x@ == s
}

/// The first child of node `n` that fills `field` (`Node::child_by_field_name`).
pub fn child_by_field(t: &SyntaxTree, n: usize, field: &str) -> (r: Option<usize>)
    requires
        t.wf(),
        n < t.nodes.len(),
    ensures
        match r {
            Some(c) => {
                &&& n < c < t.nodes.len()
                &&& t.nodes[c as int].parent == Some(n)
                &&& opt_string_is(t.nodes[c as int].field, field@)
                &&& exists|j: int|
                    0 <= j < t.nodes[n as int].children.len() && t.nodes[n as int].children[j] == c
                        && forall|i: int|
                        0 <= i < j ==> !opt_string_is(
                            t.nodes[t.nodes[n as int].children[i] as int].field,
                            field@,
                        )
            },
            None => forall|j: int|
                0 <= j < t.nodes[n as int].children.len() ==> !opt_string_is(
                    t.nodes[#[trigger] t.nodes[n as int].children[j] as int].field,
                    field@,
                ),
        },
        r == field_child(*t, n as int, field@),
{
    let children = &t.nodes[n].children;
    let mut j: usize = 0;
    while j < children.len()
        invariant
            t.wf(),
            n < t.nodes.len(),
            children == &t.nodes[n as int].children,
            j <= children.len(),
            forall|i: int| 0 <= i < j ==> !opt_string_is(t.nodes[#[trigger] children[i] as int].field, field@),
            field_child(*t, n as int, field@) == field_child_from(*t, n as int, field@, j as nat),
        decreases children.len() - j,
    {
        let c = children[j];
        let hit = match &t.nodes[c].field {
            Some(f) => same_text(f.as_str(), field),
            None => false,
        };
        if hit {
            return Some(c);
        }
        j = j + 1;
    }
    None
}

} // verus!
