//! What a declaration node says of itself, read off the syntax tree: its
//! span, its name, its visibility and its signature.
//!
//! These are the definitions the walker's facts are held to. Each reads the
//! arena the grammar's tree was copied into, the source text, and the
//! language's configuration.

use vstd::prelude::*;

use crate::code_parse::spec_line_number;
use crate::naming::{decimal, spec_anonymous_segment, spec_child_name};
use crate::facts::{CodeFact, LineSpan, ObjectType, Visibility};
use crate::lang::{
    decl_text, first_decl, first_decl_from, spec_attribute_nodes, spec_binding_nodes, spec_call_nodes,
    spec_comment_nodes, spec_decls, spec_field_nodes, spec_import_nodes, spec_member_nodes, spec_parameter_nodes,
    spec_string_nodes, spec_name_fields, spec_parameter_list_nodes,
    spec_visibility_inheriting_nodes, spec_visibility_nodes,
    spec_visibility_style, DeclKind, Language, LanguageConfig, VisibilityStyle,
};
use crate::parse::{
    plain_identifier, spec_collapse_whitespace, spec_python_visibility, spec_simplify_type, spec_split_call_path,
    CallSite, CommentText,
};
use crate::typeenv::{RawBinding, TypeSource};
use crate::syntax::{field_child, opt_string_is, range_text, SyntaxTree};
use crate::text::{first_match, lemma_first_match, matches_at, starts_upper, starts_with, trim_ws};

verus! {

/// The source text a node spans, when its byte range can be read.
pub open spec fn node_text(t: SyntaxTree, src: Seq<char>, n: int) -> Option<Seq<char>> {
    range_text(src, t.nodes[n].start_byte as int, t.nodes[n].end_byte as int)
}

/// The one-based line span of a node.
pub open spec fn node_span(t: SyntaxTree, n: int) -> LineSpan {
    LineSpan { start: spec_line_number(t.nodes[n].start_row), end: spec_line_number(t.nodes[n].end_row) }
}

/// The first declaration form, from the `i`-th on, for a node kind.
pub open spec fn form_from(forms: Seq<(Seq<char>, ObjectType, Seq<char>, bool)>, k: Seq<char>, i: nat) -> Option<
    (Seq<char>, ObjectType, Seq<char>, bool),
>
    decreases forms.len() - i,
{
    if i >= forms.len() {
        None
    } else if forms[i as int].0 == k {
        Some(forms[i as int])
    } else {
        form_from(forms, k, i + 1)
    }
}

/// The declaration form the language gives nodes of kind `k`, if they are
/// declarations: node kind, object type, kind, and whether it names its
/// children.
pub open spec fn decl_form(lang: Language, k: Seq<char>) -> Option<(Seq<char>, ObjectType, Seq<char>, bool)> {
    form_from(spec_decls(lang), k, 0)
}

/// Nodes of kind `k` are declarations in this language.
pub open spec fn declares(lang: Language, k: Seq<char>) -> bool {
    decl_form(lang, k) is Some
}

/// The trimmed text of the first of node `n`'s children, from the `j`-th
/// on, that is a visibility modifier whose text can be read.
pub open spec fn modifier_from(t: SyntaxTree, src: Seq<char>, lang: Language, n: int, j: nat) -> Option<
    Seq<char>,
>
    decreases t.nodes[n].children.len() - j,
{
    let cs = t.nodes[n].children@;
    if j >= cs.len() {
        None
    } else {
        let c = cs[j as int] as int;
        if spec_visibility_nodes(lang).contains(t.nodes[c].kind@) && node_text(t, src, c) is Some {
            Some(trim_ws(node_text(t, src, c)->0))
        } else {
            modifier_from(t, src, lang, n, j + 1)
        }
    }
}

/// A declaration's own visibility modifier, trimmed.
pub open spec fn visibility_modifier(t: SyntaxTree, src: Seq<char>, lang: Language, n: int) -> Option<
    Seq<char>,
> {
    modifier_from(t, src, lang, n, 0)
}

/// Climbing from `a`, a body whose items inherit their declaration's
/// visibility comes before any declaration does.
pub open spec fn inheriting_above(t: SyntaxTree, lang: Language, a: Option<usize>) -> bool
    decreases (match a {
        Some(x) => x + 1,
        None => 0,
    }),
{
    match a {
        None => false,
        Some(x) => {
            if x >= t.nodes.len() {
                false
            } else if spec_visibility_inheriting_nodes(lang).contains(t.nodes[x as int].kind@) {
                true
            } else if declares(lang, t.nodes[x as int].kind@) {
                false
            } else {
                match t.nodes[x as int].parent {
                    Some(p) => if p < x {
                        inheriting_above(t, lang, Some(p))
                    } else {
                        false
                    },
                    None => false,
                }
            }
        },
    }
}

/// Climbing from `a`, the first `impl_item` reached before any declaration
/// implements a trait (it has a `trait` field).
pub open spec fn trait_impl_above(t: SyntaxTree, lang: Language, a: Option<usize>) -> bool
    decreases (match a {
        Some(x) => x + 1,
        None => 0,
    }),
{
    match a {
        None => false,
        Some(x) => {
            if x >= t.nodes.len() {
                false
            } else if t.nodes[x as int].kind@ == "impl_item"@ {
                field_child(t, x as int, "trait"@) is Some
            } else if declares(lang, t.nodes[x as int].kind@) {
                false
            } else {
                match t.nodes[x as int].parent {
                    Some(p) => if p < x {
                        trait_impl_above(t, lang, Some(p))
                    } else {
                        false
                    },
                    None => false,
                }
            }
        },
    }
}

/// Rust: `pub` is public and any restricted `pub(…)` is crate-wide; without
/// a modifier, an item of a trait or of a trait `impl` is public and any
/// other is private.
pub open spec fn rust_visibility(t: SyntaxTree, src: Seq<char>, lang: Language, n: int) -> Visibility {
    match visibility_modifier(t, src, lang, n) {
        Some(m) => if m == "pub"@ {
            Visibility::Public
        } else {
            Visibility::Crate
        },
        None => if inheriting_above(t, lang, t.nodes[n].parent) || trait_impl_above(t, lang, t.nodes[n].parent) {
            Visibility::Public
        } else {
            Visibility::Private
        },
    }
}

/// The node's parent is a class body, an interface body or an object type.
pub open spec fn type_member(t: SyntaxTree, n: int) -> bool {
    t.nodes[n].parent matches Some(p) && (t.nodes[p as int].kind@ == "class_body"@ || t.nodes[p as int].kind@
        == "interface_body"@ || t.nodes[p as int].kind@ == "object_type"@)
}

/// The node's parent is an `export` statement.
pub open spec fn exported(t: SyntaxTree, n: int) -> bool {
    t.nodes[n].parent matches Some(p) && t.nodes[p as int].kind@ == "export_statement"@
}

/// TypeScript: a `#name` is private; else an accessibility modifier decides
/// (`private`, `protected` as crate-wide, anything else public); else a
/// member of a type body, an item inheriting visibility, or an exported
/// declaration is public, and anything else private.
pub open spec fn typescript_visibility(t: SyntaxTree, src: Seq<char>, lang: Language, n: int) -> Visibility {
    if field_child(t, n, "name"@) matches Some(c) && t.nodes[c as int].kind@ == "private_property_identifier"@ {
        Visibility::Private
    } else {
        match visibility_modifier(t, src, lang, n) {
            Some(m) => if m == "private"@ {
                Visibility::Private
            } else if m == "protected"@ {
                Visibility::Crate
            } else {
                Visibility::Public
            },
            None => if type_member(t, n) || inheriting_above(t, lang, t.nodes[n].parent) || exported(t, n) {
                Visibility::Public
            } else {
                Visibility::Private
            },
        }
    }
}

/// A declaration's visibility, by its language's way of spelling it; Python
/// reads it off the declared name.
pub open spec fn declared_visibility(
    t: SyntaxTree,
    src: Seq<char>,
    lang: Language,
    n: int,
    simple_name: Seq<char>,
) -> Visibility {
    match spec_visibility_style(lang) {
        VisibilityStyle::RustModifier => rust_visibility(t, src, lang, n),
        VisibilityStyle::TypeScriptExport => typescript_visibility(t, src, lang, n),
        VisibilityStyle::PythonUnderscore => spec_python_visibility(simple_name),
    }
}

/// The first of node `n`'s children, from the `j`-th on, of one of the
/// kinds.
pub open spec fn kind_child_from(t: SyntaxTree, n: int, kinds: Seq<Seq<char>>, j: nat) -> Option<usize>
    decreases t.nodes[n].children.len() - j,
{
    let cs = t.nodes[n].children@;
    if j >= cs.len() {
        None
    } else if kinds.contains(t.nodes[cs[j as int] as int].kind@) {
        Some(cs[j as int])
    } else {
        kind_child_from(t, n, kinds, j + 1)
    }
}

/// The child filling the first of the fields, from the `i`-th on, that
/// node `n` has a child for.
pub open spec fn first_field_from(t: SyntaxTree, n: int, fields: Seq<Seq<char>>, i: nat) -> Option<usize>
    decreases fields.len() - i,
{
    if i >= fields.len() {
        None
    } else if field_child(t, n, fields[i as int]) is Some {
        field_child(t, n, fields[i as int])
    } else {
        first_field_from(t, n, fields, i + 1)
    }
}

/// A declared type's text without its surrounding white space, without a
/// leading `->` or `:`, with every white-space run collapsed; nothing when
/// that leaves nothing or the text cannot be read.
pub open spec fn normalized_type(t: SyntaxTree, src: Seq<char>, n: int) -> Option<Seq<char>> {
    match node_text(t, src, n) {
        None => None,
        Some(x) => {
            let tr = trim_ws(x);
            let stripped = if starts_with(tr, "->"@) {
                tr.skip(2)
            } else if starts_with(tr, ":"@) {
                tr.skip(1)
            } else {
                tr
            };
            let c = spec_collapse_whitespace(trim_ws(stripped));
            if c.len() == 0 {
                None
            } else {
                Some(c)
            }
        },
    }
}

/// The normalized type under the first of the fields, from the `i`-th on,
/// that holds a readable type.
pub open spec fn return_type_from(t: SyntaxTree, src: Seq<char>, n: int, fields: Seq<Seq<char>>, i: nat) -> Option<
    Seq<char>,
>
    decreases fields.len() - i,
{
    if i >= fields.len() {
        None
    } else if field_child(t, n, fields[i as int]) is Some && normalized_type(
        t,
        src,
        field_child(t, n, fields[i as int])->0 as int,
    ) is Some {
        normalized_type(t, src, field_child(t, n, fields[i as int])->0 as int)
    } else {
        return_type_from(t, src, n, fields, i + 1)
    }
}

/// A declaration's stated return type, normalized.
pub open spec fn return_type(t: SyntaxTree, src: Seq<char>, n: int) -> Option<Seq<char>> {
    return_type_from(t, src, n, seq!["return_type"@], 0)
}

/// A callable's parameter list: the child in its `parameters` field, else
/// its first child of a parameter-list kind.
pub open spec fn parameter_list(t: SyntaxTree, lang: Language, n: int) -> Option<usize> {
    match field_child(t, n, "parameters"@) {
        Some(p) => Some(p),
        None => kind_child_from(t, n, spec_parameter_list_nodes(lang), 0),
    }
}

/// How one parameter is written in a signature: a receiver as `self`, else
/// its declared type, else its name, else its own text, each with
/// white-space runs collapsed; nothing when none of these can be read.
pub open spec fn rendered_parameter(t: SyntaxTree, src: Seq<char>, p: int) -> Option<Seq<char>> {
    let kind = t.nodes[p].kind@;
    let name_node = match first_field_from(t, p, seq!["pattern"@, "name"@], 0) {
        Some(c) => Some(c as int),
        None => if kind == "identifier"@ {
            Some(p)
        } else {
            None
        },
    };
    let name = match name_node {
        Some(c) => match node_text(t, src, c) {
            Some(x) => Some(trim_ws(x)),
            None => None,
        },
        None => None,
    };
    if kind == "self_parameter"@ {
        Some("self"@)
    } else if name matches Some(nm) && (nm == "self"@ || nm == "cls"@ || nm == "this"@) {
        Some("self"@)
    } else if field_child(t, p, "type"@) is Some && normalized_type(t, src, field_child(t, p, "type"@)->0 as int) is Some {
        normalized_type(t, src, field_child(t, p, "type"@)->0 as int)
    } else if name is Some && name->0.len() > 0 {
        Some(spec_collapse_whitespace(name->0))
    } else {
        match node_text(t, src, p) {
            Some(x) => if trim_ws(x).len() > 0 {
                Some(spec_collapse_whitespace(trim_ws(x)))
            } else {
                None
            },
            None => None,
        }
    }
}

/// The renderings of the parameters among the first `j` children of the
/// parameter list `p`: named children that are not comments and render.
pub open spec fn rendered_upto(t: SyntaxTree, src: Seq<char>, lang: Language, p: int, j: nat) -> Seq<Seq<char>>
    decreases j,
{
    if j == 0 {
        Seq::empty()
    } else {
        let before = rendered_upto(t, src, lang, p, (j - 1) as nat);
        let c = t.nodes[p].children[j - 1] as int;
        if t.nodes[c].is_named && !spec_comment_nodes(lang).contains(t.nodes[c].kind@) && rendered_parameter(
            t,
            src,
            c,
        ) is Some {
            before.push(rendered_parameter(t, src, c)->0)
        } else {
            before
        }
    }
}

/// Parameter renderings joined by `, `.
pub open spec fn comma_joined(ps: Seq<Seq<char>>) -> Seq<char>
    decreases ps.len(),
{
    if ps.len() == 0 {
        Seq::empty()
    } else if ps.len() == 1 {
        ps[0]
    } else {
        comma_joined(ps.drop_last()) + ", "@ + ps.last()
    }
}

/// A callable's normalized signature: its parameters in parentheses, then
/// ` -> ` and the return type when it states one; nothing without a
/// parameter list.
pub open spec fn declared_signature(t: SyntaxTree, src: Seq<char>, lang: Language, n: int) -> Option<Seq<char>> {
    match parameter_list(t, lang, n) {
        None => None,
        Some(p) => {
            let params = "("@ + comma_joined(rendered_upto(t, src, lang, p as int, t.nodes[p as int].children@.len()))
                + ")"@;
            Some(
                match return_type(t, src, n) {
                    Some(r) => params + " -> "@ + r,
                    None => params,
                },
            )
        },
    }
}

/// The text of the child filling the first of the fields, from the `i`-th
/// on, whose child has readable, non-empty text.
pub open spec fn name_from(t: SyntaxTree, src: Seq<char>, n: int, fields: Seq<Seq<char>>, i: nat) -> Option<
    Seq<char>,
>
    decreases fields.len() - i,
{
    if i >= fields.len() {
        None
    } else if field_child(t, n, fields[i as int]) is Some && node_text(
        t,
        src,
        field_child(t, n, fields[i as int])->0 as int,
    ) is Some && node_text(t, src, field_child(t, n, fields[i as int])->0 as int)->0.len() > 0 {
        node_text(t, src, field_child(t, n, fields[i as int])->0 as int)
    } else {
        name_from(t, src, n, fields, i + 1)
    }
}

/// The name a declaration states, if it states one.
pub open spec fn declared_name(t: SyntaxTree, src: Seq<char>, lang: Language, n: int) -> Option<Seq<char>> {
    name_from(t, src, n, spec_name_fields(lang), 0)
}

/// An optional text's characters.
pub open spec fn opt_chars(o: Option<String>) -> Option<Seq<char>> {
    match o {
        Some(s) => Some(s@),
        None => None,
    }
}

/// A fact that declaration node `n` yields: the node is a declaration in
/// this language, and the fact carries its object type and kind, its line
/// span, the name it states (else an ordinal placeholder of its kind), a
/// qualified name ending in that name, its visibility, and, for a
/// callable, its signature.
pub open spec fn declared_by(t: SyntaxTree, src: Seq<char>, lang: Language, n: int, f: CodeFact) -> bool {
    &&& 0 <= n < t.nodes.len()
    &&& decl_form(lang, t.nodes[n].kind@) matches Some(form)
    &&& f.object_type == form.1
    &&& f.kind@ == form.2
    &&& f.span == node_span(t, n)
    &&& match declared_name(t, src, lang, n) {
        Some(x) => f.simple_name@ == x,
        None => exists|k: nat| f.simple_name@ == spec_anonymous_segment(form.2, k),
    }
    &&& exists|p: Seq<char>| f.qualified_name@ == spec_child_name(p, f.simple_name@)
    &&& f.visibility == declared_visibility(t, src, lang, n, f.simple_name@)
    &&& opt_chars(f.signature) == if form.1 == ObjectType::Function {
        declared_signature(t, src, lang, n)
    } else {
        None
    }
}

/// Nodes of kind `k` are comments, attributes or strings: the walk records
/// or passes over them and does not look inside.
pub open spec fn skipped(lang: Language, k: Seq<char>) -> bool {
    spec_comment_nodes(lang).contains(k) || spec_attribute_nodes(lang).contains(k) || spec_string_nodes(
        lang,
    ).contains(k)
}

/// The declaration nodes a depth-first walk meets below node `node`,
/// starting at its `j`-th child, in the order it meets them: each child
/// that is not skipped contributes itself if it is a declaration, then what
/// lies below it.
pub open spec fn walked_from(t: SyntaxTree, lang: Language, node: int, j: nat) -> Seq<int>
    decreases t.nodes.len() - node, t.nodes[node].children.len() - j,
{
    if node < 0 || node >= t.nodes.len() || j >= t.nodes[node].children.len() {
        Seq::empty()
    } else {
        let c = t.nodes[node].children[j as int] as int;
        let here = if c <= node || c >= t.nodes.len() || skipped(lang, t.nodes[c].kind@) {
            Seq::empty()
        } else if declares(lang, t.nodes[c].kind@) {
            seq![c] + walked_from(t, lang, c, 0)
        } else {
            walked_from(t, lang, c, 0)
        };
        here + walked_from(t, lang, node, j + 1)
    }
}

/// Nodes of kind `k` are comments or attributes, whose text is recorded.
pub open spec fn commentary(lang: Language, k: Seq<char>) -> bool {
    spec_comment_nodes(lang).contains(k) || spec_attribute_nodes(lang).contains(k)
}

/// The comments and attributes a depth-first walk meets below node
/// `node`, starting at its `j`-th child, in the order it meets them; one
/// whose text cannot be read is passed over, and the walk does not look
/// inside comments, attributes or strings.
pub open spec fn comment_nodes_from(t: SyntaxTree, src: Seq<char>, lang: Language, node: int, j: nat) -> Seq<int>
    decreases t.nodes.len() - node, t.nodes[node].children.len() - j,
{
    if node < 0 || node >= t.nodes.len() || j >= t.nodes[node].children.len() {
        Seq::empty()
    } else {
        let c = t.nodes[node].children[j as int] as int;
        let here = if c <= node || c >= t.nodes.len() {
            Seq::empty()
        } else if commentary(lang, t.nodes[c].kind@) {
            if node_text(t, src, c) is Some {
                seq![c]
            } else {
                Seq::empty()
            }
        } else if skipped(lang, t.nodes[c].kind@) {
            Seq::empty()
        } else {
            comment_nodes_from(t, src, lang, c, 0)
        };
        here + comment_nodes_from(t, src, lang, node, j + 1)
    }
}

/// The comments visiting node `c` records.
pub open spec fn comment_nodes_visited(t: SyntaxTree, src: Seq<char>, lang: Language, c: int) -> Seq<int> {
    if commentary(lang, t.nodes[c].kind@) {
        if node_text(t, src, c) is Some {
            seq![c]
        } else {
            Seq::empty()
        }
    } else if skipped(lang, t.nodes[c].kind@) {
        Seq::empty()
    } else {
        comment_nodes_from(t, src, lang, c, 0)
    }
}

/// The comments and attributes of the whole tree, in walk order.
pub open spec fn walked_comments(t: SyntaxTree, src: Seq<char>, lang: Language) -> Seq<int> {
    comment_nodes_from(t, src, lang, 0, 0)
}

/// A comment recorded from node `c`: its text and line, owned by the fact
/// of the declaration enclosing it (one of `facts`, read from `nodes`) or
/// by the file, and marked as inside a test when it is.
pub open spec fn comment_from(
    t: SyntaxTree,
    src: Seq<char>,
    lang: Language,
    file: Seq<char>,
    nodes: Seq<int>,
    facts: Seq<CodeFact>,
    c: int,
    cm: CommentText,
) -> bool {
    &&& node_text(t, src, c) == Some(cm.text@)
    &&& cm.line == spec_line_number(t.nodes[c].start_row)
    &&& cm.owner_is_test == tested_above(t, src, lang, c)
    &&& match enclosing_above(t, lang, c) {
        None => cm.owner@ == file,
        Some(a) => exists|j: int|
            0 <= j < facts.len() && nodes[j] == a && (#[trigger] facts[j]).qualified_name@ == cm.owner@,
    }
}

/// Each comment is the one recorded from its node.
pub open spec fn comments_along(
    t: SyntaxTree,
    src: Seq<char>,
    lang: Language,
    file: Seq<char>,
    nodes: Seq<int>,
    facts: Seq<CodeFact>,
    cnodes: Seq<int>,
    comments: Seq<CommentText>,
) -> bool {
    &&& cnodes.len() == comments.len()
    &&& forall|i: int|
        0 <= i < comments.len() ==> #[trigger] comment_from(t, src, lang, file, nodes, facts, cnodes[i], comments[i])
}

/// More facts leave every comment's owner where it was.
pub proof fn lemma_comments_along_grow(
    t: SyntaxTree,
    src: Seq<char>,
    lang: Language,
    file: Seq<char>,
    nodes: Seq<int>,
    facts: Seq<CodeFact>,
    nodes2: Seq<int>,
    facts2: Seq<CodeFact>,
    cnodes: Seq<int>,
    comments: Seq<CommentText>,
)
    requires
        comments_along(t, src, lang, file, nodes, facts, cnodes, comments),
        nodes.len() == facts.len(),
        facts.len() <= facts2.len(),
        nodes2.len() == facts2.len(),
        nodes2.take(nodes.len() as int) == nodes,
        facts2.take(facts.len() as int) == facts,
    ensures
        comments_along(t, src, lang, file, nodes2, facts2, cnodes, comments),
{
    assert forall|i: int| 0 <= i < comments.len() implies #[trigger] comment_from(
        t,
        src,
        lang,
        file,
        nodes2,
        facts2,
        cnodes[i],
        comments[i],
    ) by {
        assert(comment_from(t, src, lang, file, nodes, facts, cnodes[i], comments[i]));
        match enclosing_above(t, lang, cnodes[i]) {
            None => {},
            Some(a) => {
                let j = choose|j: int|
                    0 <= j < facts.len() && nodes[j] == a && (#[trigger] facts[j]).qualified_name@ == comments[i].owner@;
                assert(nodes2.take(nodes.len() as int)[j] == nodes2[j]);
                assert(facts2.take(facts.len() as int)[j] == facts2[j]);
            },
        }
    }
}

/// One more comment recorded from its node joins comments that all are.
pub proof fn lemma_comments_along_push(
    t: SyntaxTree,
    src: Seq<char>,
    lang: Language,
    file: Seq<char>,
    nodes: Seq<int>,
    facts: Seq<CodeFact>,
    cnodes: Seq<int>,
    comments: Seq<CommentText>,
    c: int,
    cm: CommentText,
)
    requires
        comments_along(t, src, lang, file, nodes, facts, cnodes, comments),
        comment_from(t, src, lang, file, nodes, facts, c, cm),
    ensures
        comments_along(t, src, lang, file, nodes, facts, cnodes.push(c), comments.push(cm)),
{
    assert forall|i: int| 0 <= i < comments.push(cm).len() implies #[trigger] comment_from(
        t,
        src,
        lang,
        file,
        nodes,
        facts,
        cnodes.push(c)[i],
        comments.push(cm)[i],
    ) by {
        if i < comments.len() {
            assert(cnodes.push(c)[i] == cnodes[i]);
            assert(comments.push(cm)[i] == comments[i]);
        }
    }
}

/// The call a call node names: the receiver and method when its callee is
/// a path whose last segment is not empty, else the callee itself when it
/// is a plain identifier; nothing when the callee cannot be read or is
/// neither.
pub open spec fn call_of(t: SyntaxTree, src: Seq<char>, n: int) -> Option<(Option<Seq<char>>, Seq<char>)> {
    match field_child(t, n, "function"@) {
        None => None,
        Some(f) => match node_text(t, src, f as int) {
            None => None,
            Some(text) => {
                let named = if plain_identifier(text) {
                    Some((None, text))
                } else {
                    None
                };
                match spec_split_call_path(text) {
                    Some(parts) => if parts.1.len() > 0 {
                        Some((Some(parts.0), parts.1))
                    } else {
                        named
                    },
                    None => named,
                }
            },
        },
    }
}

/// The calls a depth-first walk meets below node `node`, starting at its
/// `j`-th child, in the order it meets them: call nodes that name a call,
/// outside comments, attributes and strings.
pub open spec fn call_nodes_from(t: SyntaxTree, src: Seq<char>, lang: Language, node: int, j: nat) -> Seq<int>
    decreases t.nodes.len() - node, t.nodes[node].children.len() - j,
{
    if node < 0 || node >= t.nodes.len() || j >= t.nodes[node].children.len() {
        Seq::empty()
    } else {
        let c = t.nodes[node].children[j as int] as int;
        let here = if c <= node || c >= t.nodes.len() || skipped(lang, t.nodes[c].kind@) {
            Seq::empty()
        } else {
            (if spec_call_nodes(lang).contains(t.nodes[c].kind@) && call_of(t, src, c) is Some {
                seq![c]
            } else {
                Seq::empty()
            }) + call_nodes_from(t, src, lang, c, 0)
        };
        here + call_nodes_from(t, src, lang, node, j + 1)
    }
}

/// The calls visiting node `c` records.
pub open spec fn call_nodes_visited(t: SyntaxTree, src: Seq<char>, lang: Language, c: int) -> Seq<int> {
    if skipped(lang, t.nodes[c].kind@) {
        Seq::empty()
    } else {
        (if spec_call_nodes(lang).contains(t.nodes[c].kind@) && call_of(t, src, c) is Some {
            seq![c]
        } else {
            Seq::empty()
        }) + call_nodes_from(t, src, lang, c, 0)
    }
}

/// The calls of the whole tree, in walk order.
pub open spec fn walked_calls(t: SyntaxTree, src: Seq<char>, lang: Language) -> Seq<int> {
    call_nodes_from(t, src, lang, 0, 0)
}

/// The callable whose scope holds what lies below node `n`: `n` itself
/// when it declares a callable, else the one holding its parent; none at
/// the root.
pub open spec fn callable_at(t: SyntaxTree, lang: Language, n: int) -> Option<int>
    decreases n,
{
    if n <= 0 || n >= t.nodes.len() {
        None
    } else if decl_form(lang, t.nodes[n].kind@) matches Some(form) && form.1 == ObjectType::Function {
        Some(n)
    } else {
        match t.nodes[n].parent {
            Some(p) => if p < n {
                callable_at(t, lang, p as int)
            } else {
                None
            },
            None => None,
        }
    }
}

/// The callable whose scope holds node `n`, below the root.
pub open spec fn callable_above(t: SyntaxTree, lang: Language, n: int) -> Option<int> {
    match t.nodes[n].parent {
        Some(p) => callable_at(t, lang, p as int),
        None => None,
    }
}

/// The scope key of a callable's fact: its name, `@`, its first line.
pub open spec fn scope_key(f: CodeFact) -> Seq<char> {
    f.simple_name@ + "@"@ + decimal(f.span.start as nat)
}

/// The scope a node's callable opens, given as a scope key: the file's
/// (empty) when no callable holds it, else the key of that callable's fact
/// (one of `facts`, read from `nodes`).
pub open spec fn scope_placed(callable: Option<int>, nodes: Seq<int>, facts: Seq<CodeFact>, scope: Seq<char>) -> bool {
    match callable {
        None => scope == ""@,
        Some(a) => exists|j: int| 0 <= j < facts.len() && nodes[j] == a && scope == scope_key(#[trigger] facts[j]),
    }
}

/// The owner a node's enclosing declaration gives: the file when none
/// does, else that declaration's fact (one of `facts`, read from `nodes`).
pub open spec fn owner_placed(enclosing: Option<int>, file: Seq<char>, nodes: Seq<int>, facts: Seq<CodeFact>, owner: Seq<char>) -> bool {
    match enclosing {
        None => owner == file,
        Some(a) => exists|j: int| 0 <= j < facts.len() && nodes[j] == a && (#[trigger] facts[j]).qualified_name@ == owner,
    }
}

/// A call site recorded from node `c`: the call it names and its line,
/// made from the fact of the declaration enclosing it (or the file), in the
/// scope of the callable holding it (or the file's).
pub open spec fn call_from(
    t: SyntaxTree,
    src: Seq<char>,
    lang: Language,
    file: Seq<char>,
    nodes: Seq<int>,
    facts: Seq<CodeFact>,
    c: int,
    site: CallSite,
) -> bool {
    &&& call_of(t, src, c) == Some((
        match site.receiver {
            Some(r) => Some(r@),
            None => None,
        },
        site.callee@,
    ))
    &&& site.line == spec_line_number(t.nodes[c].start_row)
    &&& owner_placed(enclosing_above(t, lang, c), file, nodes, facts, site.caller@)
    &&& scope_placed(callable_above(t, lang, c), nodes, facts, site.scope@)
}

/// Each call site is the one recorded from its node.
pub open spec fn calls_along(
    t: SyntaxTree,
    src: Seq<char>,
    lang: Language,
    file: Seq<char>,
    nodes: Seq<int>,
    facts: Seq<CodeFact>,
    cnodes: Seq<int>,
    calls: Seq<CallSite>,
) -> bool {
    &&& cnodes.len() == calls.len()
    &&& forall|i: int| 0 <= i < calls.len() ==> #[trigger] call_from(t, src, lang, file, nodes, facts, cnodes[i], calls[i])
}

/// More facts leave every owner and scope where it was.
pub proof fn lemma_placed_grow(
    nodes: Seq<int>,
    facts: Seq<CodeFact>,
    nodes2: Seq<int>,
    facts2: Seq<CodeFact>,
    enclosing: Option<int>,
    callable: Option<int>,
    file: Seq<char>,
    owner: Seq<char>,
    scope: Seq<char>,
)
    requires
        nodes.len() == facts.len(),
        facts.len() <= facts2.len(),
        nodes2.len() == facts2.len(),
        nodes2.take(nodes.len() as int) == nodes,
        facts2.take(facts.len() as int) == facts,
    ensures
        owner_placed(enclosing, file, nodes, facts, owner) ==> owner_placed(enclosing, file, nodes2, facts2, owner),
        scope_placed(callable, nodes, facts, scope) ==> scope_placed(callable, nodes2, facts2, scope),
{
    if owner_placed(enclosing, file, nodes, facts, owner) {
        match enclosing {
            None => {},
            Some(a) => {
                let j = choose|j: int|
                    0 <= j < facts.len() && nodes[j] == a && (#[trigger] facts[j]).qualified_name@ == owner;
                assert(nodes2.take(nodes.len() as int)[j] == nodes2[j]);
                assert(facts2.take(facts.len() as int)[j] == facts2[j]);
            },
        }
    }
    if scope_placed(callable, nodes, facts, scope) {
        match callable {
            None => {},
            Some(a) => {
                let j = choose|j: int| 0 <= j < facts.len() && nodes[j] == a && scope == scope_key(#[trigger] facts[j]);
                assert(nodes2.take(nodes.len() as int)[j] == nodes2[j]);
                assert(facts2.take(facts.len() as int)[j] == facts2[j]);
            },
        }
    }
}

/// More facts leave every call site's owner and scope where they were.
pub proof fn lemma_calls_along_grow(
    t: SyntaxTree,
    src: Seq<char>,
    lang: Language,
    file: Seq<char>,
    nodes: Seq<int>,
    facts: Seq<CodeFact>,
    nodes2: Seq<int>,
    facts2: Seq<CodeFact>,
    cnodes: Seq<int>,
    calls: Seq<CallSite>,
)
    requires
        calls_along(t, src, lang, file, nodes, facts, cnodes, calls),
        nodes.len() == facts.len(),
        facts.len() <= facts2.len(),
        nodes2.len() == facts2.len(),
        nodes2.take(nodes.len() as int) == nodes,
        facts2.take(facts.len() as int) == facts,
    ensures
        calls_along(t, src, lang, file, nodes2, facts2, cnodes, calls),
{
    assert forall|i: int| 0 <= i < calls.len() implies #[trigger] call_from(
        t,
        src,
        lang,
        file,
        nodes2,
        facts2,
        cnodes[i],
        calls[i],
    ) by {
        assert(call_from(t, src, lang, file, nodes, facts, cnodes[i], calls[i]));
        lemma_placed_grow(
            nodes,
            facts,
            nodes2,
            facts2,
            enclosing_above(t, lang, cnodes[i]),
            callable_above(t, lang, cnodes[i]),
            file,
            calls[i].caller@,
            calls[i].scope@,
        );
    }
}

/// One more call site recorded from its node joins sites that all are.
pub proof fn lemma_calls_along_push(
    t: SyntaxTree,
    src: Seq<char>,
    lang: Language,
    file: Seq<char>,
    nodes: Seq<int>,
    facts: Seq<CodeFact>,
    cnodes: Seq<int>,
    calls: Seq<CallSite>,
    c: int,
    site: CallSite,
)
    requires
        calls_along(t, src, lang, file, nodes, facts, cnodes, calls),
        call_from(t, src, lang, file, nodes, facts, c, site),
    ensures
        calls_along(t, src, lang, file, nodes, facts, cnodes.push(c), calls.push(site)),
{
    assert forall|i: int| 0 <= i < calls.push(site).len() implies #[trigger] call_from(
        t,
        src,
        lang,
        file,
        nodes,
        facts,
        cnodes.push(c)[i],
        calls.push(site)[i],
    ) by {
        if i < calls.len() {
            assert(cnodes.push(c)[i] == cnodes[i]);
            assert(calls.push(site)[i] == calls[i]);
        }
    }
}

/// A type source as plain values: its form and its one or two names.
pub type SourceView = (int, Seq<char>, Seq<char>);

/// The plain values of a type source: annotation 0, constructor 1, copy 2,
/// call result 3, field access 4, method-call result 5.
pub open spec fn source_view(s: TypeSource) -> SourceView {
    match s {
        TypeSource::Annotation(x) => (0, x@, Seq::empty()),
        TypeSource::Constructor(x) => (1, x@, Seq::empty()),
        TypeSource::Copy(x) => (2, x@, Seq::empty()),
        TypeSource::CallResult(x) => (3, x@, Seq::empty()),
        TypeSource::FieldAccess { receiver, field } => (4, receiver@, field@),
        TypeSource::MethodCallResult { receiver, method } => (5, receiver@, method@),
    }
}

/// The simple type name a type node's text reduces to.
pub open spec fn simple_type_of(t: SyntaxTree, src: Seq<char>, n: int) -> Option<Seq<char>> {
    match node_text(t, src, n) {
        Some(x) => spec_simplify_type(x),
        None => None,
    }
}

/// Where the value node `v` of a binding takes its type from: a `new`
/// expression's constructor; a call's type-cased callee path (a
/// constructor), receiver and method, type-cased callee, or plain callee
/// (a call result); a member access of two plain identifiers; or a plain,
/// lower-cased identifier copied from another binding.
pub open spec fn value_source(t: SyntaxTree, src: Seq<char>, lang: Language, v: int) -> Option<SourceView> {
    let kind = t.nodes[v].kind@;
    if kind == "new_expression"@ {
        match field_child(t, v, "constructor"@) {
            None => None,
            Some(c) => match simple_type_of(t, src, c as int) {
                Some(x) => Some((1, x, Seq::empty())),
                None => None,
            },
        }
    } else if spec_call_nodes(lang).contains(kind) {
        match field_child(t, v, "function"@) {
            None => None,
            Some(f) => match node_text(t, src, f as int) {
                None => None,
                Some(text) => {
                    let plain = if starts_upper(text) {
                        Some((1, text, Seq::empty()))
                    } else if plain_identifier(text) {
                        Some((3, text, Seq::empty()))
                    } else {
                        None
                    };
                    match spec_split_call_path(text) {
                        Some(parts) => if starts_upper(parts.0) && (parts.1 == "new"@ || parts.1.len() == 0) {
                            Some((1, parts.0, Seq::empty()))
                        } else if parts.0.len() > 0 && !starts_upper(parts.0) && parts.1.len() > 0 {
                            Some((5, parts.0, parts.1))
                        } else {
                            plain
                        },
                        None => plain,
                    }
                },
            },
        }
    } else if spec_member_nodes(lang).contains(kind) {
        match (field_child(t, v, "object"@), first_field_from(t, v, seq!["field"@, "attribute"@, "property"@], 0)) {
            (Some(o), Some(f)) => match (node_text(t, src, o as int), node_text(t, src, f as int)) {
                (Some(ot), Some(ft)) => if plain_identifier(ot) && plain_identifier(ft) {
                    Some((4, ot, ft))
                } else {
                    None
                },
                _ => None,
            },
            _ => None,
        }
    } else {
        match node_text(t, src, v) {
            Some(text) => if plain_identifier(text) && !starts_upper(text) {
                Some((2, text, Seq::empty()))
            } else {
                None
            },
            None => None,
        }
    }
}

/// The binding a binding node makes: its plain, non-empty name, typed by
/// its annotation when that reduces to a type name, else by where its
/// value takes its type from.
pub open spec fn binding_of(t: SyntaxTree, src: Seq<char>, lang: Language, n: int) -> Option<(Seq<char>, SourceView)> {
    match first_field_from(t, n, seq!["pattern"@, "name"@, "left"@], 0) {
        None => None,
        Some(nn) => match node_text(t, src, nn as int) {
            None => None,
            Some(name) => if name.len() == 0 || !plain_identifier(name) {
                None
            } else if field_child(t, n, "type"@) is Some && simple_type_of(
                t,
                src,
                field_child(t, n, "type"@)->0 as int,
            ) is Some {
                Some((name, (0, simple_type_of(t, src, field_child(t, n, "type"@)->0 as int)->0, Seq::empty())))
            } else {
                match first_field_from(t, n, seq!["value"@, "right"@], 0) {
                    None => None,
                    Some(v) => match value_source(t, src, lang, v as int) {
                        Some(sv) => Some((name, sv)),
                        None => None,
                    },
                }
            },
        },
    }
}

/// The binding a parameter makes: its plain name typed by its annotation.
/// The node naming a parameter: its `pattern` or `name` field, else, for a
/// Python typed parameter, which names itself first, its first child.
pub open spec fn parameter_name_node(t: SyntaxTree, p: int) -> Option<usize> {
    match first_field_from(t, p, seq!["pattern"@, "name"@], 0) {
        Some(n) => Some(n),
        None => if t.nodes[p].kind@ == "typed_parameter"@ && t.nodes[p].children.len() > 0 {
            Some(t.nodes[p].children[0])
        } else {
            None
        },
    }
}

pub open spec fn parameter_binding_of(t: SyntaxTree, src: Seq<char>, p: int) -> Option<(Seq<char>, Seq<char>)> {
    match (parameter_name_node(t, p), field_child(t, p, "type"@)) {
        (Some(n), Some(ty)) => match (node_text(t, src, n as int), simple_type_of(t, src, ty as int)) {
            (Some(name), Some(found)) => if plain_identifier(name) {
                Some((name, found))
            } else {
                None
            },
            _ => None,
        },
        _ => None,
    }
}

/// The typed parameters of callable `c`, from the `j`-th child of its
/// parameter list `ps` on, each as (parameter node, callable).
pub open spec fn parameters_from(t: SyntaxTree, src: Seq<char>, lang: Language, ps: int, c: int, j: nat) -> Seq<(int, int)>
    decreases t.nodes[ps].children.len() - j,
{
    if j >= t.nodes[ps].children.len() {
        Seq::empty()
    } else {
        let p = t.nodes[ps].children[j as int] as int;
        (if spec_parameter_nodes(lang).contains(t.nodes[p].kind@) && parameter_binding_of(t, src, p) is Some {
            seq![(p, c)]
        } else {
            Seq::empty()
        }) + parameters_from(t, src, lang, ps, c, j + 1)
    }
}

/// The typed parameters a callable declaration binds in its own scope.
pub open spec fn parameter_bindings(t: SyntaxTree, src: Seq<char>, lang: Language, c: int) -> Seq<(int, int)> {
    match field_child(t, c, "parameters"@) {
        None => Seq::empty(),
        Some(ps) => parameters_from(t, src, lang, ps as int, c, 0),
    }
}

/// The node declares a callable.
pub open spec fn declares_callable(lang: Language, k: Seq<char>) -> bool {
    decl_form(lang, k) matches Some(form) && form.1 == ObjectType::Function
}

/// What visiting node `c` binds, before what lies below it: `c` itself when
/// it is a binding node that binds, then a callable's typed parameters.
pub open spec fn own_bindings(t: SyntaxTree, src: Seq<char>, lang: Language, c: int) -> Seq<(int, int)> {
    (if spec_binding_nodes(lang).contains(t.nodes[c].kind@) && binding_of(t, src, lang, c) is Some {
        seq![(c, -1)]
    } else {
        Seq::empty()
    }) + if declares_callable(lang, t.nodes[c].kind@) {
        parameter_bindings(t, src, lang, c)
    } else {
        Seq::empty()
    }
}

/// The bindings a depth-first walk meets below node `node`, starting at
/// its `j`-th child, in the order it meets them: a binding node as
/// (node, -1), a typed parameter as (parameter, callable).
pub open spec fn bindings_from(t: SyntaxTree, src: Seq<char>, lang: Language, node: int, j: nat) -> Seq<(int, int)>
    decreases t.nodes.len() - node, t.nodes[node].children.len() - j,
{
    if node < 0 || node >= t.nodes.len() || j >= t.nodes[node].children.len() {
        Seq::empty()
    } else {
        let c = t.nodes[node].children[j as int] as int;
        let here = if c <= node || c >= t.nodes.len() || skipped(lang, t.nodes[c].kind@) {
            Seq::empty()
        } else {
            own_bindings(t, src, lang, c) + bindings_from(t, src, lang, c, 0)
        };
        here + bindings_from(t, src, lang, node, j + 1)
    }
}

/// What visiting node `c` binds.
pub open spec fn bindings_visited(t: SyntaxTree, src: Seq<char>, lang: Language, c: int) -> Seq<(int, int)> {
    if skipped(lang, t.nodes[c].kind@) {
        Seq::empty()
    } else {
        own_bindings(t, src, lang, c) + bindings_from(t, src, lang, c, 0)
    }
}

/// The bindings of the whole tree, in walk order.
pub open spec fn walked_bindings(t: SyntaxTree, src: Seq<char>, lang: Language) -> Seq<(int, int)> {
    bindings_from(t, src, lang, 0, 0)
}

/// A binding recorded from its entry: a binding node's name and source in
/// the scope holding the node, or a typed parameter's name and annotation
/// in its callable's own scope.
pub open spec fn binding_from(
    t: SyntaxTree,
    src: Seq<char>,
    lang: Language,
    nodes: Seq<int>,
    facts: Seq<CodeFact>,
    e: (int, int),
    b: RawBinding,
) -> bool {
    if e.1 < 0 {
        &&& binding_of(t, src, lang, e.0) == Some((b.name@, source_view(b.source)))
        &&& scope_placed(callable_above(t, lang, e.0), nodes, facts, b.scope@)
    } else {
        &&& parameter_binding_of(t, src, e.0) matches Some(pb)
        &&& b.name@ == pb.0
        &&& source_view(b.source) == (0int, pb.1, Seq::<char>::empty())
        &&& scope_placed(Some(e.1), nodes, facts, b.scope@)
    }
}

/// Each binding is the one recorded from its entry.
pub open spec fn bindings_along(
    t: SyntaxTree,
    src: Seq<char>,
    lang: Language,
    nodes: Seq<int>,
    facts: Seq<CodeFact>,
    entries: Seq<(int, int)>,
    bindings: Seq<RawBinding>,
) -> bool {
    &&& entries.len() == bindings.len()
    &&& forall|i: int|
        0 <= i < bindings.len() ==> #[trigger] binding_from(t, src, lang, nodes, facts, entries[i], bindings[i])
}

/// More facts leave every binding's scope where it was.
pub proof fn lemma_bindings_along_grow(
    t: SyntaxTree,
    src: Seq<char>,
    lang: Language,
    nodes: Seq<int>,
    facts: Seq<CodeFact>,
    nodes2: Seq<int>,
    facts2: Seq<CodeFact>,
    entries: Seq<(int, int)>,
    bindings: Seq<RawBinding>,
)
    requires
        bindings_along(t, src, lang, nodes, facts, entries, bindings),
        nodes.len() == facts.len(),
        facts.len() <= facts2.len(),
        nodes2.len() == facts2.len(),
        nodes2.take(nodes.len() as int) == nodes,
        facts2.take(facts.len() as int) == facts,
    ensures
        bindings_along(t, src, lang, nodes2, facts2, entries, bindings),
{
    assert forall|i: int| 0 <= i < bindings.len() implies #[trigger] binding_from(
        t,
        src,
        lang,
        nodes2,
        facts2,
        entries[i],
        bindings[i],
    ) by {
        assert(binding_from(t, src, lang, nodes, facts, entries[i], bindings[i]));
        let callable = if entries[i].1 < 0 {
            callable_above(t, lang, entries[i].0)
        } else {
            Some(entries[i].1)
        };
        lemma_placed_grow(nodes, facts, nodes2, facts2, None, callable, Seq::empty(), Seq::empty(), bindings[i].scope@);
    }
}

/// One more binding recorded from its entry joins bindings that all are.
pub proof fn lemma_bindings_along_push(
    t: SyntaxTree,
    src: Seq<char>,
    lang: Language,
    nodes: Seq<int>,
    facts: Seq<CodeFact>,
    entries: Seq<(int, int)>,
    bindings: Seq<RawBinding>,
    e: (int, int),
    b: RawBinding,
)
    requires
        bindings_along(t, src, lang, nodes, facts, entries, bindings),
        binding_from(t, src, lang, nodes, facts, e, b),
    ensures
        bindings_along(t, src, lang, nodes, facts, entries.push(e), bindings.push(b)),
{
    assert forall|i: int| 0 <= i < bindings.push(b).len() implies #[trigger] binding_from(
        t,
        src,
        lang,
        nodes,
        facts,
        entries.push(e)[i],
        bindings.push(b)[i],
    ) by {
        if i < bindings.len() {
            assert(entries.push(e)[i] == entries[i]);
            assert(bindings.push(b)[i] == bindings[i]);
        }
    }
}

/// The return type a callable's table entry takes: the simple type under
/// its first `return_type` or `return_type_annotation` field.
pub open spec fn declared_return(t: SyntaxTree, src: Seq<char>, n: int) -> Option<Seq<char>> {
    match first_field_from(t, n, seq!["return_type"@, "return_type_annotation"@], 0) {
        Some(r) => simple_type_of(t, src, r as int),
        None => None,
    }
}

/// The return types of the callables among `facts` (each read from its
/// node in `nodes`), by qualified name; of two callables with one name,
/// the later one's stands.
pub open spec fn returns_of(t: SyntaxTree, src: Seq<char>, nodes: Seq<int>, facts: Seq<CodeFact>) -> Map<
    Seq<char>,
    Seq<char>,
>
    decreases facts.len(),
{
    if facts.len() == 0 {
        Map::empty()
    } else {
        let i = facts.len() - 1;
        let earlier = returns_of(t, src, nodes.take(i), facts.take(i));
        if facts[i].object_type == ObjectType::Function && declared_return(t, src, nodes[i]) is Some {
            earlier.insert(facts[i].qualified_name@, declared_return(t, src, nodes[i])->0)
        } else {
            earlier
        }
    }
}

/// The types enclosing the callables among `facts`, by scope key: each
/// callable whose entry in `owners` names an owning type maps its scope key
/// to it; of two callables with one key, the later one's stands.
pub open spec fn enclosings_of(facts: Seq<CodeFact>, owners: Seq<Option<Seq<char>>>) -> Map<Seq<char>, Seq<char>>
    decreases facts.len(),
{
    if facts.len() == 0 {
        Map::empty()
    } else {
        let i = facts.len() - 1;
        let earlier = enclosings_of(facts.take(i), owners.take(i));
        if facts[i].object_type == ObjectType::Function && owners[i] is Some {
            earlier.insert(scope_key(facts[i]), owners[i]->0)
        } else {
            earlier
        }
    }
}

/// Each fact's entry in `owners` is the name of the type owning its node
/// (none where no type does), as `owner_named` reads it off `facts`.
pub open spec fn owners_named(
    t: SyntaxTree,
    src: Seq<char>,
    lang: Language,
    nodes: Seq<int>,
    facts: Seq<CodeFact>,
    owners: Seq<Option<Seq<char>>>,
) -> bool {
    &&& owners.len() == facts.len()
    &&& forall|k: int|
        0 <= k < facts.len() ==> owner_named(t, src, lang, nodes, facts, owner_above(t, src, lang, nodes[k]), #[trigger] owners[k])
}

/// One more fact, with the owner its node has, keeps every owner named.
pub proof fn lemma_owners_named_push(
    t: SyntaxTree,
    src: Seq<char>,
    lang: Language,
    nodes: Seq<int>,
    facts: Seq<CodeFact>,
    owners: Seq<Option<Seq<char>>>,
    n: int,
    f: CodeFact,
    o: Option<Seq<char>>,
)
    requires
        owners_named(t, src, lang, nodes, facts, owners),
        nodes.len() == facts.len(),
        owner_named(t, src, lang, nodes.push(n), facts.push(f), owner_above(t, src, lang, n), o),
    ensures
        owners_named(t, src, lang, nodes.push(n), facts.push(f), owners.push(o)),
{
    assert forall|k: int| 0 <= k < facts.push(f).len() implies owner_named(
        t,
        src,
        lang,
        nodes.push(n),
        facts.push(f),
        owner_above(t, src, lang, nodes.push(n)[k]),
        #[trigger] owners.push(o)[k],
    ) by {
        if k < facts.len() {
            assert(owners.push(o)[k] == owners[k]);
            assert(nodes.push(n)[k] == nodes[k]);
            assert(nodes.push(n).take(nodes.len() as int) =~= nodes);
            assert(facts.push(f).take(facts.len() as int) =~= facts);
            lemma_owner_named_grow(
                t,
                src,
                lang,
                nodes,
                facts,
                nodes.push(n),
                facts.push(f),
                owner_above(t, src, lang, nodes[k]),
                owners[k],
            );
        }
    }
}

/// The field a field node declares: its plain name, under its `name` or
/// `left` field, and the simple type it is annotated with.
pub open spec fn field_of(t: SyntaxTree, src: Seq<char>, n: int) -> Option<(Seq<char>, Seq<char>)> {
    match first_field_from(t, n, seq!["name"@, "left"@], 0) {
        None => None,
        Some(nn) => match field_child(t, n, "type"@) {
            None => None,
            Some(tn) => match (node_text(t, src, nn as int), simple_type_of(t, src, tn as int)) {
                (Some(name), Some(ty)) => if plain_identifier(name) {
                    Some((name, ty))
                } else {
                    None
                },
                _ => None,
            },
        },
    }
}

/// The field nodes a depth-first walk meets below node `node`, starting
/// at its `j`-th child, in the order it meets them.
pub open spec fn field_nodes_from(t: SyntaxTree, lang: Language, node: int, j: nat) -> Seq<int>
    decreases t.nodes.len() - node, t.nodes[node].children.len() - j,
{
    if node < 0 || node >= t.nodes.len() || j >= t.nodes[node].children.len() {
        Seq::empty()
    } else {
        let c = t.nodes[node].children[j as int] as int;
        let here = if c <= node || c >= t.nodes.len() || skipped(lang, t.nodes[c].kind@) {
            Seq::empty()
        } else {
            (if spec_field_nodes(lang).contains(t.nodes[c].kind@) {
                seq![c]
            } else {
                Seq::empty()
            }) + field_nodes_from(t, lang, c, 0)
        };
        here + field_nodes_from(t, lang, node, j + 1)
    }
}

/// The field nodes visiting node `c` meets.
pub open spec fn field_nodes_visited(t: SyntaxTree, lang: Language, c: int) -> Seq<int> {
    if skipped(lang, t.nodes[c].kind@) {
        Seq::empty()
    } else {
        (if spec_field_nodes(lang).contains(t.nodes[c].kind@) {
            seq![c]
        } else {
            Seq::empty()
        }) + field_nodes_from(t, lang, c, 0)
    }
}

/// The field nodes of the whole tree, in walk order.
pub open spec fn walked_fields(t: SyntaxTree, lang: Language) -> Seq<int> {
    field_nodes_from(t, lang, 0, 0)
}

/// The field types the field nodes declare, each under its owning type
/// (its entry in `owners`) and its name; a field node with no owning type,
/// or that declares no typed field, adds nothing, and of two fields with
/// one owner and name the later one's type stands.
pub open spec fn fields_of(t: SyntaxTree, src: Seq<char>, nodes: Seq<int>, owners: Seq<Option<Seq<char>>>) -> Map<
    (Seq<char>, Seq<char>),
    Seq<char>,
>
    decreases nodes.len(),
{
    if nodes.len() == 0 {
        Map::empty()
    } else {
        let i = nodes.len() - 1;
        let earlier = fields_of(t, src, nodes.take(i), owners.take(i));
        if owners[i] is Some && field_of(t, src, nodes[i]) is Some {
            let declared = field_of(t, src, nodes[i])->0;
            earlier.insert((owners[i]->0, declared.0), declared.1)
        } else {
            earlier
        }
    }
}

/// One more field node adds its field, when it has an owner and declares
/// one, to those before it.
pub proof fn lemma_fields_of_push(
    t: SyntaxTree,
    src: Seq<char>,
    nodes: Seq<int>,
    owners: Seq<Option<Seq<char>>>,
    n: int,
    o: Option<Seq<char>>,
)
    requires
        nodes.len() == owners.len(),
    ensures
        fields_of(t, src, nodes.push(n), owners.push(o)) == if o is Some && field_of(t, src, n) is Some {
            fields_of(t, src, nodes, owners).insert((o->0, (field_of(t, src, n)->0).0), (field_of(t, src, n)->0).1)
        } else {
            fields_of(t, src, nodes, owners)
        },
{
    assert(nodes.push(n).take(nodes.len() as int) =~= nodes);
    assert(owners.push(o).take(nodes.len() as int) =~= owners);
}

/// Each field node's entry in `owners` is the name of the type owning it
/// (none where no type does), as `owner_named` reads it off `facts`.
pub open spec fn field_owners_named(
    t: SyntaxTree,
    src: Seq<char>,
    lang: Language,
    nodes: Seq<int>,
    facts: Seq<CodeFact>,
    fields: Seq<int>,
    owners: Seq<Option<Seq<char>>>,
) -> bool {
    &&& owners.len() == fields.len()
    &&& forall|k: int|
        0 <= k < fields.len() ==> owner_named(t, src, lang, nodes, facts, owner_above(t, src, lang, fields[k]), #[trigger] owners[k])
}

/// More facts leave every field node's owner named.
pub proof fn lemma_field_owners_grow(
    t: SyntaxTree,
    src: Seq<char>,
    lang: Language,
    nodes: Seq<int>,
    facts: Seq<CodeFact>,
    nodes2: Seq<int>,
    facts2: Seq<CodeFact>,
    fields: Seq<int>,
    owners: Seq<Option<Seq<char>>>,
)
    requires
        field_owners_named(t, src, lang, nodes, facts, fields, owners),
        nodes.len() == facts.len(),
        facts.len() <= facts2.len(),
        nodes2.len() == facts2.len(),
        nodes2.take(nodes.len() as int) == nodes,
        facts2.take(facts.len() as int) == facts,
    ensures
        field_owners_named(t, src, lang, nodes2, facts2, fields, owners),
{
    assert forall|k: int| 0 <= k < fields.len() implies owner_named(
        t,
        src,
        lang,
        nodes2,
        facts2,
        owner_above(t, src, lang, fields[k]),
        #[trigger] owners[k],
    ) by {
        lemma_owner_named_grow(t, src, lang, nodes, facts, nodes2, facts2, owner_above(t, src, lang, fields[k]), owners[k]);
    }
}

/// One more field node, with the owner it has, keeps every owner named.
pub proof fn lemma_field_owners_push(
    t: SyntaxTree,
    src: Seq<char>,
    lang: Language,
    nodes: Seq<int>,
    facts: Seq<CodeFact>,
    fields: Seq<int>,
    owners: Seq<Option<Seq<char>>>,
    n: int,
    o: Option<Seq<char>>,
)
    requires
        field_owners_named(t, src, lang, nodes, facts, fields, owners),
        owner_named(t, src, lang, nodes, facts, owner_above(t, src, lang, n), o),
    ensures
        field_owners_named(t, src, lang, nodes, facts, fields.push(n), owners.push(o)),
{
    assert forall|k: int| 0 <= k < fields.push(n).len() implies owner_named(
        t,
        src,
        lang,
        nodes,
        facts,
        owner_above(t, src, lang, fields.push(n)[k]),
        #[trigger] owners.push(o)[k],
    ) by {
        if k < fields.len() {
            assert(owners.push(o)[k] == owners[k]);
            assert(fields.push(n)[k] == fields[k]);
        }
    }
}

/// The heritage clause `part` of type declaration `c` names, from its
/// `j`-th child on: each child whose simple type is not the clause's own
/// keyword, as (declaration, clause, child).
pub open spec fn heritage_targets(t: SyntaxTree, src: Seq<char>, c: int, part: int, keyword: Seq<char>, j: nat) -> Seq<
    (int, int, int),
>
    decreases t.nodes[part].children.len() - j,
{
    if part < 0 || part >= t.nodes.len() || j >= t.nodes[part].children.len() {
        Seq::empty()
    } else {
        let x = t.nodes[part].children[j as int] as int;
        (if simple_type_of(t, src, x) matches Some(n) && n != keyword {
            seq![(c, part, x)]
        } else {
            Seq::empty()
        }) + heritage_targets(t, src, c, part, keyword, j + 1)
    }
}

/// What the `extends` and `implements` clauses inside heritage node `h` of
/// type declaration `c` name, from the `j`-th clause on.
pub open spec fn clause_relations(t: SyntaxTree, src: Seq<char>, c: int, h: int, j: nat) -> Seq<(int, int, int)>
    decreases t.nodes[h].children.len() - j,
{
    if h < 0 || h >= t.nodes.len() || j >= t.nodes[h].children.len() {
        Seq::empty()
    } else {
        let q = t.nodes[h].children[j as int] as int;
        (if 0 <= q < t.nodes.len() && t.nodes[q].kind@ == "extends_clause"@ {
            heritage_targets(t, src, c, q, "extends"@, 0)
        } else if 0 <= q < t.nodes.len() && t.nodes[q].kind@ == "implements_clause"@ {
            heritage_targets(t, src, c, q, "implements"@, 0)
        } else {
            Seq::empty()
        }) + clause_relations(t, src, c, h, j + 1)
    }
}

/// What the heritage children of type declaration `c` name, from its
/// `j`-th child on: the `extends` and `implements` clauses, and a Python
/// class's superclass list, whose names it extends.
pub open spec fn heritage_from(t: SyntaxTree, src: Seq<char>, c: int, j: nat) -> Seq<(int, int, int)>
    decreases t.nodes[c].children.len() - j,
{
    if c < 0 || c >= t.nodes.len() || j >= t.nodes[c].children.len() {
        Seq::empty()
    } else {
        let h = t.nodes[c].children[j as int] as int;
        (if 0 <= h < t.nodes.len() && (t.nodes[h].kind@ == "class_heritage"@ || t.nodes[h].kind@
            == "extends_type_clause"@) {
            clause_relations(t, src, c, h, 0)
        } else if 0 <= h < t.nodes.len() && t.nodes[h].kind@ == "argument_list"@ && opt_string_is(
            t.nodes[h].field,
            "superclasses"@,
        ) {
            heritage_targets(t, src, c, h, "extends"@, 0)
        } else {
            Seq::empty()
        }) + heritage_from(t, src, c, j + 1)
    }
}

/// The relations node `c` states itself: a type declaration's heritage,
/// or the trait an `impl` block implements, as (`impl`, `impl`, trait).
pub open spec fn own_relations(t: SyntaxTree, src: Seq<char>, lang: Language, c: int) -> Seq<(int, int, int)> {
    if declares(lang, t.nodes[c].kind@) {
        if declares_type(lang, t.nodes[c].kind@) {
            heritage_from(t, src, c, 0)
        } else {
            Seq::empty()
        }
    } else if impl_segment(t, src, c) is Some {
        match field_child(t, c, "trait"@) {
            Some(x) => if simple_type_of(t, src, x as int) is Some {
                seq![(c, c, x as int)]
            } else {
                Seq::empty()
            },
            None => Seq::empty(),
        }
    } else {
        Seq::empty()
    }
}

/// The relations a depth-first walk meets below node `node`, starting at
/// its `j`-th child, in the order it meets them.
pub open spec fn relations_from(t: SyntaxTree, src: Seq<char>, lang: Language, node: int, j: nat) -> Seq<(int, int, int)>
    decreases t.nodes.len() - node, t.nodes[node].children.len() - j,
{
    if node < 0 || node >= t.nodes.len() || j >= t.nodes[node].children.len() {
        Seq::empty()
    } else {
        let c = t.nodes[node].children[j as int] as int;
        let here = if c <= node || c >= t.nodes.len() || skipped(lang, t.nodes[c].kind@) {
            Seq::empty()
        } else {
            own_relations(t, src, lang, c) + relations_from(t, src, lang, c, 0)
        };
        here + relations_from(t, src, lang, node, j + 1)
    }
}

/// The relations visiting node `c` records.
pub open spec fn relations_visited(t: SyntaxTree, src: Seq<char>, lang: Language, c: int) -> Seq<(int, int, int)> {
    if skipped(lang, t.nodes[c].kind@) {
        Seq::empty()
    } else {
        own_relations(t, src, lang, c) + relations_from(t, src, lang, c, 0)
    }
}

/// The relations of the whole tree, in walk order.
pub open spec fn walked_relations(t: SyntaxTree, src: Seq<char>, lang: Language) -> Seq<(int, int, int)> {
    relations_from(t, src, lang, 0, 0)
}

/// A relation recorded from its entry (owner, clause, target): the
/// target's simple type is the parent; the child is the type declared at
/// the owner (one of `facts`, read from `nodes`), or, where the owner is
/// its own clause, the type an `impl` block is for; and it is a trait
/// relation when it comes from an `implements` clause or an `impl` block.
pub open spec fn relation_from(
    t: SyntaxTree,
    src: Seq<char>,
    nodes: Seq<int>,
    facts: Seq<CodeFact>,
    e: (int, int, int),
    r: (String, String, bool),
) -> bool {
    &&& simple_type_of(t, src, e.2) == Some(r.1@)
    &&& if e.0 == e.1 {
        impl_segment(t, src, e.0) == Some(r.0@) && r.2
    } else {
        &&& exists|j: int| 0 <= j < facts.len() && nodes[j] == e.0 && r.0@ == (#[trigger] facts[j]).simple_name@
        &&& r.2 == (t.nodes[e.1].kind@ == "implements_clause"@)
    }
}

/// Each relation is the one recorded from its entry.
pub open spec fn relations_along(
    t: SyntaxTree,
    src: Seq<char>,
    nodes: Seq<int>,
    facts: Seq<CodeFact>,
    entries: Seq<(int, int, int)>,
    relations: Seq<(String, String, bool)>,
) -> bool {
    &&& entries.len() == relations.len()
    &&& forall|i: int|
        0 <= i < relations.len() ==> #[trigger] relation_from(t, src, nodes, facts, entries[i], relations[i])
}

/// More facts leave every relation's child where it was.
pub proof fn lemma_relations_along_grow(
    t: SyntaxTree,
    src: Seq<char>,
    nodes: Seq<int>,
    facts: Seq<CodeFact>,
    nodes2: Seq<int>,
    facts2: Seq<CodeFact>,
    entries: Seq<(int, int, int)>,
    relations: Seq<(String, String, bool)>,
)
    requires
        relations_along(t, src, nodes, facts, entries, relations),
        nodes.len() == facts.len(),
        facts.len() <= facts2.len(),
        nodes2.len() == facts2.len(),
        nodes2.take(nodes.len() as int) == nodes,
        facts2.take(facts.len() as int) == facts,
    ensures
        relations_along(t, src, nodes2, facts2, entries, relations),
{
    assert forall|i: int| 0 <= i < relations.len() implies #[trigger] relation_from(
        t,
        src,
        nodes2,
        facts2,
        entries[i],
        relations[i],
    ) by {
        assert(relation_from(t, src, nodes, facts, entries[i], relations[i]));
        if entries[i].0 != entries[i].1 {
            let j = choose|j: int|
                0 <= j < facts.len() && nodes[j] == entries[i].0 && relations[i].0@ == (#[trigger] facts[j]).simple_name@;
            assert(nodes2.take(nodes.len() as int)[j] == nodes2[j]);
            assert(facts2.take(facts.len() as int)[j] == facts2[j]);
        }
    }
}

/// One more relation recorded from its entry joins relations that all are.
pub proof fn lemma_relations_along_push(
    t: SyntaxTree,
    src: Seq<char>,
    nodes: Seq<int>,
    facts: Seq<CodeFact>,
    entries: Seq<(int, int, int)>,
    relations: Seq<(String, String, bool)>,
    e: (int, int, int),
    r: (String, String, bool),
)
    requires
        relations_along(t, src, nodes, facts, entries, relations),
        relation_from(t, src, nodes, facts, e, r),
    ensures
        relations_along(t, src, nodes, facts, entries.push(e), relations.push(r)),
{
    assert forall|i: int| 0 <= i < relations.push(r).len() implies #[trigger] relation_from(
        t,
        src,
        nodes,
        facts,
        entries.push(e)[i],
        relations.push(r)[i],
    ) by {
        if i < relations.len() {
            assert(entries.push(e)[i] == entries[i]);
            assert(relations.push(r)[i] == relations[i]);
        }
    }
}

/// The text before its first `<`.
pub open spec fn before_generics(s: Seq<char>) -> Seq<char>
    decreases s.len(),
{
    if s.len() == 0 || s[0] == '<' {
        Seq::empty()
    } else {
        seq![s[0]] + before_generics(s.drop_first())
    }
}

/// The type an `impl` block implements for, without generic arguments:
/// `Store` for `impl<T> Trait for Store<T>`; none when it is not an `impl`
/// block or names nothing.
pub open spec fn impl_segment(t: SyntaxTree, src: Seq<char>, n: int) -> Option<Seq<char>> {
    if t.nodes[n].kind@ != "impl_item"@ {
        None
    } else {
        match field_child(t, n, "type"@) {
            None => None,
            Some(tn) => match node_text(t, src, tn as int) {
                None => None,
                Some(x) => if trim_ws(before_generics(x)).len() == 0 {
                    None
                } else {
                    Some(trim_ws(before_generics(x)))
                },
            },
        }
    }
}

/// The node declares a type.
pub open spec fn declares_type(lang: Language, k: Seq<char>) -> bool {
    decl_form(lang, k) matches Some(form) && form.1 == ObjectType::Type
}

/// The node whose type owns what lies below node `n`: `n` itself when it
/// declares a type or is an `impl` block naming one, else the one owning
/// its parent; none at the root.
pub open spec fn owner_at(t: SyntaxTree, src: Seq<char>, lang: Language, n: int) -> Option<int>
    decreases n,
{
    if n <= 0 || n >= t.nodes.len() {
        None
    } else if declares_type(lang, t.nodes[n].kind@) || (!declares(lang, t.nodes[n].kind@) && impl_segment(t, src, n) is Some) {
        Some(n)
    } else {
        match t.nodes[n].parent {
            Some(p) => if p < n {
                owner_at(t, src, lang, p as int)
            } else {
                None
            },
            None => None,
        }
    }
}

/// The node whose type owns node `n`, below the root.
pub open spec fn owner_above(t: SyntaxTree, src: Seq<char>, lang: Language, n: int) -> Option<int> {
    match t.nodes[n].parent {
        Some(p) => owner_at(t, src, lang, p as int),
        None => None,
    }
}

/// The owning type's name an owner node gives: a type declaration's fact's
/// simple name (one of `facts`, read from `nodes`), an `impl` block's type.
pub open spec fn owner_named(
    t: SyntaxTree,
    src: Seq<char>,
    lang: Language,
    nodes: Seq<int>,
    facts: Seq<CodeFact>,
    owner: Option<int>,
    name: Option<Seq<char>>,
) -> bool {
    match owner {
        None => name is None,
        Some(a) => if declares(lang, t.nodes[a].kind@) {
            exists|j: int| 0 <= j < facts.len() && nodes[j] == a && name == Some((#[trigger] facts[j]).simple_name@)
        } else {
            name == impl_segment(t, src, a)
        },
    }
}

/// More facts leave an owner's name where it was.
pub proof fn lemma_owner_named_grow(
    t: SyntaxTree,
    src: Seq<char>,
    lang: Language,
    nodes: Seq<int>,
    facts: Seq<CodeFact>,
    nodes2: Seq<int>,
    facts2: Seq<CodeFact>,
    owner: Option<int>,
    name: Option<Seq<char>>,
)
    requires
        owner_named(t, src, lang, nodes, facts, owner, name),
        nodes.len() == facts.len(),
        facts.len() <= facts2.len(),
        nodes2.len() == facts2.len(),
        nodes2.take(nodes.len() as int) == nodes,
        facts2.take(facts.len() as int) == facts,
    ensures
        owner_named(t, src, lang, nodes2, facts2, owner, name),
{
    match owner {
        None => {},
        Some(a) => if declares(lang, t.nodes[a].kind@) {
            let j = choose|j: int| 0 <= j < facts.len() && nodes[j] == a && name == Some((#[trigger] facts[j]).simple_name@);
            assert(nodes2.take(nodes.len() as int)[j] == nodes2[j]);
            assert(facts2.take(facts.len() as int)[j] == facts2[j]);
        },
    }
}

/// A quote character: `"`, `'` or a backtick.
pub open spec fn is_quote(c: char) -> bool {
    c == '"' || c == '\'' || c == '`'
}

/// The text without its leading quote characters.
pub open spec fn strip_leading_quotes(s: Seq<char>) -> Seq<char>
    decreases s.len(),
{
    if s.len() > 0 && is_quote(s[0]) {
        strip_leading_quotes(s.drop_first())
    } else {
        s
    }
}

/// The text without its trailing quote characters.
pub open spec fn strip_trailing_quotes(s: Seq<char>) -> Seq<char>
    decreases s.len(),
{
    if s.len() > 0 && is_quote(s.last()) {
        strip_trailing_quotes(s.drop_last())
    } else {
        s
    }
}

/// An import specifier's text with its surrounding quotes removed.
pub open spec fn unquoted(s: Seq<char>) -> Seq<char> {
    strip_trailing_quotes(strip_leading_quotes(s))
}

/// Node kinds that name a module path outright: Rust `use` paths and
/// Python dotted names.
pub open spec fn module_path_kind(k: Seq<char>) -> bool {
    k == "scoped_identifier"@ || k == "identifier"@ || k == "dotted_name"@ || k == "relative_import"@
}

/// The specifiers beneath node `node`, taking its first `j` children from
/// the last back: a string literal gives its unquoted text, a module path
/// its text, each when not empty; any other node gives the specifiers
/// beneath it.
pub open spec fn specifiers_from(t: SyntaxTree, src: Seq<char>, lang: Language, node: int, j: nat) -> Seq<Seq<char>>
    decreases t.nodes.len() - node, j,
{
    if node < 0 || node >= t.nodes.len() || j == 0 || j > t.nodes[node].children.len() {
        Seq::empty()
    } else {
        let c = t.nodes[node].children[j - 1] as int;
        let here = if c <= node || c >= t.nodes.len() {
            Seq::empty()
        } else if spec_string_nodes(lang).contains(t.nodes[c].kind@) {
            match node_text(t, src, c) {
                Some(x) => if unquoted(x).len() > 0 {
                    seq![unquoted(x)]
                } else {
                    Seq::empty()
                },
                None => Seq::empty(),
            }
        } else if module_path_kind(t.nodes[c].kind@) {
            match node_text(t, src, c) {
                Some(x) => if x.len() > 0 {
                    seq![x]
                } else {
                    Seq::empty()
                },
                None => Seq::empty(),
            }
        } else {
            specifiers_from(t, src, lang, c, t.nodes[c].children.len() as nat)
        };
        here + specifiers_from(t, src, lang, node, (j - 1) as nat)
    }
}

/// The specifiers an import node names, each with the node's line.
pub open spec fn import_specifiers(t: SyntaxTree, src: Seq<char>, lang: Language, n: int) -> Seq<(Seq<char>, u32)> {
    specifiers_from(t, src, lang, n, t.nodes[n].children.len() as nat).map_values(
        |x: Seq<char>| (x, spec_line_number(t.nodes[n].start_row)),
    )
}

/// The specifiers of each import a depth-first walk meets below node
/// `node`, starting at its `j`-th child, in the order it meets them. The
/// walk records an import and still looks inside it.
pub open spec fn imports_from(t: SyntaxTree, src: Seq<char>, lang: Language, node: int, j: nat) -> Seq<(Seq<char>, u32)>
    decreases t.nodes.len() - node, t.nodes[node].children.len() - j,
{
    if node < 0 || node >= t.nodes.len() || j >= t.nodes[node].children.len() {
        Seq::empty()
    } else {
        let c = t.nodes[node].children[j as int] as int;
        let here = if c <= node || c >= t.nodes.len() || commentary(lang, t.nodes[c].kind@) {
            Seq::empty()
        } else {
            let own = if spec_import_nodes(lang).contains(t.nodes[c].kind@) {
                import_specifiers(t, src, lang, c)
            } else {
                Seq::empty()
            };
            own + if spec_string_nodes(lang).contains(t.nodes[c].kind@) {
                Seq::empty()
            } else {
                imports_from(t, src, lang, c, 0)
            }
        };
        here + imports_from(t, src, lang, node, j + 1)
    }
}

/// What visiting node `c` records of imports.
pub open spec fn imports_visited(t: SyntaxTree, src: Seq<char>, lang: Language, c: int) -> Seq<(Seq<char>, u32)> {
    if commentary(lang, t.nodes[c].kind@) {
        Seq::empty()
    } else {
        let own = if spec_import_nodes(lang).contains(t.nodes[c].kind@) {
            import_specifiers(t, src, lang, c)
        } else {
            Seq::empty()
        };
        own + if spec_string_nodes(lang).contains(t.nodes[c].kind@) {
            Seq::empty()
        } else {
            imports_from(t, src, lang, c, 0)
        }
    }
}

/// The imports of the whole tree, in walk order.
pub open spec fn walked_imports(t: SyntaxTree, src: Seq<char>, lang: Language) -> Seq<(Seq<char>, u32)> {
    imports_from(t, src, lang, 0, 0)
}

/// What visiting node `c` contributes: nothing if it is skipped, else
/// itself if it is a declaration, then the declarations below it.
pub open spec fn visited(t: SyntaxTree, lang: Language, c: int) -> Seq<int> {
    if skipped(lang, t.nodes[c].kind@) {
        Seq::empty()
    } else if declares(lang, t.nodes[c].kind@) {
        seq![c] + walked_from(t, lang, c, 0)
    } else {
        walked_from(t, lang, c, 0)
    }
}

/// The declaration nodes of the whole tree, in the order the walk from the
/// root meets them.
pub open spec fn walked_declarations(t: SyntaxTree, lang: Language) -> Seq<int> {
    walked_from(t, lang, 0, 0)
}

/// Each fact is the one its node yields, node for fact.
pub open spec fn declared_along(t: SyntaxTree, src: Seq<char>, lang: Language, nodes: Seq<int>, facts: Seq<CodeFact>) -> bool {
    &&& nodes.len() == facts.len()
    &&& forall|i: int| 0 <= i < facts.len() ==> declared_by(t, src, lang, #[trigger] nodes[i], facts[i])
}

/// A fact and the node that yields it may join facts and nodes that match.
pub proof fn lemma_declared_along_push(
    t: SyntaxTree,
    src: Seq<char>,
    lang: Language,
    nodes: Seq<int>,
    facts: Seq<CodeFact>,
    n: int,
    f: CodeFact,
)
    requires
        declared_along(t, src, lang, nodes, facts),
        declared_by(t, src, lang, n, f),
    ensures
        declared_along(t, src, lang, nodes.push(n), facts.push(f)),
{
    assert forall|i: int| 0 <= i < facts.push(f).len() implies declared_by(t, src, lang, #[trigger] nodes.push(n)[i], facts.push(f)[i]) by {
        if i < facts.len() {
            assert(nodes.push(n)[i] == nodes[i]);
            assert(facts.push(f)[i] == facts[i]);
        }
    }
}

/// The declaration enclosing what lies below node `n`: `n` itself when it
/// is a declaration, else the one enclosing its parent; none at the root.
pub open spec fn enclosing_at(t: SyntaxTree, lang: Language, n: int) -> Option<int>
    decreases n,
{
    if n <= 0 || n >= t.nodes.len() {
        None
    } else if declares(lang, t.nodes[n].kind@) {
        Some(n)
    } else {
        match t.nodes[n].parent {
            Some(p) => if p < n {
                enclosing_at(t, lang, p as int)
            } else {
                None
            },
            None => None,
        }
    }
}

/// The declaration enclosing node `n`, below the root.
pub open spec fn enclosing_above(t: SyntaxTree, lang: Language, n: int) -> Option<int> {
    match t.nodes[n].parent {
        Some(p) => enclosing_at(t, lang, p as int),
        None => None,
    }
}

/// Fact `k` hangs beneath the fact of the declaration that encloses its
/// node, which comes earlier, or beneath the file when none does.
pub open spec fn parent_placed(
    t: SyntaxTree,
    lang: Language,
    file: Seq<char>,
    nodes: Seq<int>,
    facts: Seq<CodeFact>,
    k: int,
) -> bool {
    &&& facts[k].parent is Some
    &&& match enclosing_above(t, lang, nodes[k]) {
        None => facts[k].parent->0@ == file,
        Some(a) => exists|j: int|
            0 <= j < k && nodes[j] == a && (#[trigger] facts[j]).qualified_name@ == facts[k].parent->0@,
    }
}

/// Every fact hangs beneath the fact of its enclosing declaration, or the
/// file.
pub open spec fn parents_placed(t: SyntaxTree, lang: Language, file: Seq<char>, nodes: Seq<int>, facts: Seq<CodeFact>) -> bool {
    forall|k: int| 0 <= k < facts.len() ==> #[trigger] parent_placed(t, lang, file, nodes, facts, k)
}

/// A fact placed beneath its enclosing declaration may join facts that all
/// are.
pub proof fn lemma_parents_placed_push(
    t: SyntaxTree,
    lang: Language,
    file: Seq<char>,
    nodes: Seq<int>,
    facts: Seq<CodeFact>,
    n: int,
    f: CodeFact,
)
    requires
        nodes.len() == facts.len(),
        parents_placed(t, lang, file, nodes, facts),
        parent_placed(t, lang, file, nodes.push(n), facts.push(f), facts.len() as int),
    ensures
        parents_placed(t, lang, file, nodes.push(n), facts.push(f)),
{
    let nodes2 = nodes.push(n);
    let facts2 = facts.push(f);
    assert forall|k: int| 0 <= k < facts2.len() implies #[trigger] parent_placed(t, lang, file, nodes2, facts2, k) by {
        if k < facts.len() {
            assert(parent_placed(t, lang, file, nodes, facts, k));
            assert(nodes2[k] == nodes[k]);
            assert(facts2[k] == facts[k]);
            match enclosing_above(t, lang, nodes[k]) {
                None => {},
                Some(a) => {
                    let j = choose|j: int|
                        0 <= j < k && nodes[j] == a && (#[trigger] facts[j]).qualified_name@ == facts[k].parent->0@;
                    assert(nodes2[j] == nodes[j] && facts2[j] == facts[j]);
                },
            }
        }
    }
}

/// A test's name: `test_…`, or `test` followed by more.
pub open spec fn test_name(x: Seq<char>) -> bool {
    starts_with(x, "test_"@) || (starts_with(x, "test"@) && x.len() > 4)
}

/// The position of `n` among the children, looking from the `j`-th on;
/// their count when it is not among them.
pub open spec fn child_position(cs: Seq<usize>, n: usize, j: nat) -> nat
    decreases cs.len() - j,
{
    if j >= cs.len() {
        cs.len()
    } else if cs[j as int] == n {
        j
    } else {
        child_position(cs, n, j + 1)
    }
}

/// Walking back from the child of `p` just before position `pos`: an
/// attribute whose text mentions `test` comes before anything that is not
/// an attribute.
pub open spec fn test_attribute_before(t: SyntaxTree, src: Seq<char>, lang: Language, p: int, pos: nat) -> bool
    decreases pos,
{
    if pos == 0 || pos > t.nodes[p].children.len() {
        false
    } else {
        let prev = t.nodes[p].children[pos - 1] as int;
        if !spec_attribute_nodes(lang).contains(t.nodes[prev].kind@) {
            false
        } else if node_text(t, src, prev) is Some && first_match(node_text(t, src, prev)->0, "test"@) != -1 {
            true
        } else {
            test_attribute_before(t, src, lang, p, (pos - 1) as nat)
        }
    }
}

/// A declaration named `name` at node `n` is recognized as a test: by its
/// name, or by a test attribute just before it.
pub open spec fn test_like(t: SyntaxTree, src: Seq<char>, lang: Language, n: int, name: Seq<char>) -> bool {
    test_name(name) || (t.nodes[n].parent is Some && test_attribute_before(
        t,
        src,
        lang,
        t.nodes[n].parent->0 as int,
        child_position(t.nodes[t.nodes[n].parent->0 as int].children@, n as usize, 0),
    ))
}

/// The declaration at node `n`, by the name it states, is recognized as a
/// test.
pub open spec fn test_declaration(t: SyntaxTree, src: Seq<char>, lang: Language, n: int) -> bool {
    test_like(
        t,
        src,
        lang,
        n,
        match declared_name(t, src, lang, n) {
            Some(x) => x,
            None => "<"@,
        },
    )
}

/// Node `n` lies within a test: it, or a declaration above it below the
/// root, is recognized as one.
pub open spec fn tested_at(t: SyntaxTree, src: Seq<char>, lang: Language, n: int) -> bool
    decreases n,
{
    if n <= 0 || n >= t.nodes.len() {
        false
    } else if declares(lang, t.nodes[n].kind@) && test_declaration(t, src, lang, n) {
        true
    } else {
        match t.nodes[n].parent {
            Some(p) => if p < n {
                tested_at(t, src, lang, p as int)
            } else {
                false
            },
            None => false,
        }
    }
}

/// Node `n` lies within a test declaration above it.
pub open spec fn tested_above(t: SyntaxTree, src: Seq<char>, lang: Language, n: int) -> bool {
    match t.nodes[n].parent {
        Some(p) => tested_at(t, src, lang, p as int),
        None => false,
    }
}

/// A declaration just after an attribute whose text mentions `test`
/// anywhere (`#[test]`, `#[tokio::test]`, `#[rstest]`) is recognized as a
/// test, whatever its name, and so is everything within it.
pub proof fn law_test_attributes_mark_tests(
    t: SyntaxTree,
    src: Seq<char>,
    lang: Language,
    n: int,
    name: Seq<char>,
    before: Seq<char>,
    after: Seq<char>,
)
    requires
        0 <= n < t.nodes.len(),
        t.nodes[n].parent is Some,
        0 <= t.nodes[n].parent->0 < t.nodes.len(),
        0 < child_position(t.nodes[t.nodes[n].parent->0 as int].children@, n as usize, 0),
        ({
            let p = t.nodes[n].parent->0 as int;
            let pos = child_position(t.nodes[p].children@, n as usize, 0);
            let prev = t.nodes[p].children[pos - 1] as int;
            &&& spec_attribute_nodes(lang).contains(t.nodes[prev].kind@)
            &&& node_text(t, src, prev) == Some(before + "test"@ + after)
        }),
    ensures
        test_like(t, src, lang, n, name),
        test_declaration(t, src, lang, n),
        0 < n && declares(lang, t.nodes[n].kind@) ==> tested_at(t, src, lang, n),
{
    let p = t.nodes[n].parent->0 as int;
    let pos = child_position(t.nodes[p].children@, n as usize, 0);
    lemma_child_position_bound(t.nodes[p].children@, n as usize, 0);
    let text = before + "test"@ + after;
    lemma_first_match(text, "test"@);
    reveal_strlit("test");
    assert(text.subrange(before.len() as int, before.len() as int + 4) =~= "test"@);
    assert(matches_at(text, "test"@, before.len() as int));
    assert(first_match(text, "test"@) != -1);
    assert(test_attribute_before(t, src, lang, p, pos));
}

proof fn lemma_child_position_bound(cs: Seq<usize>, n: usize, j: nat)
    ensures
        child_position(cs, n, j) <= cs.len(),
    decreases cs.len() - j,
{
    if j < cs.len() && cs[j as int] != n {
        lemma_child_position_bound(cs, n, j + 1);
    }
}

/// A configuration's first declaration form for a kind is the language's.
pub proof fn lemma_first_decl_is_form(cfg: LanguageConfig, lang: Language, k: Seq<char>)
    requires
        cfg.describes(lang),
    ensures
        match first_decl(cfg.decls@, k) {
            Some(d) => decl_form(lang, k) == Some(decl_text(d)),
            None => decl_form(lang, k) is None,
        },
{
    let forms = cfg.decls@.map_values(|d: DeclKind| decl_text(d));
    assert(forms == spec_decls(lang));
    lemma_first_decl_from(cfg.decls@, k, 0);
}

proof fn lemma_first_decl_from(decls: Seq<DeclKind>, k: Seq<char>, i: nat)
    ensures
        match first_decl_from(decls, k, i) {
            Some(d) => form_from(decls.map_values(|d: DeclKind| decl_text(d)), k, i) == Some(decl_text(d)),
            None => form_from(decls.map_values(|d: DeclKind| decl_text(d)), k, i) is None,
        },
    decreases decls.len() - i,
{
    if i < decls.len() {
        lemma_first_decl_from(decls, k, i + 1);
    }
}

} // verus!
