//! Per-file parsing into structural facts.
//!
//! The error policy keys on identity recoverability, not on error presence.
//! A declaration whose name the grammar could read is emitted even when its
//! body is mid-edit; only a construct the grammar could not resolve as a
//! declaration at all contributes nothing. Extraction has to work on trees
//! that do not compile.

use vstd::prelude::*;

use crate::declared::{
    declared_along, visited, walked_from, walked_declarations, declared_by, comment_nodes_from,
    comment_nodes_visited, comments_along, comment_from, enclosing_at, call_nodes_from, call_nodes_visited,
    calls_along, call_from, call_of, callable_at, callable_above, scope_placed, scope_key, walked_calls,
    value_source, source_view, simple_type_of, binding_of, parameter_binding_of, parameters_from, parameter_bindings,
    own_bindings, bindings_from, bindings_visited, walked_bindings, binding_from, bindings_along, declares_callable,
    before_generics, impl_segment, declares_type, owner_at, owner_above, owner_named, enclosing_above, parent_placed, parents_placed, test_like, child_position, test_attribute_before,
    tested_at, tested_above, test_declaration,
    heritage_targets, clause_relations, heritage_from, own_relations, relations_from, relations_visited,
    walked_relations, relation_from, relations_along, declared_return, returns_of, enclosings_of, owners_named,
    field_of, field_nodes_from, field_nodes_visited, walked_fields, fields_of, field_owners_named,
    walked_comments, import_specifiers, specifiers_from, imports_from, imports_visited, walked_imports, unquoted,
    strip_leading_quotes, strip_trailing_quotes, declared_signature, declared_visibility, first_field_from, kind_child_from,
    normalized_type, opt_chars, rendered_parameter, rendered_upto, comma_joined, exported, node_span, inheriting_above, node_text, trait_impl_above, type_member,
    visibility_modifier,
};
use crate::code_parse::{error_position, first_error_position, line_number, spec_line_number};
use crate::facts::{CodeFact, Diagnostic, LineSpan, ObjectType, Visibility};
use crate::lang::{holds, texts, DeclKind, Language, LanguageConfig, VisibilityStyle};
use crate::naming::{anonymous_segment, child_name, decimal_chars, file_name, spec_file_name};
use crate::order::same_text;
use crate::parse::{
    collapse_whitespace, is_plain_identifier, python_visibility, simplify_type, split_call_path,
    CallSite, CommentText, SourceFile,
};
use crate::syntax::{arena_of, child_by_field, depths_valid, field_child, grammar_nodes, range_text_of, syntax_tree, SyntaxTree};
use crate::table::opt_text;
use crate::table::{PairMap, TextMap};
use crate::text::{
    chars_of, extend_chars, find_text, has_prefix, slice_chars, starts_uppercase, string_of,
    trim_chars,
};
use crate::typeenv::{RawBinding, TypeSource, FILE_SCOPE};

verus! {

/// Maximum accepted file size in bytes. Beyond this a diagnostic is returned
/// rather than an unbounded parse.
pub const MAX_FILE_BYTES: usize = 8 * 1024 * 1024;

/// What parsing one file recovered.
#[derive(Debug)]
pub struct ParsedFile {
    pub facts: Vec<CodeFact>,
    pub diagnostics: Vec<Diagnostic>,
    /// Import specifiers with the line they appear on.
    pub imports: Vec<(String, u32)>,
    /// Comment and attribute text with its line.
    pub comments: Vec<CommentText>,
    /// Qualified name of the file's own `code_file` fact.
    pub file_qualified_name: String,
    /// Local bindings, for the type environment.
    pub bindings: Vec<RawBinding>,
    /// Call sites awaiting resolution.
    pub calls: Vec<CallSite>,
    /// Scope key -> the type enclosing it, for `self` / `this` receivers.
    pub enclosing_types: TextMap,
    /// Declared return types: qualified callable name -> simple type name.
    pub return_types: TextMap,
    /// Declared field types: (simple type name, field) -> simple type name.
    pub field_types: PairMap,
    /// Type relations: (child simple name, parent simple name, is_trait).
    pub type_relations: Vec<(String, String, bool)>,
}

/// Each import specifier with its line.
pub open spec fn import_views(imports: Seq<(String, u32)>) -> Seq<(Seq<char>, u32)> {
    imports.map_values(|i: (String, u32)| (i.0@, i.1))
}

/// The specifiers, each on the given line.
pub open spec fn at_line(specs: Seq<Seq<char>>, line: u32) -> Seq<(Seq<char>, u32)> {
    specs.map_values(|x: Seq<char>| (x, line))
}

proof fn lemma_at_line_add(a: Seq<Seq<char>>, b: Seq<Seq<char>>, line: u32)
    ensures
        at_line(a + b, line) == at_line(a, line) + at_line(b, line),
{
    assert(at_line(a + b, line) =~= at_line(a, line) + at_line(b, line));
}

/// `q` is the file's own name or the name of one of the facts.
pub open spec fn names_a_fact(facts: Seq<CodeFact>, file: Seq<char>, q: Seq<char>) -> bool {
    q == file || exists|i: int| 0 <= i < facts.len() && #[trigger] facts[i].qualified_name@ == q
}

/// Every fact lies in the file at `path`, and its parent is the file or a
/// fact emitted before it.
pub open spec fn facts_placed(facts: Seq<CodeFact>, file: Seq<char>, path: Seq<char>) -> bool {
    forall|i: int|
        0 <= i < facts.len() ==> (#[trigger] facts[i]).path@ == path && (facts[i].parent matches Some(p)
            && names_a_fact(facts.take(i), file, p@))
}

/// What the walker knows about where it currently is.

struct Context {
    /// Nearest enclosing declaration contributing a name segment.
    name_parent: String,
    /// Nearest enclosing fact, for containment.
    contain_parent: String,
    /// The declaration node that fact was read from; none for the file.
    contain_node: Ghost<Option<int>>,
    /// The callable whose scope `scope` keys; none for the file's.
    scope_node: Ghost<Option<int>>,
    /// The node whose type `owning_type` names; none when none does.
    owner_node: Ghost<Option<int>>,
    /// Scope key for binding lookup: `""` at file level, `name@line` inside
    /// a callable.
    scope: String,
    /// Simple name of the type whose body we are inside, for `self`.
    owning_type: Option<String>,
    in_test: bool,
}

struct Walker<'a> {
    source: &'a str,
    tree: &'a SyntaxTree,
    language: Language,
    config: LanguageConfig,
    path: String,
    file: String,
    facts: Vec<CodeFact>,
    comments: Vec<CommentText>,
    imports: Vec<(String, u32)>,
    /// (parent qualified name, kind, next ordinal), for anonymous segments.
    anon_counters: Vec<(String, &'static str, usize)>,
    bindings: Vec<RawBinding>,
    calls: Vec<CallSite>,
    enclosing_types: TextMap,
    return_types: TextMap,
    field_types: PairMap,
    type_relations: Vec<(String, String, bool)>,
    /// The declaration node each fact was read from.
    fact_nodes: Ghost<Seq<int>>,
    /// The node each comment was read from.
    comment_nodes: Ghost<Seq<int>>,
    /// The node each call site was read from.
    call_nodes: Ghost<Seq<int>>,
    /// The node each binding was read from, with the callable for a
    /// parameter (`-1` otherwise).
    binding_entries: Ghost<Seq<(int, int)>>,
    /// The (owner, clause, target) nodes each type relation was read from.
    relation_entries: Ghost<Seq<(int, int, int)>>,
    /// The name of the type owning each fact's node, if any.
    fact_owners: Ghost<Seq<Option<Seq<char>>>>,
    /// The field nodes met, in walk order.
    field_nodes: Ghost<Seq<int>>,
    /// The name of the type owning each field node, if any.
    field_owners: Ghost<Seq<Option<Seq<char>>>>,
}

impl<'a> Walker<'a> {
    /// What every step of the walk keeps: the tree is well formed, every
    /// fact sits in this file under the file or an earlier fact, and every
    /// comment and call belongs to the file or to a fact.
    spec fn good(&self) -> bool {
        &&& self.tree.wf()
        &&& self.config.describes(self.language)
        &&& facts_placed(self.facts@, self.file@, self.path@)
        &&& forall|i: int|
            0 <= i < self.comments.len() ==> names_a_fact(self.facts@, self.file@, #[trigger] self.comments[i].owner@)
        &&& forall|i: int|
            0 <= i < self.calls.len() ==> names_a_fact(self.facts@, self.file@, #[trigger] self.calls[i].caller@)
        &&& declared_along(*self.tree, self.source@, self.language, self.fact_nodes@, self.facts@)
        &&& parents_placed(*self.tree, self.language, self.file@, self.fact_nodes@, self.facts@)
        &&& comments_along(
            *self.tree,
            self.source@,
            self.language,
            self.file@,
            self.fact_nodes@,
            self.facts@,
            self.comment_nodes@,
            self.comments@,
        )
        &&& calls_along(
            *self.tree,
            self.source@,
            self.language,
            self.file@,
            self.fact_nodes@,
            self.facts@,
            self.call_nodes@,
            self.calls@,
        )
        &&& bindings_along(
            *self.tree,
            self.source@,
            self.language,
            self.fact_nodes@,
            self.facts@,
            self.binding_entries@,
            self.bindings@,
        )
        &&& relations_along(
            *self.tree,
            self.source@,
            self.fact_nodes@,
            self.facts@,
            self.relation_entries@,
            self.type_relations@,
        )
        &&& self.return_types@ == returns_of(*self.tree, self.source@, self.fact_nodes@, self.facts@)
        &&& owners_named(*self.tree, self.source@, self.language, self.fact_nodes@, self.facts@, self.fact_owners@)
        &&& self.enclosing_types@ == enclosings_of(self.facts@, self.fact_owners@)
        &&& field_owners_named(
            *self.tree,
            self.source@,
            self.language,
            self.fact_nodes@,
            self.facts@,
            self.field_nodes@,
            self.field_owners@,
        )
        &&& self.field_types@ == fields_of(*self.tree, self.source@, self.field_nodes@, self.field_owners@)
    }

    /// The context's scope key is the file's, or that of the callable its
    /// scope node declares.
    spec fn keys_scope(&self, ctx: &Context) -> bool {
        scope_placed(ctx.scope_node@, self.fact_nodes@, self.facts@, ctx.scope@)
    }

    /// The context's owning type is the one its owner node names.
    spec fn owns(&self, ctx: &Context) -> bool {
        owner_named(
            *self.tree,
            self.source@,
            self.language,
            self.fact_nodes@,
            self.facts@,
            ctx.owner_node@,
            opt_chars(ctx.owning_type),
        )
    }

    /// The context's containment parent is the file, or the fact read from
    /// its containment node.
    spec fn names_node(&self, ctx: &Context) -> bool {
        match ctx.contain_node@ {
            None => ctx.contain_parent@ == self.file@,
            Some(a) => exists|k: int|
                0 <= k < self.facts.len() && self.fact_nodes@[k] == a && (#[trigger] self.facts@[k]).qualified_name@
                    == ctx.contain_parent@,
        }
    }

    /// The parts of the walker no step changes.
    spec fn same_frame(&self, other: &Self) -> bool {
        &&& self.source == other.source
        &&& self.tree == other.tree
        &&& self.config == other.config
        &&& self.language == other.language
        &&& self.path == other.path
        &&& self.file == other.file
    }

    /// The facts only ever grow at the end.
    spec fn extends(&self, other: &Self) -> bool {
        &&& other.facts.len() <= self.facts.len()
        &&& self.facts@.take(other.facts.len() as int) == other.facts@
    }

    /// The text a node spans.
    fn text(&self, n: usize) -> (r: Option<&'a str>)
        requires
            n < self.tree.nodes.len(),
        ensures
            opt_text(r) == node_text(*self.tree, self.source@, n as int),
    {
        range_text_of(self.source, self.tree.nodes[n].start_byte, self.tree.nodes[n].end_byte)
    }

    fn first_field(&self, n: usize, fields: &Vec<&'static str>) -> (r: Option<usize>)
        requires
            self.tree.wf(),
            n < self.tree.nodes.len(),
        ensures
            r matches Some(c) ==> n < c < self.tree.nodes.len(),
            r == first_field_from(*self.tree, n as int, texts(fields@), 0),
    {
        let mut i: usize = 0;
        while i < fields.len()
            invariant
                self.tree.wf(),
                n < self.tree.nodes.len(),
                first_field_from(*self.tree, n as int, texts(fields@), 0) == first_field_from(
                    *self.tree,
                    n as int,
                    texts(fields@),
                    i as nat,
                ),
            decreases fields.len() - i,
        {
            match child_by_field(self.tree, n, fields[i]) {
                Some(c) => {
                    return Some(c);
                },
                None => {},
            }
            i = i + 1;
        }
        None
    }

    fn field(&self, n: usize, name: &str) -> (r: Option<usize>)
        requires
            self.tree.wf(),
            n < self.tree.nodes.len(),
        ensures
            r matches Some(c) ==> n < c < self.tree.nodes.len(),
            r == field_child(*self.tree, n as int, name@),
    {
        child_by_field(self.tree, n, name)
    }

    /// Walk `node` in `ctx`, emitting facts and collecting the inputs the
    /// type environment needs.
    #[verifier::rlimit(60)]
    #[verifier::spinoff_prover]
    fn walk(&mut self, node: usize, ctx: &Context)
        requires
            old(self).good(),
            node < old(self).tree.nodes.len(),
            names_a_fact(old(self).facts@, old(self).file@, ctx.contain_parent@),
            old(self).names_node(ctx),
            ctx.contain_node@ == enclosing_at(*old(self).tree, old(self).language, node as int),
            ctx.in_test == tested_at(*old(self).tree, old(self).source@, old(self).language, node as int),
            old(self).keys_scope(ctx),
            ctx.scope_node@ == callable_at(*old(self).tree, old(self).language, node as int),
            old(self).owns(ctx),
            ctx.owner_node@ == owner_at(*old(self).tree, old(self).source@, old(self).language, node as int),
        ensures
            final(self).good(),
            final(self).same_frame(&*old(self)),
            final(self).extends(&*old(self)),
            final(self).fact_nodes@ == old(self).fact_nodes@ + walked_from(
                *old(self).tree,
                old(self).language,
                node as int,
                0,
            ),
            final(self).comment_nodes@ == old(self).comment_nodes@ + comment_nodes_from(
                *old(self).tree,
                old(self).source@,
                old(self).language,
                node as int,
                0,
            ),
            import_views(final(self).imports@) == import_views(old(self).imports@) + imports_from(
                *old(self).tree,
                old(self).source@,
                old(self).language,
                node as int,
                0,
            ),
            final(self).call_nodes@ == old(self).call_nodes@ + call_nodes_from(
                *old(self).tree,
                old(self).source@,
                old(self).language,
                node as int,
                0,
            ),
            final(self).binding_entries@ == old(self).binding_entries@ + bindings_from(
                *old(self).tree,
                old(self).source@,
                old(self).language,
                node as int,
                0,
            ),
            final(self).relation_entries@ == old(self).relation_entries@ + relations_from(
                *old(self).tree,
                old(self).source@,
                old(self).language,
                node as int,
                0,
            ),
            final(self).field_nodes@ == old(self).field_nodes@ + field_nodes_from(
                *old(self).tree,
                old(self).language,
                node as int,
                0,
            ),
        decreases old(self).tree.nodes.len() - node, 0int,
    {
        let t = self.tree;
        let children = &t.nodes[node].children;
        let ghost start = *self;
        proof {
            lemma_extends_refl(&*self);
            lemma_walk_start(&*self, node as int);
        }
        let mut j: usize = 0;
        while j < children.len()
            invariant
                t == self.tree,
                t == old(self).tree,
                node < t.nodes.len(),
                children == &t.nodes[node as int].children,
                self.good(),
                self.same_frame(&start),
                self.extends(&start),
                names_a_fact(self.facts@, self.file@, ctx.contain_parent@),
                self.names_node(ctx),
                ctx.contain_node@ == enclosing_at(*t, self.language, node as int),
                ctx.in_test == tested_at(*t, self.source@, self.language, node as int),
                self.keys_scope(ctx),
                ctx.scope_node@ == callable_at(*t, self.language, node as int),
                self.owns(ctx),
                ctx.owner_node@ == owner_at(*t, self.source@, self.language, node as int),
                j <= children.len(),
                self.walk_progress(&start, node as int, j as nat),
            decreases children.len() - j,
        {
            let child = children[j];
            proof {
                assert(node < child < t.nodes.len());
            }
            let ghost before = *self;
            assert(t.nodes[child as int].parent == Some(node));
            self.visit(child, ctx);
            proof {
                lemma_extends_trans(&*self, &before, &start);
                lemma_names_grow(before.facts@, self.facts@, self.file@, ctx.contain_parent@);
                lemma_names_node_grow(&before, &*self, ctx, visited(*t, self.language, child as int));
                lemma_keys_scope_grow(&before, &*self, ctx, visited(*t, self.language, child as int));
                lemma_owns_grow(&before, &*self, ctx, visited(*t, self.language, child as int));
                lemma_walk_advance(&start, &before, &*self, node as int, j as nat);
            }
            j = j + 1;
        }
        proof {
            lemma_walk_done(&start, &*self, node as int, j as nat);
        }
    }

    /// One child of a walked node.
    #[verifier::rlimit(100)]
    #[verifier::spinoff_prover]
    fn visit(&mut self, child: usize, ctx: &Context)
        requires
            old(self).good(),
            child < old(self).tree.nodes.len(),
            names_a_fact(old(self).facts@, old(self).file@, ctx.contain_parent@),
            old(self).names_node(ctx),
            0 < child,
            ctx.contain_node@ == enclosing_above(*old(self).tree, old(self).language, child as int),
            ctx.in_test == tested_above(*old(self).tree, old(self).source@, old(self).language, child as int),
            old(self).keys_scope(ctx),
            ctx.scope_node@ == callable_above(*old(self).tree, old(self).language, child as int),
            old(self).owns(ctx),
            ctx.owner_node@ == owner_above(*old(self).tree, old(self).source@, old(self).language, child as int),
        ensures
            final(self).good(),
            final(self).same_frame(&*old(self)),
            final(self).extends(&*old(self)),
            final(self).fact_nodes@ == old(self).fact_nodes@ + visited(*old(self).tree, old(self).language, child as int),
            final(self).comment_nodes@ == old(self).comment_nodes@ + comment_nodes_visited(
                *old(self).tree,
                old(self).source@,
                old(self).language,
                child as int,
            ),
            import_views(final(self).imports@) == import_views(old(self).imports@) + imports_visited(
                *old(self).tree,
                old(self).source@,
                old(self).language,
                child as int,
            ),
            final(self).call_nodes@ == old(self).call_nodes@ + call_nodes_visited(
                *old(self).tree,
                old(self).source@,
                old(self).language,
                child as int,
            ),
            final(self).binding_entries@ == old(self).binding_entries@ + bindings_visited(
                *old(self).tree,
                old(self).source@,
                old(self).language,
                child as int,
            ),
            final(self).relation_entries@ == old(self).relation_entries@ + relations_visited(
                *old(self).tree,
                old(self).source@,
                old(self).language,
                child as int,
            ),
            final(self).field_nodes@ == old(self).field_nodes@ + field_nodes_visited(
                *old(self).tree,
                old(self).language,
                child as int,
            ),
        decreases old(self).tree.nodes.len() - child, 2int,
    {
        let t = self.tree;
        let ghost start = *self;
        let kind = t.nodes[child].kind.as_str();

        if self.config.is_comment(kind) || self.config.is_attribute(kind) {
            self.record_comment(child, ctx);
            proof {
                lemma_extends_refl(&*self);
                assert(self.call_nodes@ =~= start.call_nodes@ + Seq::empty());
                assert(self.binding_entries@ =~= start.binding_entries@ + Seq::empty());
                assert(self.relation_entries@ =~= start.relation_entries@ + Seq::empty());
                assert(self.field_nodes@ =~= start.field_nodes@ + Seq::empty());
            }
            return;
        }
        let ghost own = if crate::lang::spec_import_nodes(self.language).contains(kind@) {
            import_specifiers(*t, self.source@, self.language, child as int)
        } else {
            Seq::empty()
        };
        // Fall through: an export statement can also wrap a declaration.
        self.record_import_of(child);
        let ghost after_own = *self;
        if self.config.is_string(kind) {
            // Never harvested, and holds no declarations.
            proof {
                lemma_extends_refl(&*self);
                assert(import_views(self.imports@) =~= import_views(start.imports@) + (own + Seq::empty()));
                assert(self.call_nodes@ =~= start.call_nodes@ + Seq::empty());
                assert(self.binding_entries@ =~= start.binding_entries@ + Seq::empty());
                assert(self.relation_entries@ =~= start.relation_entries@ + Seq::empty());
                assert(self.field_nodes@ =~= start.field_nodes@ + Seq::empty());
            }
            return;
        }
        self.record_uses(child, ctx);
        let ghost mid = *self;
        assert(mid.facts == start.facts);
        assert(mid.fact_nodes == start.fact_nodes);
        let decl_kind = self.config.decl_for(kind);
        proof {
            crate::declared::lemma_first_decl_is_form(self.config, self.language, kind@);
            assert(!crate::declared::skipped(self.language, t.nodes[child as int].kind@));
        }
        match decl_kind {
            Some(decl) => {
                self.declaration(child, decl, ctx);
                proof {
                    let w = walked_from(*t, self.language, child as int, 0);
                    assert(start.fact_nodes@.push(child as int) + w =~= start.fact_nodes@ + (seq![child as int] + w));
                }
            },
            None => {
                // Not a declaration in this language's config. Rust `impl`
                // blocks land here deliberately: a method is named by its
                // implementing type, so the impl contributes a name segment
                // without becoming a fact of its own.
                match self.impl_type_segment(child) {
                    Some(impl_type) => {
                        proof {
                            crate::declared::lemma_first_decl_is_form(self.config, self.language, kind@);
                        }
                        self.record_impl_trait(child, impl_type.as_str());
                        let next = Context {
                            name_parent: child_name(ctx.name_parent.as_str(), impl_type.as_str()),
                            contain_parent: ctx.contain_parent.clone(),
                            contain_node: Ghost(ctx.contain_node@),
                            scope_node: Ghost(ctx.scope_node@),
                            owner_node: Ghost(Some(child as int)),
                            scope: ctx.scope.clone(),
                            owning_type: Some(impl_type),
                            in_test: ctx.in_test,
                        };
                        self.walk(child, &next);
                    },
                    None => self.walk(child, ctx),
                }
            },
        }
        proof {
            lemma_extends_from_same(&*self, &mid, &start);
            let rest = imports_from(*t, self.source@, self.language, child as int, 0);
            assert(import_views(self.imports@) == import_views(after_own.imports@) + rest);
            assert(import_views(self.imports@) =~= import_views(start.imports@) + (own + rest));
            let krest = call_nodes_from(*t, self.source@, self.language, child as int, 0);
            assert(self.call_nodes@ == mid.call_nodes@ + krest);
            let kown = if crate::lang::spec_call_nodes(self.language).contains(t.nodes[child as int].kind@) && call_of(
                *t,
                self.source@,
                child as int,
            ) is Some {
                seq![child as int]
            } else {
                Seq::<int>::empty()
            };
            assert(after_own.call_nodes == start.call_nodes);
            assert(mid.call_nodes@ == start.call_nodes@ + kown);
            assert(call_nodes_visited(*t, self.source@, self.language, child as int) == kown + krest);
            assert(self.call_nodes@ =~= start.call_nodes@ + (kown + krest));
            let bown = if crate::lang::spec_binding_nodes(self.language).contains(t.nodes[child as int].kind@)
                && binding_of(*t, self.source@, self.language, child as int) is Some {
                seq![(child as int, -1int)]
            } else {
                Seq::<(int, int)>::empty()
            };
            let bparams = if declares_callable(self.language, t.nodes[child as int].kind@) {
                parameter_bindings(*t, self.source@, self.language, child as int)
            } else {
                Seq::<(int, int)>::empty()
            };
            let brest = bindings_from(*t, self.source@, self.language, child as int, 0);
            assert(after_own.binding_entries == start.binding_entries);
            assert(mid.binding_entries@ == start.binding_entries@ + bown);
            assert(self.binding_entries@ == mid.binding_entries@ + bparams + brest);
            assert(bindings_visited(*t, self.source@, self.language, child as int) == (bown + bparams) + brest);
            assert(self.binding_entries@ =~= start.binding_entries@ + ((bown + bparams) + brest));
            let rown = own_relations(*t, self.source@, self.language, child as int);
            let rrest = relations_from(*t, self.source@, self.language, child as int, 0);
            assert(mid.relation_entries == start.relation_entries);
            assert(self.relation_entries@ == mid.relation_entries@ + rown + rrest);
            assert(self.relation_entries@ =~= start.relation_entries@ + (rown + rrest));
            let fown = if crate::lang::spec_field_nodes(self.language).contains(t.nodes[child as int].kind@) {
                seq![child as int]
            } else {
                Seq::<int>::empty()
            };
            let frest = field_nodes_from(*t, self.language, child as int, 0);
            assert(after_own.field_nodes == start.field_nodes);
            assert(mid.field_nodes@ == start.field_nodes@ + fown);
            assert(self.field_nodes@ == mid.field_nodes@ + frest);
            assert(self.field_nodes@ =~= start.field_nodes@ + (fown + frest));
        }
    }

    /// What an import node names, if the child is one.
    fn record_import_of(&mut self, child: usize)
        requires
            old(self).good(),
            child < old(self).tree.nodes.len(),
        ensures
            final(self).good(),
            final(self).same_frame(&*old(self)),
            final(self).keeps_records(&*old(self)),
            final(self).keeps_bindings(&*old(self)),
            import_views(final(self).imports@) == import_views(old(self).imports@) + if crate::lang::spec_import_nodes(
                old(self).language,
            ).contains(old(self).tree.nodes[child as int].kind@) {
                import_specifiers(*old(self).tree, old(self).source@, old(self).language, child as int)
            } else {
                Seq::empty()
            },
    {
        if self.config.is_import(self.tree.nodes[child].kind.as_str()) {
            self.record_import(child);
        } else {
            assert(import_views(self.imports@) =~= import_views(self.imports@) + Seq::empty());
        }
    }

    /// The bindings, calls and fields a node records.
    fn record_uses(&mut self, child: usize, ctx: &Context)
        requires
            old(self).good(),
            child < old(self).tree.nodes.len(),
            names_a_fact(old(self).facts@, old(self).file@, ctx.contain_parent@),
            old(self).names_node(ctx),
            old(self).keys_scope(ctx),
            ctx.contain_node@ == enclosing_above(*old(self).tree, old(self).language, child as int),
            ctx.scope_node@ == callable_above(*old(self).tree, old(self).language, child as int),
            old(self).owns(ctx),
            ctx.owner_node@ == owner_above(*old(self).tree, old(self).source@, old(self).language, child as int),
        ensures
            final(self).good(),
            final(self).same_frame(&*old(self)),
            final(self).facts == old(self).facts,
            final(self).fact_nodes == old(self).fact_nodes,
            final(self).comments == old(self).comments,
            final(self).comment_nodes == old(self).comment_nodes,
            final(self).imports == old(self).imports,
            final(self).keeps_relations(&*old(self)),
            final(self).field_nodes@ == old(self).field_nodes@ + if crate::lang::spec_field_nodes(old(self).language).contains(
                old(self).tree.nodes[child as int].kind@,
            ) {
                seq![child as int]
            } else {
                Seq::empty()
            },
            final(self).call_nodes@ == old(self).call_nodes@ + if crate::lang::spec_call_nodes(old(self).language).contains(
                old(self).tree.nodes[child as int].kind@,
            ) && call_of(*old(self).tree, old(self).source@, child as int) is Some {
                seq![child as int]
            } else {
                Seq::empty()
            },
            final(self).binding_entries@ == old(self).binding_entries@ + if crate::lang::spec_binding_nodes(
                old(self).language,
            ).contains(old(self).tree.nodes[child as int].kind@) && binding_of(
                *old(self).tree,
                old(self).source@,
                old(self).language,
                child as int,
            ) is Some {
                seq![(child as int, -1int)]
            } else {
                Seq::empty()
            },
    {
        let kind = self.tree.nodes[child].kind.as_str();
        if holds(&self.config.binding_nodes, kind) {
            self.record_binding(child, ctx);
        } else {
            assert(self.binding_entries@ =~= self.binding_entries@ + Seq::empty());
        }
        let ghost before = self.call_nodes@;
        if holds(&self.config.call_nodes, kind) {
            self.record_call(child, ctx);
        } else {
            assert(self.call_nodes@ =~= before + Seq::empty());
        }
        if holds(&self.config.field_nodes, kind) {
            let ghost before_field = self.field_nodes@;
            self.record_field(child, ctx);
            assert(self.field_nodes@ =~= before_field + seq![child as int]);
        } else {
            assert(self.field_nodes@ =~= self.field_nodes@ + Seq::empty());
        }
    }

    /// Walking the children of `node` before the `j`-th has added to what
    /// `start` held the facts, comments and imports those children yield.
    spec fn walk_progress(&self, start: &Self, node: int, j: nat) -> bool {
        &&& start.fact_nodes@ + walked_from(*self.tree, self.language, node, 0) == self.fact_nodes@ + walked_from(
            *self.tree,
            self.language,
            node,
            j,
        )
        &&& start.comment_nodes@ + comment_nodes_from(*self.tree, self.source@, self.language, node, 0)
            == self.comment_nodes@ + comment_nodes_from(*self.tree, self.source@, self.language, node, j)
        &&& import_views(start.imports@) + imports_from(*self.tree, self.source@, self.language, node, 0)
            == import_views(self.imports@) + imports_from(*self.tree, self.source@, self.language, node, j)
        &&& start.call_nodes@ + call_nodes_from(*self.tree, self.source@, self.language, node, 0)
            == self.call_nodes@ + call_nodes_from(*self.tree, self.source@, self.language, node, j)
        &&& start.binding_entries@ + bindings_from(*self.tree, self.source@, self.language, node, 0)
            == self.binding_entries@ + bindings_from(*self.tree, self.source@, self.language, node, j)
        &&& start.relation_entries@ + relations_from(*self.tree, self.source@, self.language, node, 0)
            == self.relation_entries@ + relations_from(*self.tree, self.source@, self.language, node, j)
        &&& start.field_nodes@ + field_nodes_from(*self.tree, self.language, node, 0)
            == self.field_nodes@ + field_nodes_from(*self.tree, self.language, node, j)
    }

    /// Facts, comments and calls are untouched.
    spec fn keeps_products(&self, other: &Self) -> bool {
        &&& self.keeps_records(other)
        &&& self.imports == other.imports
        &&& self.keeps_bindings(other)
    }

    /// Bindings, type relations and field types are untouched.
    spec fn keeps_bindings(&self, other: &Self) -> bool {
        &&& self.bindings == other.bindings
        &&& self.binding_entries == other.binding_entries
        &&& self.keeps_relations(other)
        &&& self.keeps_fields(other)
    }

    /// Field types are untouched.
    spec fn keeps_fields(&self, other: &Self) -> bool {
        &&& self.field_types == other.field_types
        &&& self.field_nodes == other.field_nodes
        &&& self.field_owners == other.field_owners
    }

    /// Everything but the field types is untouched.
    spec fn keeps_all_but_fields(&self, other: &Self) -> bool {
        &&& self.facts == other.facts
        &&& self.fact_nodes == other.fact_nodes
        &&& self.comments == other.comments
        &&& self.comment_nodes == other.comment_nodes
        &&& self.call_nodes == other.call_nodes
        &&& self.calls == other.calls
        &&& self.imports == other.imports
        &&& self.bindings == other.bindings
        &&& self.binding_entries == other.binding_entries
        &&& self.keeps_relations(other)
    }

    /// A fact read from node `n` carries the simple name `name`.
    spec fn declares_at(&self, n: int, name: Seq<char>) -> bool {
        exists|k: int| 0 <= k < self.facts.len() && self.fact_nodes@[k] == n && (#[trigger] self.facts@[k]).simple_name@ == name
    }

    /// Type relations are untouched.
    spec fn keeps_relations(&self, other: &Self) -> bool {
        &&& self.type_relations == other.type_relations
        &&& self.relation_entries == other.relation_entries
    }

    /// Everything but the type relations is untouched.
    spec fn keeps_all_but_relations(&self, other: &Self) -> bool {
        &&& self.facts == other.facts
        &&& self.fact_nodes == other.fact_nodes
        &&& self.comments == other.comments
        &&& self.comment_nodes == other.comment_nodes
        &&& self.call_nodes == other.call_nodes
        &&& self.calls == other.calls
        &&& self.imports == other.imports
        &&& self.bindings == other.bindings
        &&& self.binding_entries == other.binding_entries
        &&& self.keeps_fields(other)
    }

    /// Facts, comments and calls are untouched.
    spec fn keeps_records(&self, other: &Self) -> bool {
        &&& self.facts == other.facts
        &&& self.fact_nodes == other.fact_nodes
        &&& self.comments == other.comments
        &&& self.comment_nodes == other.comment_nodes
        &&& self.call_nodes == other.call_nodes
        &&& self.calls == other.calls
        &&& self.keeps_relations(other)
        &&& self.keeps_fields(other)
    }

    /// A declaration: its fact, then its body in the context it opens.
    #[verifier::rlimit(100)]
    #[verifier::spinoff_prover]
    fn declaration(&mut self, child: usize, decl: DeclKind, ctx: &Context)
        requires
            old(self).good(),
            child < old(self).tree.nodes.len(),
            old(self).names_node(ctx),
            0 < child,
            ctx.contain_node@ == enclosing_above(*old(self).tree, old(self).language, child as int),
            ctx.in_test == tested_above(*old(self).tree, old(self).source@, old(self).language, child as int),
            old(self).keys_scope(ctx),
            ctx.scope_node@ == callable_above(*old(self).tree, old(self).language, child as int),
            old(self).owns(ctx),
            ctx.owner_node@ == owner_above(*old(self).tree, old(self).source@, old(self).language, child as int),
            crate::lang::first_decl(old(self).config.decls@, old(self).tree.nodes[child as int].kind@) == Some(decl),
            names_a_fact(old(self).facts@, old(self).file@, ctx.contain_parent@),
        ensures
            final(self).good(),
            final(self).same_frame(&*old(self)),
            final(self).extends(&*old(self)),
            final(self).fact_nodes@ == old(self).fact_nodes@.push(child as int) + walked_from(
                *old(self).tree,
                old(self).language,
                child as int,
                0,
            ),
            final(self).comment_nodes@ == old(self).comment_nodes@ + comment_nodes_from(
                *old(self).tree,
                old(self).source@,
                old(self).language,
                child as int,
                0,
            ),
            import_views(final(self).imports@) == import_views(old(self).imports@) + imports_from(
                *old(self).tree,
                old(self).source@,
                old(self).language,
                child as int,
                0,
            ),
            final(self).call_nodes@ == old(self).call_nodes@ + call_nodes_from(
                *old(self).tree,
                old(self).source@,
                old(self).language,
                child as int,
                0,
            ),
            final(self).binding_entries@ == old(self).binding_entries@ + (if declares_callable(
                old(self).language,
                old(self).tree.nodes[child as int].kind@,
            ) {
                parameter_bindings(*old(self).tree, old(self).source@, old(self).language, child as int)
            } else {
                Seq::empty()
            }) + bindings_from(*old(self).tree, old(self).source@, old(self).language, child as int, 0),
            final(self).relation_entries@ == old(self).relation_entries@ + (if declares_type(
                old(self).language,
                old(self).tree.nodes[child as int].kind@,
            ) {
                heritage_from(*old(self).tree, old(self).source@, child as int, 0)
            } else {
                Seq::empty()
            }) + relations_from(*old(self).tree, old(self).source@, old(self).language, child as int, 0),
            final(self).field_nodes@ == old(self).field_nodes@ + field_nodes_from(
                *old(self).tree,
                old(self).language,
                child as int,
                0,
            ),
        decreases old(self).tree.nodes.len() - child, 1int,
    {
        let t = self.tree;
        let ghost start = *self;
        let (segment, simple_name) = self.segment_for(child, decl, ctx.name_parent.as_str());
        let qualified = child_name(ctx.name_parent.as_str(), segment.as_str());
        let span = span_of(t, child);
        let is_test = ctx.in_test || self.looks_like_test(child, simple_name.as_str());
        let visibility = self.visibility_of(child, simple_name.as_str());
        let signature = if decl.object_type == ObjectType::Function {
            self.signature_of(child)
        } else {
            None
        };
        let returned = if decl.object_type == ObjectType::Function {
            self.declared_return_of(child)
        } else {
            None
        };
        let ghost mid = *self;
        let fact = CodeFact {
            object_type: decl.object_type,
            kind: decl.kind,
            qualified_name: qualified.clone(),
            simple_name: simple_name.clone(),
            path: self.path.clone(),
            span,
            parent: Some(ctx.contain_parent.clone()),
            visibility,
            signature,
        };
        let ghost fact_view = fact;
        self.facts.push(fact);
        self.fact_nodes = Ghost(self.fact_nodes@.push(child as int));
        self.fact_owners = Ghost(self.fact_owners@.push(opt_chars(ctx.owning_type)));
        // A callable's declared return type, under its qualified name.
        match &returned {
            Some(found) => {
                self.return_types.insert(qualified.as_str(), found.as_str());
            },
            None => {},
        }
        proof {
            let n = mid.facts.len() as int;
            assert(self.fact_nodes@.take(n) =~= mid.fact_nodes@);
            assert(self.facts@.take(n) =~= mid.facts@);
            assert(self.return_types@ == returns_of(*t, self.source@, self.fact_nodes@, self.facts@));
            assert(self.fact_owners@.take(n) =~= mid.fact_owners@);
            assert(self.fact_nodes@ =~= mid.fact_nodes@ + seq![child as int]);
            lemma_owns_grow(&mid, &*self, ctx, seq![child as int]);
            crate::declared::lemma_owners_named_push(
                *t,
                self.source@,
                self.language,
                mid.fact_nodes@,
                mid.facts@,
                mid.fact_owners@,
                child as int,
                fact_view,
                opt_chars(ctx.owning_type),
            );
            assert(self.facts@.take(n) == mid.facts@);
            assert forall|i: int| 0 <= i < self.facts.len() implies (#[trigger] self.facts@[i]).path@ == self.path@
                && (self.facts@[i].parent matches Some(p) && names_a_fact(self.facts@.take(i), self.file@, p@)) by {
                if i < n {
                    assert(self.facts@[i] == mid.facts@[i]);
                    assert(self.facts@.take(i) == mid.facts@.take(i));
                }
            }
            assert forall|i: int| 0 <= i < self.comments.len() implies names_a_fact(self.facts@, self.file@, #[trigger] self.comments[i].owner@) by {
                lemma_names_grow(mid.facts@, self.facts@, self.file@, self.comments[i].owner@);
            }
            assert forall|i: int| 0 <= i < self.calls.len() implies names_a_fact(self.facts@, self.file@, #[trigger] self.calls[i].caller@) by {
                lemma_names_grow(mid.facts@, self.facts@, self.file@, self.calls[i].caller@);
            }
            crate::declared::lemma_first_decl_is_form(self.config, self.language, t.nodes[child as int].kind@);
            assert(fact_view.qualified_name@ == crate::naming::spec_child_name(
                ctx.name_parent@,
                fact_view.simple_name@,
            ));
            let form = crate::declared::decl_form(self.language, t.nodes[child as int].kind@)->0;
            assert(form.2 == decl.kind@);
            assert(fact_view.simple_name@ == segment@);
            match crate::declared::declared_name(*t, self.source@, self.language, child as int) {
                Some(x) => assert(fact_view.simple_name@ == x),
                None => {
                    let k = choose|k: nat| segment@ == crate::naming::spec_anonymous_segment(decl.kind@, k);
                    assert(fact_view.simple_name@ == crate::naming::spec_anonymous_segment(form.2, k));
                },
            }
            assert(declared_by(*t, self.source@, self.language, child as int, fact_view));
            assert(self.facts@ == mid.facts@.push(fact_view));
            crate::declared::lemma_declared_along_push(
                *t,
                self.source@,
                self.language,
                mid.fact_nodes@,
                mid.facts@,
                child as int,
                fact_view,
            );
            assert(self.facts@[n].qualified_name@ == qualified@);
            assert(names_a_fact(self.facts@, self.file@, qualified@));
            assert(self.extends(&mid));
            lemma_placed_push(&mid, &*self, ctx, child as int, fact_view);
            assert(self.fact_nodes@.take(mid.fact_nodes@.len() as int) =~= mid.fact_nodes@);
            crate::declared::lemma_calls_along_grow(
                *t,
                self.source@,
                self.language,
                self.file@,
                mid.fact_nodes@,
                mid.facts@,
                self.fact_nodes@,
                self.facts@,
                self.call_nodes@,
                self.calls@,
            );
            assert(self.fact_nodes@ =~= mid.fact_nodes@ + seq![child as int]);
            lemma_keys_scope_grow(&mid, &*self, ctx, seq![child as int]);
            lemma_owns_grow(&mid, &*self, ctx, seq![child as int]);
            crate::declared::lemma_bindings_along_grow(
                *t,
                self.source@,
                self.language,
                mid.fact_nodes@,
                mid.facts@,
                self.fact_nodes@,
                self.facts@,
                self.binding_entries@,
                self.bindings@,
            );
            crate::declared::lemma_field_owners_grow(
                *t,
                self.source@,
                self.language,
                mid.fact_nodes@,
                mid.facts@,
                self.fact_nodes@,
                self.facts@,
                self.field_nodes@,
                self.field_owners@,
            );
            crate::declared::lemma_relations_along_grow(
                *t,
                self.source@,
                mid.fact_nodes@,
                mid.facts@,
                self.fact_nodes@,
                self.facts@,
                self.relation_entries@,
                self.type_relations@,
            );
            crate::declared::lemma_comments_along_grow(
                *t,
                self.source@,
                self.language,
                self.file@,
                mid.fact_nodes@,
                mid.facts@,
                self.fact_nodes@,
                self.facts@,
                self.comment_nodes@,
                self.comments@,
            );
            assert(self.fact_nodes@[n] == child as int);
        }
        let mut next = Context {
            name_parent: if decl.names_children {
                qualified.clone()
            } else {
                ctx.name_parent.clone()
            },
            contain_parent: qualified.clone(),
            contain_node: Ghost(Some(child as int)),
            scope_node: Ghost(ctx.scope_node@),
            owner_node: Ghost(ctx.owner_node@),
            scope: ctx.scope.clone(),
            owning_type: match &ctx.owning_type {
                Some(o) => Some(o.clone()),
                None => None,
            },
            in_test: is_test,
        };
        if decl.object_type == ObjectType::Function {
            // A callable opens a scope. The key pairs its name with its start
            // line, so two same-named callables in one file stay distinct.
            let mut key = chars_of(simple_name.as_str());
            key.push('@');
            let line = decimal_chars(span.start as usize);
            extend_chars(&mut key, &line);
            next.scope = string_of(&key);
            next.scope_node = Ghost(Some(child as int));
            proof {
                reveal_strlit("@");
                let k = mid.facts.len() as int;
                assert(self.facts@[k] == fact_view);
                assert(self.fact_nodes@[k] == child as int);
                assert(next.scope@ =~= crate::declared::scope_key(self.facts@[k]));
                assert(scope_placed(Some(child as int), self.fact_nodes@, self.facts@, next.scope@));
            }
            match &ctx.owning_type {
                Some(owner) => {
                    self.enclosing_types.insert(next.scope.as_str(), owner.as_str());
                },
                None => {},
            }
            proof {
                let k = mid.facts.len() as int;
                assert(self.facts@.take(k) =~= mid.facts@);
                assert(self.fact_owners@.take(k) =~= mid.fact_owners@);
                assert(self.enclosing_types@ == enclosings_of(self.facts@, self.fact_owners@));
            }
            self.record_parameters(child, next.scope.as_str());
        }
        proof {
            if decl.object_type != ObjectType::Function {
                let k = mid.facts.len() as int;
                assert(self.facts@.take(k) =~= mid.facts@);
                assert(self.fact_owners@.take(k) =~= mid.fact_owners@);
                assert(self.enclosing_types@ == enclosings_of(self.facts@, self.fact_owners@));
            }
        }
        if decl.object_type == ObjectType::Type {
            next.owning_type = Some(simple_name.clone());
            next.owner_node = Ghost(Some(child as int));
            proof {
                let k = mid.facts.len() as int;
                assert(self.facts@[k] == fact_view);
                assert(self.fact_nodes@[k] == child as int);
                assert(self.declares_at(child as int, simple_name@));
            }
            self.record_type_relations(child, simple_name.as_str());
        } else {
            proof {
                assert(self.relation_entries@ =~= start.relation_entries@ + Seq::empty());
            }
        }
        let ghost before = *self;
        proof {
            crate::declared::lemma_first_decl_is_form(self.config, self.language, t.nodes[child as int].kind@);
            if decl.object_type == ObjectType::Function {
                reveal_strlit("@");
                let k = mid.facts.len() as int;
                assert(self.facts@[k] == fact_view);
                assert(self.fact_nodes@[k] == child as int);
                assert(next.scope@ =~= crate::declared::scope_key(self.facts@[k]));
            }
            assert(self.keys_scope(&next));
            lemma_anonymous_is_no_test_name(decl.kind@);
            assert(is_test == tested_at(*t, self.source@, self.language, child as int));
        }
        self.walk(child, &next);
        proof {
            lemma_extends_trans(&*self, &before, &start);
        }
    }

    /// Record a comment or attribute with its owner.
    fn record_comment(&mut self, node: usize, ctx: &Context)
        requires
            old(self).good(),
            node < old(self).tree.nodes.len(),
            names_a_fact(old(self).facts@, old(self).file@, ctx.contain_parent@),
            old(self).names_node(ctx),
            ctx.contain_node@ == enclosing_above(*old(self).tree, old(self).language, node as int),
            ctx.in_test == tested_above(*old(self).tree, old(self).source@, old(self).language, node as int),
        ensures
            final(self).good(),
            final(self).same_frame(&*old(self)),
            final(self).facts == old(self).facts,
            final(self).fact_nodes == old(self).fact_nodes,
            final(self).imports == old(self).imports,
            final(self).calls == old(self).calls,
            final(self).call_nodes == old(self).call_nodes,
            final(self).keeps_bindings(&*old(self)),
            final(self).comment_nodes@ == old(self).comment_nodes@ + if node_text(
                *old(self).tree,
                old(self).source@,
                node as int,
            ) is Some {
                seq![node as int]
            } else {
                Seq::empty()
            },
    {
        match self.text(node) {
            Some(text) => {
                let c = CommentText {
                    text: text.to_owned(),
                    line: line_number(self.tree.nodes[node].start_row),
                    owner: ctx.contain_parent.clone(),
                    owner_is_test: ctx.in_test,
                };
                let ghost cv = c;
                let ghost before = *self;
                self.comments.push(c);
                self.comment_nodes = Ghost(self.comment_nodes@.push(node as int));
                proof {
                    assert(comment_from(
                        *self.tree,
                        self.source@,
                        self.language,
                        self.file@,
                        self.fact_nodes@,
                        self.facts@,
                        node as int,
                        cv,
                    ));
                    crate::declared::lemma_comments_along_push(
                        *self.tree,
                        self.source@,
                        self.language,
                        self.file@,
                        self.fact_nodes@,
                        self.facts@,
                        before.comment_nodes@,
                        before.comments@,
                        node as int,
                        cv,
                    );
                    assert(self.comments@ == before.comments@.push(cv));
                    assert(self.comment_nodes@ =~= before.comment_nodes@ + seq![node as int]);
                }
            },
            None => {
                proof {
                    assert(self.comment_nodes@ =~= self.comment_nodes@ + Seq::empty());
                }
            },
        }
    }

    /// Record the specifiers an import statement names, with its line.
    fn record_import(&mut self, node: usize)
        requires
            old(self).good(),
            node < old(self).tree.nodes.len(),
        ensures
            final(self).good(),
            final(self).same_frame(&*old(self)),
            final(self).keeps_records(&*old(self)),
            final(self).keeps_bindings(&*old(self)),
            import_views(final(self).imports@) == import_views(old(self).imports@) + import_specifiers(
                *old(self).tree,
                old(self).source@,
                old(self).language,
                node as int,
            ),
    {
        let line = line_number(self.tree.nodes[node].start_row);
        self.collect_imports(node, line);
    }

    /// The specifiers beneath `node`, last child first: string literals with
    /// their quotes trimmed, and bare module paths.
    fn collect_imports(&mut self, node: usize, line: u32)
        requires
            old(self).good(),
            node < old(self).tree.nodes.len(),
        ensures
            final(self).good(),
            final(self).same_frame(&*old(self)),
            final(self).keeps_records(&*old(self)),
            final(self).keeps_bindings(&*old(self)),
            import_views(final(self).imports@) == import_views(old(self).imports@) + at_line(
                specifiers_from(
                    *old(self).tree,
                    old(self).source@,
                    old(self).language,
                    node as int,
                    old(self).tree.nodes[node as int].children.len() as nat,
                ),
                line,
            ),
        decreases old(self).tree.nodes.len() - node,
    {
        let t = self.tree;
        let children = &t.nodes[node].children;
        let mut j: usize = children.len();
        let ghost start = *self;
        let ghost all = specifiers_from(*t, self.source@, self.language, node as int, children.len() as nat);
        proof {
            lemma_keeps_records_refl(&*self);
        }
        while j > 0
            invariant
                t == self.tree,
                t == old(self).tree,
                self.good(),
                self.same_frame(&start),
                self.keeps_records(&start),
                self.keeps_bindings(&start),
                node < t.nodes.len(),
                children == &t.nodes[node as int].children,
                j <= children.len(),
                all == specifiers_from(*t, self.source@, self.language, node as int, children.len() as nat),
                import_views(start.imports@) + at_line(all, line) == import_views(self.imports@) + at_line(
                    specifiers_from(*t, self.source@, self.language, node as int, j as nat),
                    line,
                ),
            decreases j,
        {
            let ghost rest = specifiers_from(*t, self.source@, self.language, node as int, (j - 1) as nat);
            let ghost before = import_views(self.imports@);
            j = j - 1;
            let child = children[j];
            assert(node < child < t.nodes.len());
            let kind = t.nodes[child].kind.as_str();
            let ghost here: Seq<Seq<char>>;
            if self.config.is_string(kind) {
                match self.text(child) {
                    Some(text) => {
                        let specifier = trim_quotes(text);
                        if specifier.len() > 0 {
                            self.imports.push((string_of(&specifier), line));
                        }
                        proof {
                            here = if specifier@.len() > 0 { seq![specifier@] } else { Seq::empty() };
                        }
                    },
                    None => {
                        proof {
                            here = Seq::empty();
                        }
                    },
                }
            } else if same_text(kind, "scoped_identifier") || same_text(kind, "identifier")
                || same_text(kind, "dotted_name") || same_text(kind, "relative_import") {
                // Rust `use` paths and Python dotted names are not string nodes.
                match self.text(child) {
                    Some(text) => {
                        if !text.is_empty() {
                            self.imports.push((text.to_owned(), line));
                        }
                        proof {
                            here = if text@.len() > 0 { seq![text@] } else { Seq::empty() };
                        }
                    },
                    None => {
                        proof {
                            here = Seq::empty();
                        }
                    },
                }
            } else {
                self.collect_imports(child, line);
                proof {
                    here = specifiers_from(*t, self.source@, self.language, child as int, t.nodes[child as int].children.len() as nat);
                }
            }
            proof {
                assert(specifiers_from(*t, self.source@, self.language, node as int, (j + 1) as nat) == here + rest);
                lemma_at_line_add(here, rest, line);
                assert(import_views(self.imports@) =~= before + at_line(here, line));
            }
        }
    }

    /// Record a local binding and where its type comes from.
    fn record_binding(&mut self, node: usize, ctx: &Context)
        requires
            old(self).good(),
            node < old(self).tree.nodes.len(),
            old(self).keys_scope(ctx),
            ctx.scope_node@ == callable_above(*old(self).tree, old(self).language, node as int),
        ensures
            final(self).good(),
            final(self).same_frame(&*old(self)),
            final(self).keeps_records(&*old(self)),
            final(self).imports == old(self).imports,
            final(self).binding_entries@ == old(self).binding_entries@ + if binding_of(
                *old(self).tree,
                old(self).source@,
                old(self).language,
                node as int,
            ) is Some {
                seq![(node as int, -1int)]
            } else {
                Seq::empty()
            },
    {
        let name_fields: Vec<&'static str> = vec!["pattern", "name", "left"];
        assert(texts(name_fields@) =~= seq!["pattern"@, "name"@, "left"@]);
        let name_node = match self.first_field(node, &name_fields) {
            Some(n) => n,
            None => {
                assert(self.binding_entries@ =~= self.binding_entries@ + Seq::empty());
                return;
            },
        };
        let name = match self.text(name_node) {
            Some(n) => n,
            None => {
                assert(self.binding_entries@ =~= self.binding_entries@ + Seq::empty());
                return;
            },
        };
        if name.is_empty() || !is_plain_identifier(name) {
            assert(self.binding_entries@ =~= self.binding_entries@ + Seq::empty());
            return;
        }
        // An explicit annotation wins outright: it is what the source says,
        // not what was inferred.
        let annotated = match self.field(node, "type") {
            Some(type_node) => match self.simple_type_name(type_node) {
                Some(found_type) => Some(TypeSource::Annotation(found_type)),
                None => None,
            },
            None => None,
        };
        let source = match annotated {
            Some(a) => Some(a),
            None => {
                let value_fields: Vec<&'static str> = vec!["value", "right"];
                assert(texts(value_fields@) =~= seq!["value"@, "right"@]);
                match self.first_field(node, &value_fields) {
                    Some(v) => self.source_of_value(v),
                    None => None,
                }
            },
        };
        match source {
            Some(source) => {
                let b = RawBinding { scope: ctx.scope.clone(), name: name.to_owned(), source };
                let ghost bv = b;
                let ghost before = *self;
                proof {
                    assert(binding_from(
                        *self.tree,
                        self.source@,
                        self.language,
                        self.fact_nodes@,
                        self.facts@,
                        (node as int, -1int),
                        bv,
                    ));
                }
                self.bindings.push(b);
                self.binding_entries = Ghost(self.binding_entries@.push((node as int, -1int)));
                proof {
                    crate::declared::lemma_bindings_along_push(
                        *self.tree,
                        self.source@,
                        self.language,
                        self.fact_nodes@,
                        self.facts@,
                        before.binding_entries@,
                        before.bindings@,
                        (node as int, -1int),
                        bv,
                    );
                    assert(self.bindings@ == before.bindings@.push(bv));
                    assert(self.binding_entries@ =~= before.binding_entries@ + seq![(node as int, -1int)]);
                }
            },
            None => {
                assert(self.binding_entries@ =~= self.binding_entries@ + Seq::empty());
            },
        }
    }

    /// Classify the right-hand side of a binding into one of the pending
    /// forms.
    fn source_of_value(&self, value: usize) -> (r: Option<TypeSource>)
        requires
            self.tree.wf(),
            self.config.describes(self.language),
            value < self.tree.nodes.len(),
        ensures
            match r {
                Some(x) => value_source(*self.tree, self.source@, self.language, value as int) == Some(source_view(x)),
                None => value_source(*self.tree, self.source@, self.language, value as int) is None,
            },
    {
        let kind = self.tree.nodes[value].kind.as_str();
        // `new Store()` names its type directly.
        if same_text(kind, "new_expression") {
            let ctor = match self.field(value, "constructor") {
                Some(c) => c,
                None => {
                    return None;
                },
            };
            return match self.simple_type_name(ctor) {
                Some(t) => Some(TypeSource::Constructor(t)),
                None => None,
            };
        }
        if holds(&self.config.call_nodes, kind) {
            let function = match self.field(value, "function") {
                Some(f) => f,
                None => {
                    return None;
                },
            };
            let text = match self.text(function) {
                Some(t) => t,
                None => {
                    return None;
                },
            };
            // `Store::new(…)` / `Store()`: a constructor by convention when
            // the callee's leading segment is type-cased.
            match split_call_path(text) {
                Some((head, tail)) => {
                    if starts_uppercase(head.as_str()) && (same_text(tail.as_str(), "new") || tail.as_str().is_empty()) {
                        return Some(TypeSource::Constructor(head));
                    }
                    // `receiver.method(…)`
                    if !head.as_str().is_empty() && !starts_uppercase(head.as_str()) && !tail.as_str().is_empty() {
                        return Some(TypeSource::MethodCallResult { receiver: head, method: tail });
                    }
                },
                None => {},
            }
            if starts_uppercase(text) {
                return Some(TypeSource::Constructor(text.to_owned()));
            }
            if is_plain_identifier(text) {
                return Some(TypeSource::CallResult(text.to_owned()));
            }
            return None;
        }
        // `store.inner`: a typed field access.
        if holds(&self.config.member_nodes, kind) {
            let object = match self.field(value, "object") {
                Some(o) => o,
                None => {
                    return None;
                },
            };
            let field_fields: Vec<&'static str> = vec!["field", "attribute", "property"];
            assert(texts(field_fields@) =~= seq!["field"@, "attribute"@, "property"@]);
            let field = match self.first_field(value, &field_fields) {
                Some(f) => f,
                None => {
                    return None;
                },
            };
            let object_text = match self.text(object) {
                Some(t) => t,
                None => {
                    return None;
                },
            };
            let field_text = match self.text(field) {
                Some(t) => t,
                None => {
                    return None;
                },
            };
            if is_plain_identifier(object_text) && is_plain_identifier(field_text) {
                return Some(
                    TypeSource::FieldAccess {
                        receiver: object_text.to_owned(),
                        field: field_text.to_owned(),
                    },
                );
            }
            return None;
        }
        // `let b = a;`
        let text = match self.text(value) {
            Some(t) => t,
            None => {
                return None;
            },
        };
        if is_plain_identifier(text) && !starts_uppercase(text) {
            return Some(TypeSource::Copy(text.to_owned()));
        }
        None
    }

    /// Record a call site for later resolution.
    fn record_call(&mut self, node: usize, ctx: &Context)
        requires
            old(self).good(),
            node < old(self).tree.nodes.len(),
            names_a_fact(old(self).facts@, old(self).file@, ctx.contain_parent@),
            old(self).names_node(ctx),
            old(self).keys_scope(ctx),
            ctx.contain_node@ == enclosing_above(*old(self).tree, old(self).language, node as int),
            ctx.scope_node@ == callable_above(*old(self).tree, old(self).language, node as int),
        ensures
            final(self).good(),
            final(self).same_frame(&*old(self)),
            final(self).facts == old(self).facts,
            final(self).fact_nodes == old(self).fact_nodes,
            final(self).comments == old(self).comments,
            final(self).comment_nodes == old(self).comment_nodes,
            final(self).imports == old(self).imports,
            final(self).keeps_bindings(&*old(self)),
            final(self).call_nodes@ == old(self).call_nodes@ + if call_of(*old(self).tree, old(self).source@, node as int) is Some {
                seq![node as int]
            } else {
                Seq::empty()
            },
    {
        let function = match self.field(node, "function") {
            Some(f) => f,
            None => {
                assert(self.call_nodes@ =~= self.call_nodes@ + Seq::empty());
                return;
            },
        };
        let text = match self.text(function) {
            Some(t) => t,
            None => {
                assert(self.call_nodes@ =~= self.call_nodes@ + Seq::empty());
                return;
            },
        };
        let line = line_number(self.tree.nodes[node].start_row);
        let site = match split_call_path(text) {
            Some((receiver, method)) => {
                if !method.as_str().is_empty() {
                    Some(
                        CallSite {
                            caller: ctx.contain_parent.clone(),
                            scope: ctx.scope.clone(),
                            receiver: Some(receiver),
                            callee: method,
                            line,
                        },
                    )
                } else if is_plain_identifier(text) {
                    Some(
                        CallSite {
                            caller: ctx.contain_parent.clone(),
                            scope: ctx.scope.clone(),
                            receiver: None,
                            callee: text.to_owned(),
                            line,
                        },
                    )
                } else {
                    None
                }
            },
            None => {
                if is_plain_identifier(text) {
                    Some(
                        CallSite {
                            caller: ctx.contain_parent.clone(),
                            scope: ctx.scope.clone(),
                            receiver: None,
                            callee: text.to_owned(),
                            line,
                        },
                    )
                } else {
                    None
                }
            },
        };
        match site {
            Some(site) => {
                let ghost sv = site;
                let ghost before = *self;
                proof {
                    assert(call_from(
                        *self.tree,
                        self.source@,
                        self.language,
                        self.file@,
                        self.fact_nodes@,
                        self.facts@,
                        node as int,
                        sv,
                    ));
                }
                self.calls.push(site);
                self.call_nodes = Ghost(self.call_nodes@.push(node as int));
                proof {
                    crate::declared::lemma_calls_along_push(
                        *self.tree,
                        self.source@,
                        self.language,
                        self.file@,
                        self.fact_nodes@,
                        self.facts@,
                        before.call_nodes@,
                        before.calls@,
                        node as int,
                        sv,
                    );
                    assert(self.calls@ == before.calls@.push(sv));
                    assert(self.call_nodes@ =~= before.call_nodes@ + seq![node as int]);
                    assert forall|i: int| 0 <= i < self.calls.len() implies names_a_fact(
                        self.facts@,
                        self.file@,
                        #[trigger] self.calls[i].caller@,
                    ) by {
                        if i < before.calls.len() {
                            assert(self.calls[i] == before.calls[i]);
                            assert(names_a_fact(before.facts@, before.file@, before.calls[i].caller@));
                        } else {
                            assert(self.calls[i] == sv);
                            assert(names_a_fact(self.facts@, self.file@, ctx.contain_parent@));
                        }
                    }
                }
            },
            None => {
                assert(self.call_nodes@ =~= self.call_nodes@ + Seq::empty());
            },
        }
    }

    /// The simple type a callable declares it returns.
    fn declared_return_of(&self, node: usize) -> (r: Option<String>)
        requires
            self.tree.wf(),
            node < self.tree.nodes.len(),
        ensures
            opt_chars(r) == declared_return(*self.tree, self.source@, node as int),
    {
        let fields: Vec<&'static str> = vec!["return_type", "return_type_annotation"];
        assert(texts(fields@) =~= seq!["return_type"@, "return_type_annotation"@]);
        match self.first_field(node, &fields) {
            Some(return_node) => self.simple_type_name(return_node),
            None => None,
        }
    }

    /// Record typed parameters as bindings in the callable's own scope.
    fn record_parameters(&mut self, node: usize, scope: &str)
        requires
            old(self).good(),
            node < old(self).tree.nodes.len(),
            scope_placed(Some(node as int), old(self).fact_nodes@, old(self).facts@, scope@),
        ensures
            final(self).good(),
            final(self).same_frame(&*old(self)),
            final(self).keeps_records(&*old(self)),
            final(self).imports == old(self).imports,
            final(self).binding_entries@ == old(self).binding_entries@ + parameter_bindings(
                *old(self).tree,
                old(self).source@,
                old(self).language,
                node as int,
            ),
    {
        let t = self.tree;
        let params = match self.field(node, "parameters") {
            Some(p) => p,
            None => {
                assert(self.binding_entries@ =~= self.binding_entries@ + Seq::empty());
                return;
            },
        };
        let children = &t.nodes[params].children;
        let ghost start = *self;
        let mut j: usize = 0;
        while j < children.len()
            invariant
                t == self.tree,
                self.good(),
                self.same_frame(&start),
                self.keeps_records(&start),
                self.imports == start.imports,
                params < t.nodes.len(),
                node < t.nodes.len(),
                children == &t.nodes[params as int].children,
                j <= children.len(),
                scope_placed(Some(node as int), self.fact_nodes@, self.facts@, scope@),
                start.binding_entries@ + parameters_from(*t, self.source@, self.language, params as int, node as int, 0)
                    == self.binding_entries@ + parameters_from(
                    *t,
                    self.source@,
                    self.language,
                    params as int,
                    node as int,
                    j as nat,
                ),
            decreases children.len() - j,
        {
            let param = children[j];
            assert(params < param < t.nodes.len());
            let ghost before = *self;
            let ghost rest = parameters_from(*t, self.source@, self.language, params as int, node as int, (j + 1) as nat);
            let mut recorded = false;
            if holds(&self.config.parameter_nodes, t.nodes[param].kind.as_str()) {
                let name_fields: Vec<&'static str> = vec!["pattern", "name"];
                assert(texts(name_fields@) =~= seq!["pattern"@, "name"@]);
                let name_node = match self.first_field(param, &name_fields) {
                    Some(n) => Some(n),
                    None => if same_text(t.nodes[param].kind.as_str(), "typed_parameter")
                        && t.nodes[param].children.len() > 0 {
                        Some(t.nodes[param].children[0])
                    } else {
                        None
                    },
                };
                proof {
                    if name_node is Some {
                        assert(param < name_node->0 < t.nodes.len());
                    }
                }
                let type_node = self.field(param, "type");
                match (name_node, type_node) {
                    (Some(n), Some(ty)) => match (self.text(n), self.simple_type_name(ty)) {
                        (Some(name), Some(found_type)) => {
                            if is_plain_identifier(name) {
                                let b = RawBinding {
                                    scope: scope.to_owned(),
                                    name: name.to_owned(),
                                    source: TypeSource::Annotation(found_type),
                                };
                                let ghost bv = b;
                                proof {
                                    assert(binding_from(
                                        *self.tree,
                                        self.source@,
                                        self.language,
                                        self.fact_nodes@,
                                        self.facts@,
                                        (param as int, node as int),
                                        bv,
                                    ));
                                }
                                self.bindings.push(b);
                                self.binding_entries = Ghost(self.binding_entries@.push((param as int, node as int)));
                                proof {
                                    crate::declared::lemma_bindings_along_push(
                                        *self.tree,
                                        self.source@,
                                        self.language,
                                        self.fact_nodes@,
                                        self.facts@,
                                        before.binding_entries@,
                                        before.bindings@,
                                        (param as int, node as int),
                                        bv,
                                    );
                                    assert(self.bindings@ == before.bindings@.push(bv));
                                }
                                recorded = true;
                            }
                        },
                        _ => {},
                    },
                    _ => {},
                }
            }
            proof {
                let own = if crate::lang::spec_parameter_nodes(self.language).contains(t.nodes[param as int].kind@)
                    && parameter_binding_of(*t, self.source@, param as int) is Some {
                    seq![(param as int, node as int)]
                } else {
                    Seq::<(int, int)>::empty()
                };
                assert(parameters_from(*t, self.source@, self.language, params as int, node as int, j as nat) == own + rest);
                if recorded {
                    assert(self.binding_entries@ =~= before.binding_entries@ + own);
                } else {
                    assert(self.binding_entries@ =~= before.binding_entries@ + own);
                }
                assert(self.binding_entries@ + rest =~= before.binding_entries@ + (own + rest));
            }
            j = j + 1;
        }
        proof {
            assert(self.binding_entries@ + Seq::<(int, int)>::empty() =~= self.binding_entries@);
        }
    }

    /// Record a field's declared type, so field-access chains can resolve.
    fn record_field(&mut self, node: usize, ctx: &Context)
        requires
            old(self).good(),
            node < old(self).tree.nodes.len(),
            old(self).owns(ctx),
            ctx.owner_node@ == owner_above(*old(self).tree, old(self).source@, old(self).language, node as int),
        ensures
            final(self).good(),
            final(self).same_frame(&*old(self)),
            final(self).keeps_all_but_fields(&*old(self)),
            final(self).field_nodes@ == old(self).field_nodes@.push(node as int),
            final(self).field_owners@ == old(self).field_owners@.push(opt_chars(ctx.owning_type)),
            final(self).field_types@ == if ctx.owning_type is Some && field_of(
                *old(self).tree,
                old(self).source@,
                node as int,
            ) is Some {
                old(self).field_types@.insert(
                    (
                        ctx.owning_type->0@,
                        (field_of(*old(self).tree, old(self).source@, node as int)->0).0,
                    ),
                    (field_of(*old(self).tree, old(self).source@, node as int)->0).1,
                )
            } else {
                old(self).field_types@
            },
    {
        let ghost before = *self;
        proof {
            crate::declared::lemma_field_owners_push(
                *self.tree,
                self.source@,
                self.language,
                self.fact_nodes@,
                self.facts@,
                self.field_nodes@,
                self.field_owners@,
                node as int,
                opt_chars(ctx.owning_type),
            );
            crate::declared::lemma_fields_of_push(
                *self.tree,
                self.source@,
                self.field_nodes@,
                self.field_owners@,
                node as int,
                opt_chars(ctx.owning_type),
            );
        }
        self.field_nodes = Ghost(self.field_nodes@.push(node as int));
        self.field_owners = Ghost(self.field_owners@.push(opt_chars(ctx.owning_type)));
        let owner = match &ctx.owning_type {
            Some(o) => o,
            None => {
                return;
            },
        };
        let fields: Vec<&'static str> = vec!["name", "left"];
        assert(texts(fields@) =~= seq!["name"@, "left"@]);
        let name_node = self.first_field(node, &fields);
        let type_node = match self.field(node, "type") {
            Some(t) => t,
            None => {
                return;
            },
        };
        match (name_node, self.simple_type_name(type_node)) {
            (Some(n), Some(found_type)) => match self.text(n) {
                Some(name) => {
                    if is_plain_identifier(name) {
                        self.field_types.insert(owner.as_str(), name, found_type.as_str());
                    }
                },
                None => {},
            },
            _ => {},
        }
    }

    /// TypeScript `class X extends Y implements Z`.
    fn record_type_relations(&mut self, node: usize, simple_name: &str)
        requires
            old(self).good(),
            node < old(self).tree.nodes.len(),
            old(self).declares_at(node as int, simple_name@),
        ensures
            final(self).good(),
            final(self).same_frame(&*old(self)),
            final(self).keeps_all_but_relations(&*old(self)),
            final(self).relation_entries@ == old(self).relation_entries@ + heritage_from(
                *old(self).tree,
                old(self).source@,
                node as int,
                0,
            ),
    {
        let t = self.tree;
        let children = &t.nodes[node].children;
        let ghost start = *self;
        let mut j: usize = 0;
        while j < children.len()
            invariant
                t == self.tree,
                self.good(),
                self.same_frame(&start),
                self.keeps_all_but_relations(&start),
                self.declares_at(node as int, simple_name@),
                node < t.nodes.len(),
                children == &t.nodes[node as int].children,
                j <= children.len(),
                self.relation_entries@ + heritage_from(*t, self.source@, node as int, j as nat)
                    == start.relation_entries@ + heritage_from(*t, self.source@, node as int, 0),
            decreases children.len() - j,
        {
            let child = children[j];
            assert(node < child < t.nodes.len());
            let ghost outer = *self;
            let kind = t.nodes[child].kind.as_str();
            if same_text(kind, "class_heritage") || same_text(kind, "extends_type_clause") {
                let parts = &t.nodes[child].children;
                let mut k: usize = 0;
                while k < parts.len()
                    invariant
                        t == self.tree,
                        self.good(),
                        self.same_frame(&start),
                        self.keeps_all_but_relations(&start),
                        self.declares_at(node as int, simple_name@),
                        node < child < t.nodes.len(),
                        parts == &t.nodes[child as int].children,
                        k <= parts.len(),
                        self.relation_entries@ + clause_relations(*t, self.source@, node as int, child as int, k as nat)
                            == outer.relation_entries@ + clause_relations(*t, self.source@, node as int, child as int, 0),
                    decreases parts.len() - k,
                {
                    let part = parts[k];
                    assert(child < part < t.nodes.len());
                    let ghost inner = *self;
                    let part_kind = t.nodes[part].kind.as_str();
                    proof {
                        reveal_strlit("extends_clause");
                        reveal_strlit("implements_clause");
                        assert("extends_clause"@.len() != "implements_clause"@.len());
                    }
                    if same_text(part_kind, "extends_clause") {
                        self.record_relation_targets(part, simple_name, "extends", false, Ghost(node as int));
                    } else if same_text(part_kind, "implements_clause") {
                        self.record_relation_targets(part, simple_name, "implements", true, Ghost(node as int));
                    } else {
                        proof {
                            assert(self.relation_entries@ =~= inner.relation_entries@ + Seq::empty());
                        }
                    }
                    proof {
                        let rest = clause_relations(*t, self.source@, node as int, child as int, (k + 1) as nat);
                        let here = if t.nodes[part as int].kind@ == "extends_clause"@ {
                            heritage_targets(*t, self.source@, node as int, part as int, "extends"@, 0)
                        } else if t.nodes[part as int].kind@ == "implements_clause"@ {
                            heritage_targets(*t, self.source@, node as int, part as int, "implements"@, 0)
                        } else {
                            Seq::empty()
                        };
                        assert(clause_relations(*t, self.source@, node as int, child as int, k as nat) == here + rest);
                        assert(self.relation_entries@ == inner.relation_entries@ + here);
                        assert(self.relation_entries@ + rest =~= inner.relation_entries@ + (here + rest));
                    }
                    k = k + 1;
                }
                proof {
                    assert(self.relation_entries@ + Seq::empty() == self.relation_entries@);
                }
            } else if same_text(kind, "argument_list") && match &t.nodes[child].field {
                Some(f) => same_text(f.as_str(), "superclasses"),
                None => false,
            } {
                proof {
                    reveal_strlit("argument_list");
                    reveal_strlit("implements_clause");
                    assert("argument_list"@.len() != "implements_clause"@.len());
                }
                self.record_relation_targets(child, simple_name, "extends", false, Ghost(node as int));
            } else {
                proof {
                    assert(self.relation_entries@ =~= outer.relation_entries@ + Seq::empty());
                }
            }
            proof {
                let rest = heritage_from(*t, self.source@, node as int, (j + 1) as nat);
                let here = if t.nodes[child as int].kind@ == "class_heritage"@ || t.nodes[child as int].kind@
                    == "extends_type_clause"@ {
                    clause_relations(*t, self.source@, node as int, child as int, 0)
                } else if t.nodes[child as int].kind@ == "argument_list"@ && crate::syntax::opt_string_is(
                    t.nodes[child as int].field,
                    "superclasses"@,
                ) {
                    heritage_targets(*t, self.source@, node as int, child as int, "extends"@, 0)
                } else {
                    Seq::empty()
                };
                assert(heritage_from(*t, self.source@, node as int, j as nat) == here + rest);
                assert(self.relation_entries@ == outer.relation_entries@ + here);
                assert(self.relation_entries@ + rest =~= outer.relation_entries@ + (here + rest));
            }
            j = j + 1;
        }
        proof {
            assert(self.relation_entries@ + Seq::empty() == self.relation_entries@);
        }
    }

    /// Every named type beneath a heritage clause, but its keyword.
    fn record_relation_targets(
        &mut self,
        part: usize,
        simple_name: &str,
        keyword: &str,
        is_trait: bool,
        Ghost(owner): Ghost<int>,
    )
        requires
            old(self).good(),
            part < old(self).tree.nodes.len(),
            0 <= owner < part,
            old(self).declares_at(owner, simple_name@),
            is_trait == (old(self).tree.nodes[part as int].kind@ == "implements_clause"@),
        ensures
            final(self).good(),
            final(self).same_frame(&*old(self)),
            final(self).keeps_all_but_relations(&*old(self)),
            final(self).relation_entries@ == old(self).relation_entries@ + heritage_targets(
                *old(self).tree,
                old(self).source@,
                owner,
                part as int,
                keyword@,
                0,
            ),
    {
        let t = self.tree;
        let targets = &t.nodes[part].children;
        let ghost start = *self;
        let mut j: usize = 0;
        while j < targets.len()
            invariant
                t == self.tree,
                self.good(),
                self.same_frame(&start),
                self.keeps_all_but_relations(&start),
                self.declares_at(owner, simple_name@),
                0 <= owner < part < t.nodes.len(),
                is_trait == (t.nodes[part as int].kind@ == "implements_clause"@),
                targets == &t.nodes[part as int].children,
                j <= targets.len(),
                self.relation_entries@ + heritage_targets(*t, self.source@, owner, part as int, keyword@, j as nat)
                    == start.relation_entries@ + heritage_targets(*t, self.source@, owner, part as int, keyword@, 0),
            decreases targets.len() - j,
        {
            let target = targets[j];
            assert(part < target < t.nodes.len());
            let ghost before = *self;
            let ghost mut here: Seq<(int, int, int)> = Seq::empty();
            match self.simple_type_name(target) {
                Some(name) => {
                    if !same_text(name.as_str(), keyword) {
                        let relation = (simple_name.to_owned(), name, is_trait);
                        proof {
                            here = seq![(owner, part as int, target as int)];
                            crate::declared::lemma_relations_along_push(
                                *t,
                                self.source@,
                                self.fact_nodes@,
                                self.facts@,
                                self.relation_entries@,
                                self.type_relations@,
                                (owner, part as int, target as int),
                                relation,
                            );
                        }
                        self.type_relations.push(relation);
                        self.relation_entries = Ghost(self.relation_entries@.push((owner, part as int, target as int)));
                    }
                },
                None => {},
            }
            proof {
                let rest = heritage_targets(*t, self.source@, owner, part as int, keyword@, (j + 1) as nat);
                assert(heritage_targets(*t, self.source@, owner, part as int, keyword@, j as nat) == here + rest);
                assert(self.relation_entries@ =~= before.relation_entries@ + here);
                assert(self.relation_entries@ + rest =~= before.relation_entries@ + (here + rest));
            }
            j = j + 1;
        }
        proof {
            assert(self.relation_entries@ + Seq::empty() == self.relation_entries@);
        }
    }

    /// Rust `impl Trait for Type`: the trait relation emitted as
    /// `implements_trait`.
    fn record_impl_trait(&mut self, node: usize, impl_type: &str)
        requires
            old(self).good(),
            node < old(self).tree.nodes.len(),
            !crate::declared::declares(old(self).language, old(self).tree.nodes[node as int].kind@),
            impl_segment(*old(self).tree, old(self).source@, node as int) == Some(impl_type@),
        ensures
            final(self).good(),
            final(self).same_frame(&*old(self)),
            final(self).keeps_all_but_relations(&*old(self)),
            final(self).relation_entries@ == old(self).relation_entries@ + own_relations(
                *old(self).tree,
                old(self).source@,
                old(self).language,
                node as int,
            ),
    {
        match self.field(node, "trait") {
            Some(trait_node) => match self.simple_type_name(trait_node) {
                Some(trait_name) => {
                    let relation = (impl_type.to_owned(), trait_name, true);
                    proof {
                        crate::declared::lemma_relations_along_push(
                            *self.tree,
                            self.source@,
                            self.fact_nodes@,
                            self.facts@,
                            self.relation_entries@,
                            self.type_relations@,
                            (node as int, node as int, trait_node as int),
                            relation,
                        );
                    }
                    self.type_relations.push(relation);
                    self.relation_entries = Ghost(self.relation_entries@.push((node as int, node as int, trait_node as int)));
                },
                None => {
                    assert(self.relation_entries@ =~= self.relation_entries@ + Seq::empty());
                },
            },
            None => {
                assert(self.relation_entries@ =~= self.relation_entries@ + Seq::empty());
            },
        }
    }

    /// Classify a declaration's visibility. Every branch keys off the
    /// language's visibility style rather than off the language, so a new
    /// language declares how it spells visibility in its configuration.
    fn visibility_of(&self, node: usize, simple_name: &str) -> (v: Visibility)
        requires
            self.config.describes(self.language),
            self.tree.wf(),
            node < self.tree.nodes.len(),
        ensures
            v == declared_visibility(*self.tree, self.source@, self.language, node as int, simple_name@),
    {
        match self.config.visibility_style {
            VisibilityStyle::RustModifier => self.rust_visibility(node),
            VisibilityStyle::TypeScriptExport => self.typescript_visibility(node),
            VisibilityStyle::PythonUnderscore => python_visibility(simple_name),
        }
    }

    /// Rust: an explicit `pub`/`pub(…)` modifier, else the enclosing trait's
    /// visibility, else private.
    fn rust_visibility(&self, node: usize) -> (v: Visibility)
        requires
            self.config.describes(self.language),
            self.tree.wf(),
            node < self.tree.nodes.len(),
        ensures
            v == crate::declared::rust_visibility(*self.tree, self.source@, self.language, node as int),
    {
        match self.visibility_modifier_text(node) {
            Some(text) => {
                // `pub` alone is unrestricted; every parenthesized form
                // restricts to the defining unit.
                return if same_text(text.as_str(), "pub") {
                    Visibility::Public
                } else {
                    Visibility::Crate
                };
            },
            None => {},
        }
        // A trait's associated items carry the trait's visibility, and so do
        // the items of a trait `impl`: a caller reaches them through the
        // trait.
        if self.has_visibility_inheriting_ancestor(node) || self.in_trait_impl(node) {
            return Visibility::Public;
        }
        Visibility::Private
    }

    /// Whether the node sits inside an `impl Trait for Type` block, as
    /// opposed to an inherent `impl Type` block.
    fn in_trait_impl(&self, node: usize) -> (r: bool)
        requires
            self.config.describes(self.language),
            self.tree.wf(),
            node < self.tree.nodes.len(),
        ensures
            r == trait_impl_above(*self.tree, self.language, self.tree.nodes[node as int].parent),
    {
        let t = self.tree;
        let mut current = t.nodes[node].parent;
        proof {
            if node > 0 {
                assert(t.nodes[node as int].parent matches Some(p) && p < node);
            }
        }
        loop
            invariant
                self.tree.wf(),
                t == self.tree,
                node < t.nodes.len(),
                current matches Some(a) ==> a < t.nodes.len(),
                self.config.describes(self.language),
                trait_impl_above(*t, self.language, t.nodes[node as int].parent) == trait_impl_above(*t, self.language, current),
            decreases (match current {
                Some(a) => a + 1,
                None => 0,
            }),
        {
            match current {
                Some(a) => {
                    let kind = t.nodes[a].kind.as_str();
                    if same_text(kind, "impl_item") {
                        return self.field(a, "trait").is_some();
                    }
                    proof {
                        crate::declared::lemma_first_decl_is_form(self.config, self.language, kind@);
                    }
                    if self.config.decl_for(kind).is_some() {
                        return false;
                    }
                    proof {
                        if a > 0 {
                            assert(t.nodes[a as int].parent matches Some(p) && p < a);
                        }
                    }
                    current = t.nodes[a].parent;
                },
                None => {
                    return false;
                },
            }
        }
    }

    /// TypeScript/TSX: a class member's accessibility modifier, else
    /// `export` on the declaration, else private.
    fn typescript_visibility(&self, node: usize) -> (v: Visibility)
        requires
            self.config.describes(self.language),
            self.tree.wf(),
            node < self.tree.nodes.len(),
        ensures
            v == crate::declared::typescript_visibility(*self.tree, self.source@, self.language, node as int),
    {
        let t = self.tree;
        // `#name` is hard-private regardless of position.
        match self.field(node, "name") {
            Some(name) => {
                if same_text(t.nodes[name].kind.as_str(), "private_property_identifier") {
                    return Visibility::Private;
                }
            },
            None => {},
        }
        match self.visibility_modifier_text(node) {
            Some(text) => {
                return if same_text(text.as_str(), "private") {
                    Visibility::Private
                } else if same_text(text.as_str(), "protected") {
                    Visibility::Crate
                } else {
                    Visibility::Public
                };
            },
            None => {},
        }
        // A member of a class or interface body with no modifier is public;
        // the body's own declaration governs whether the type escapes.
        if self.is_type_member(node) || self.has_visibility_inheriting_ancestor(node) {
            return Visibility::Public;
        }
        if self.is_exported(node) {
            return Visibility::Public;
        }
        Visibility::Private
    }

    /// The trimmed text of a declaration's own visibility modifier.
    fn visibility_modifier_text(&self, node: usize) -> (r: Option<String>)
        requires
            self.config.describes(self.language),
            self.tree.wf(),
            node < self.tree.nodes.len(),
        ensures
            match r {
                Some(x) => visibility_modifier(*self.tree, self.source@, self.language, node as int) == Some(x@),
                None => visibility_modifier(*self.tree, self.source@, self.language, node as int) is None,
            },
    {
        let t = self.tree;
        let children = &t.nodes[node].children;
        let mut j: usize = 0;
        while j < children.len()
            invariant
                self.tree.wf(),
                t == self.tree,
                node < t.nodes.len(),
                children == &t.nodes[node as int].children,
                j <= children.len(),
                self.config.describes(self.language),
                visibility_modifier(*t, self.source@, self.language, node as int)
                    == crate::declared::modifier_from(*t, self.source@, self.language, node as int, j as nat),
            decreases children.len() - j,
        {
            let child = children[j];
            assert(node < child < t.nodes.len());
            if holds(&self.config.visibility_nodes, t.nodes[child].kind.as_str()) {
                match self.text(child) {
                    Some(text) => {
                        return Some(string_of(&trim_chars(&chars_of(text))));
                    },
                    None => {},
                }
            }
            j = j + 1;
        }
        None
    }

    /// Whether the declaration sits inside a body whose items inherit the
    /// enclosing declaration's visibility (a Rust trait, a TS interface).
    fn has_visibility_inheriting_ancestor(&self, node: usize) -> (r: bool)
        requires
            self.config.describes(self.language),
            self.tree.wf(),
            node < self.tree.nodes.len(),
        ensures
            r == inheriting_above(*self.tree, self.language, self.tree.nodes[node as int].parent),
    {
        let t = self.tree;
        let mut current = t.nodes[node].parent;
        proof {
            if node > 0 {
                assert(t.nodes[node as int].parent matches Some(p) && p < node);
            }
        }
        loop
            invariant
                self.tree.wf(),
                t == self.tree,
                node < t.nodes.len(),
                current matches Some(a) ==> a < t.nodes.len(),
                self.config.describes(self.language),
                inheriting_above(*t, self.language, t.nodes[node as int].parent) == inheriting_above(*t, self.language, current),
            decreases (match current {
                Some(a) => a + 1,
                None => 0,
            }),
        {
            match current {
                Some(a) => {
                    let kind = t.nodes[a].kind.as_str();
                    if holds(&self.config.visibility_inheriting_nodes, kind) {
                        return true;
                    }
                    proof {
                        crate::declared::lemma_first_decl_is_form(self.config, self.language, kind@);
                    }
                    if self.config.decl_for(kind).is_some() {
                        // A nearer declaration governs; stop before crossing it.
                        return false;
                    }
                    proof {
                        if a > 0 {
                            assert(t.nodes[a as int].parent matches Some(p) && p < a);
                        }
                    }
                    current = t.nodes[a].parent;
                },
                None => {
                    return false;
                },
            }
        }
    }

    /// Whether the node is declared directly in a class or interface body.
    fn is_type_member(&self, node: usize) -> (r: bool)
        requires
            self.tree.wf(),
            node < self.tree.nodes.len(),
        ensures
            r == type_member(*self.tree, node as int),
    {
        let t = self.tree;
        match t.nodes[node].parent {
            Some(p) => {
                assert(p < t.nodes.len());
                let kind = t.nodes[p].kind.as_str();
                same_text(kind, "class_body") || same_text(kind, "interface_body") || same_text(
                    kind,
                    "object_type",
                )
            },
            None => false,
        }
    }

    /// Whether a TypeScript declaration is wrapped in an `export` statement.
    fn is_exported(&self, node: usize) -> (r: bool)
        requires
            self.tree.wf(),
            node < self.tree.nodes.len(),
        ensures
            r == exported(*self.tree, node as int),
    {
        let t = self.tree;
        match t.nodes[node].parent {
            Some(p) => {
                assert(p < t.nodes.len());
                same_text(t.nodes[p].kind.as_str(), "export_statement")
            },
            None => false,
        }
    }

    /// Render a callable's normalized signature. Only the parameter list's
    /// own child nodes are read, so a comment or a line break inside the
    /// parentheses contributes nothing: that is what makes the rendering
    /// stable across reformatting.
    fn signature_of(&self, node: usize) -> (r: Option<String>)
        requires
            self.tree.wf(),
            self.config.describes(self.language),
            node < self.tree.nodes.len(),
        ensures
            opt_chars(r) == declared_signature(*self.tree, self.source@, self.language, node as int),
    {
        let t = self.tree;
        let params = match self.parameter_list(node) {
            Some(p) => p,
            None => {
                return None;
            },
        };
        let mut out: Vec<char> = vec!['('];
        let mut first = true;
        let children = &t.nodes[params].children;
        let mut j: usize = 0;
        proof {
            reveal_strlit("(");
            reveal_strlit(", ");
            reveal_strlit(")");
            reveal_strlit(" -> ");
        }
        while j < children.len()
            invariant
                self.tree.wf(),
                self.config.describes(self.language),
                t == self.tree,
                params < t.nodes.len(),
                children == &t.nodes[params as int].children,
                j <= children.len(),
                out@ == "("@ + comma_joined(rendered_upto(*t, self.source@, self.language, params as int, j as nat)),
                first == (rendered_upto(*t, self.source@, self.language, params as int, j as nat).len() == 0),
            decreases children.len() - j,
        {
            let param = children[j];
            assert(params < param < t.nodes.len());
            let p = &t.nodes[param];
            let ghost before = rendered_upto(*t, self.source@, self.language, params as int, j as nat);
            let ghost out_before = out@;
            if p.is_named && !self.config.is_comment(p.kind.as_str()) {
                match self.render_parameter(param) {
                    Some(text) => {
                        if !first {
                            out.push(',');
                            out.push(' ');
                        }
                        let rendered = chars_of(text.as_str());
                        extend_chars(&mut out, &rendered);
                        first = false;
                        proof {
                            reveal_strlit(", ");
                            let now = before.push(text@);
                            assert(rendered_upto(*t, self.source@, self.language, params as int, (j + 1) as nat) == now);
                            assert(now.drop_last() == before);
                            if before.len() == 0 {
                                assert(comma_joined(now) == text@);
                                assert(comma_joined(before) == Seq::<char>::empty());
                            }
                            assert(out@ == "("@ + comma_joined(now));
                        }
                    },
                    None => {},
                }
            }
            j = j + 1;
        }
        assert(children@.len() == j);
        out.push(')');
        match self.return_type_text(node) {
            Some(return_type) => {
                out.push(' ');
                out.push('-');
                out.push('>');
                out.push(' ');
                let rt = chars_of(return_type.as_str());
                extend_chars(&mut out, &rt);
            },
            None => {},
        }
        Some(string_of(&out))
    }

    /// The callable's parameter-list node, by field name or by node kind.
    fn parameter_list(&self, node: usize) -> (r: Option<usize>)
        requires
            self.tree.wf(),
            self.config.describes(self.language),
            node < self.tree.nodes.len(),
        ensures
            r matches Some(c) ==> node < c < self.tree.nodes.len(),
            r == crate::declared::parameter_list(*self.tree, self.language, node as int),
    {
        match self.field(node, "parameters") {
            Some(p) => {
                return Some(p);
            },
            None => {},
        }
        let t = self.tree;
        let children = &t.nodes[node].children;
        let mut j: usize = 0;
        while j < children.len()
            invariant
                self.tree.wf(),
                self.config.describes(self.language),
                t == self.tree,
                node < t.nodes.len(),
                children == &t.nodes[node as int].children,
                j <= children.len(),
                field_child(*t, node as int, "parameters"@) is None,
                kind_child_from(*t, node as int, crate::lang::spec_parameter_list_nodes(self.language), 0)
                    == kind_child_from(*t, node as int, crate::lang::spec_parameter_list_nodes(self.language), j as nat),
            decreases children.len() - j,
        {
            let child = children[j];
            assert(node < child < t.nodes.len());
            if holds(&self.config.parameter_list_nodes, t.nodes[child].kind.as_str()) {
                return Some(child);
            }
            j = j + 1;
        }
        None
    }

    /// One parameter, rendered as its declared type when it has one and as
    /// its binding name when it does not.
    fn render_parameter(&self, param: usize) -> (r: Option<String>)
        requires
            self.tree.wf(),
            param < self.tree.nodes.len(),
        ensures
            opt_chars(r) == rendered_parameter(*self.tree, self.source@, param as int),
    {
        let t = self.tree;
        let kind = t.nodes[param].kind.as_str();
        // A receiver is rendered uniformly, so `self`, `&self`, `&mut self`,
        // `this` and `cls` are not mistaken for signature changes.
        if same_text(kind, "self_parameter") {
            return Some("self".to_owned());
        }
        let name_fields: Vec<&'static str> = vec!["pattern", "name"];
        assert(texts(name_fields@) =~= seq!["pattern"@, "name"@]);
        let name_node = match self.first_field(param, &name_fields) {
            Some(n) => Some(n),
            None => if same_text(kind, "identifier") {
                Some(param)
            } else {
                None
            },
        };
        let name: Option<String> = match name_node {
            Some(n) => match self.text(n) {
                Some(text) => Some(string_of(&trim_chars(&chars_of(text)))),
                None => None,
            },
            None => None,
        };
        match &name {
            Some(n) => {
                if same_text(n.as_str(), "self") || same_text(n.as_str(), "cls") || same_text(
                    n.as_str(),
                    "this",
                ) {
                    return Some("self".to_owned());
                }
            },
            None => {},
        }
        match self.field(param, "type") {
            Some(type_node) => match self.normalized_type_text(type_node) {
                Some(text) => {
                    return Some(text);
                },
                None => {},
            },
            None => {},
        }
        // Unannotated: the name still carries the arity. A pattern the
        // grammar exposes no name field for falls back to its own source text
        // so the parameter is never silently dropped from the arity.
        match &name {
            Some(n) => {
                if !n.as_str().is_empty() {
                    return Some(collapse_whitespace(n.as_str()));
                }
            },
            None => {},
        }
        match self.text(param) {
            Some(text) => {
                let trimmed = string_of(&trim_chars(&chars_of(text)));
                if !trimmed.as_str().is_empty() {
                    Some(collapse_whitespace(trimmed.as_str()))
                } else {
                    None
                }
            },
            None => None,
        }
    }

    /// The declared return type, normalized, when the declaration states one.
    fn return_type_text(&self, node: usize) -> (r: Option<String>)
        requires
            self.tree.wf(),
            self.config.describes(self.language),
            node < self.tree.nodes.len(),
        ensures
            opt_chars(r) == crate::declared::return_type(*self.tree, self.source@, node as int),
    {
        let fields = &self.config.return_type_fields;
        let mut i: usize = 0;
        while i < fields.len()
            invariant
                self.tree.wf(),
                node < self.tree.nodes.len(),
                fields == &self.config.return_type_fields,
                texts(fields@) == seq!["return_type"@],
                crate::declared::return_type(*self.tree, self.source@, node as int)
                    == crate::declared::return_type_from(*self.tree, self.source@, node as int, texts(fields@), i as nat),
            decreases fields.len() - i,
        {
            match self.field(node, fields[i]) {
                Some(return_node) => match self.normalized_type_text(return_node) {
                    Some(text) => {
                        return Some(text);
                    },
                    None => {},
                },
                None => {},
            }
            i = i + 1;
        }
        None
    }

    /// A declared type's source text with its annotation punctuation
    /// stripped and every white-space run collapsed.
    fn normalized_type_text(&self, node: usize) -> (r: Option<String>)
        requires
            node < self.tree.nodes.len(),
        ensures
            opt_chars(r) == normalized_type(*self.tree, self.source@, node as int),
    {
        let text = match self.text(node) {
            Some(t) => t,
            None => {
                return None;
            },
        };
        let trimmed = trim_chars(&chars_of(text));
        proof {
            reveal_strlit("->");
            reveal_strlit(":");
            assert("->"@.len() == 2 && ":"@.len() == 1);
        }
        let stripped = if has_prefix(&trimmed, "->") {
            slice_chars(&trimmed, 2, trimmed.len())
        } else if has_prefix(&trimmed, ":") {
            slice_chars(&trimmed, 1, trimmed.len())
        } else {
            slice_chars(&trimmed, 0, trimmed.len())
        };
        proof {
            let tr = trimmed@;
            if crate::text::starts_with(tr, "->"@) {
                assert(stripped@ =~= tr.skip(2));
            } else if crate::text::starts_with(tr, ":"@) {
                assert(stripped@ =~= tr.skip(1));
            } else {
                assert(stripped@ =~= tr);
            }
        }
        let inner = string_of(&trim_chars(&stripped));
        let collapsed = collapse_whitespace(inner.as_str());
        if collapsed.as_str().is_empty() {
            None
        } else {
            Some(collapsed)
        }
    }

    fn simple_type_name(&self, node: usize) -> (r: Option<String>)
        requires
            node < self.tree.nodes.len(),
        ensures
            opt_chars(r) == simple_type_of(*self.tree, self.source@, node as int),
    {
        match self.text(node) {
            Some(text) => simplify_type(text),
            None => None,
        }
    }

    /// The name segment and simple name for a declaration.
    fn segment_for(&mut self, node: usize, decl: DeclKind, name_parent: &str) -> (r: (String, String))
        requires
            old(self).good(),
            node < old(self).tree.nodes.len(),
        ensures
            final(self).good(),
            final(self).same_frame(&*old(self)),
            final(self).keeps_products(&*old(self)),
            r.0@ == r.1@,
            match crate::declared::declared_name(*old(self).tree, old(self).source@, old(self).language, node as int) {
                Some(x) => r.1@ == x,
                None => exists|k: nat| r.1@ == crate::naming::spec_anonymous_segment(decl.kind@, k),
            },
    {
        let fields = &self.config.name_fields;
        let mut i: usize = 0;
        while i < fields.len()
            invariant
                *self == *old(self),
                self.good(),
                self.tree.wf(),
                node < self.tree.nodes.len(),
                fields == &self.config.name_fields,
                texts(fields@) == crate::lang::spec_name_fields(self.language),
                crate::declared::declared_name(*self.tree, self.source@, self.language, node as int)
                    == crate::declared::name_from(*self.tree, self.source@, node as int, texts(fields@), i as nat),
            decreases fields.len() - i,
        {
            match self.field(node, fields[i]) {
                Some(name_node) => match self.text(name_node) {
                    Some(text) => {
                        if !text.is_empty() {
                            return (text.to_owned(), text.to_owned());
                        }
                    },
                    None => {},
                },
                None => {},
            }
            i = i + 1;
        }
        // Anonymous: take the next ordinal for this kind under this parent.
        let ordinal = self.next_ordinal(name_parent, decl.kind);
        let segment = anonymous_segment(decl.kind, ordinal);
        assert(segment@ == crate::naming::spec_anonymous_segment(decl.kind@, ordinal as nat));
        (segment.clone(), segment)
    }

    /// The next ordinal for anonymous declarations of `kind` under `parent`:
    /// the count kept for the pair, which then goes up by one.
    fn next_ordinal(&mut self, parent: &str, kind: &'static str) -> (n: usize)
        requires
            old(self).good(),
        ensures
            final(self).good(),
            final(self).same_frame(&*old(self)),
            final(self).keeps_products(&*old(self)),
            n == counter_from(old(self).anon_counters@, parent@, kind@, 0),
            counter_from(final(self).anon_counters@, parent@, kind@, 0) == if n < usize::MAX {
                (n + 1) as usize
            } else {
                n
            },
            forall|p: Seq<char>, k: Seq<char>|
                !(p == parent@ && k == kind@) ==> counter_from(final(self).anon_counters@, p, k, 0)
                    == counter_from(old(self).anon_counters@, p, k, 0),
    {
        let ghost cs = self.anon_counters@;
        let mut i: usize = 0;
        let mut found = false;
        while i < self.anon_counters.len() && !found
            invariant
                self.anon_counters@ == cs,
                i <= self.anon_counters.len(),
                found ==> i < self.anon_counters.len() && counts_pair(cs[i as int], parent@, kind@),
                forall|m: int| 0 <= m < i && !(found && m == i) ==> !counts_pair(#[trigger] cs[m], parent@, kind@),
            decreases self.anon_counters.len() - i + (if found { 0int } else { 1int }),
        {
            if same_text(self.anon_counters[i].0.as_str(), parent) && same_text(self.anon_counters[i].1, kind) {
                found = true;
            } else {
                i = i + 1;
            }
        }
        proof {
            lemma_counter_skip(cs, parent@, kind@, 0, i as nat);
        }
        if found {
            let n = self.anon_counters[i].2;
            if n < usize::MAX {
                let entry = (self.anon_counters[i].0.clone(), kind, n + 1);
                self.anon_counters.set(i, entry);
                proof {
                    let cs2 = self.anon_counters@;
                    assert(cs2 == cs.update(i as int, entry));
                    assert forall|m: int| 0 <= m < i implies !counts_pair(#[trigger] cs2[m], parent@, kind@) by {
                        assert(cs2[m] == cs[m]);
                    }
                    lemma_counter_skip(cs2, parent@, kind@, 0, i as nat);
                    assert forall|p: Seq<char>, k: Seq<char>|
                        !(p == parent@ && k == kind@) implies counter_from(cs2, p, k, 0) == counter_from(cs, p, k, 0) by {
                        lemma_counter_update(cs, i as int, entry, p, k, 0);
                    }
                }
            }
            n
        } else {
            self.anon_counters.push((parent.to_owned(), kind, 1));
            proof {
                let cs2 = self.anon_counters@;
                assert(cs2[cs.len() as int].0@ == parent@);
                assert forall|p: Seq<char>, k: Seq<char>|
                    !(p == parent@ && k == kind@) implies counter_from(cs2, p, k, 0) == counter_from(cs, p, k, 0) by {
                    lemma_counter_push(cs, cs2[cs.len() as int], p, k, 0);
                }
                lemma_counter_push(cs, cs2[cs.len() as int], parent@, kind@, 0);
                assert(cs2 == cs.push(cs2[cs.len() as int]));
            }
            0
        }
    }

    /// For a Rust `impl` block, the implementing type's name: the name
    /// segment for the methods inside it.
    fn impl_type_segment(&self, node: usize) -> (r: Option<String>)
        requires
            self.tree.wf(),
            node < self.tree.nodes.len(),
        ensures
            opt_chars(r) == impl_segment(*self.tree, self.source@, node as int),
    {
        if !same_text(self.tree.nodes[node].kind.as_str(), "impl_item") {
            return None;
        }
        let type_node = match self.field(node, "type") {
            Some(t) => t,
            None => {
                return None;
            },
        };
        let text = match self.text(type_node) {
            Some(t) => t,
            None => {
                return None;
            },
        };
        // Strip generic arguments so `Store<T>` and `Store` name one type.
        let chars = chars_of(text);
        let mut k: usize = 0;
        assert(chars@.skip(0) =~= chars@);
        assert(chars@.take(0) + before_generics(chars@.skip(0)) =~= before_generics(chars@));
        while k < chars.len() && chars[k] != '<'
            invariant
                k <= chars.len(),
                before_generics(chars@) == chars@.take(k as int) + before_generics(chars@.skip(k as int)),
            decreases chars.len() - k,
        {
            assert(chars@.skip(k as int).drop_first() =~= chars@.skip(k + 1));
            assert(chars@.take(k + 1) =~= chars@.take(k as int).push(chars@[k as int]));
            assert(chars@.take(k as int) + before_generics(chars@.skip(k as int)) =~= chars@.take(k + 1)
                + before_generics(chars@.skip(k + 1)));
            k = k + 1;
        }
        assert(before_generics(chars@.skip(k as int)) =~= Seq::<char>::empty());
        assert(before_generics(chars@) =~= chars@.subrange(0, k as int));
        let base = trim_chars(&slice_chars(&chars, 0, k));
        if base.len() == 0 {
            None
        } else {
            Some(string_of(&base))
        }
    }

    /// Whether a declaration is recognized as a test by its language's
    /// convention.
    fn looks_like_test(&self, node: usize, simple_name: &str) -> (r: bool)
        requires
            self.tree.wf(),
            self.config.describes(self.language),
            node < self.tree.nodes.len(),
        ensures
            r == test_like(*self.tree, self.source@, self.language, node as int, simple_name@),
    {
        let name = chars_of(simple_name);
        if has_prefix(&name, "test_") || (has_prefix(&name, "test") && name.len() > 4) {
            return true;
        }
        // Rust: a `#[test]` or `#[tokio::test]` attribute precedes the item.
        let t = self.tree;
        let parent = match t.nodes[node].parent {
            Some(p) => p,
            None => {
                return false;
            },
        };
        assert(parent < t.nodes.len());
        let siblings = &t.nodes[parent].children;
        let mut pos: usize = 0;
        while pos < siblings.len() && siblings[pos] != node
            invariant
                pos <= siblings.len(),
                child_position(siblings@, node, 0) == child_position(siblings@, node, pos as nat),
            decreases siblings.len() - pos,
        {
            pos = pos + 1;
        }
        let ghost start = pos;
        proof {
            reveal_strlit("test_");
            reveal_strlit("test");
            assert(!crate::declared::test_name(simple_name@));
        }
        while pos > 0
            invariant
                self.tree.wf(),
                self.config.describes(self.language),
                t == self.tree,
                parent < t.nodes.len(),
                siblings == &t.nodes[parent as int].children,
                pos <= siblings.len(),
                test_attribute_before(*t, self.source@, self.language, parent as int, start as nat)
                    == test_attribute_before(*t, self.source@, self.language, parent as int, pos as nat),
                start == child_position(siblings@, node, 0),
                t.nodes[node as int].parent == Some(parent),
                !crate::declared::test_name(simple_name@),
            decreases pos,
        {
            let prev = siblings[pos - 1];
            assert(parent < prev < t.nodes.len());
            if !self.config.is_attribute(t.nodes[prev].kind.as_str()) {
                return false;
            }
            match self.text(prev) {
                Some(text) => {
                    if find_text(&chars_of(text), "test").is_some() {
                        return true;
                    }
                },
                None => {},
            }
            pos = pos - 1;
        }
        false
    }
}

/// The number of line endings in the characters.
pub open spec fn newline_count(s: Seq<char>) -> nat
    decreases s.len(),
{
    if s.len() == 0 {
        0
    } else if s.last() == '\n' {
        newline_count(s.drop_last()) + 1
    } else {
        newline_count(s.drop_last())
    }
}

/// The number of lines `str::lines` yields: one per line ending, plus a
/// final line that has none.
pub open spec fn line_count(s: Seq<char>) -> nat {
    if s.len() == 0 {
        0
    } else if s.last() == '\n' {
        newline_count(s)
    } else {
        newline_count(s) + 1
    }
}

proof fn lemma_newline_count_bound(s: Seq<char>)
    ensures
        newline_count(s) <= s.len(),
    decreases s.len(),
{
    if s.len() > 0 {
        lemma_newline_count_bound(s.drop_last());
    }
}

/// The number of lines `str::lines` yields for the characters.
fn count_lines(content: &Vec<char>) -> (lines: usize)
    ensures
        lines == line_count(content@),
{
    let mut newlines: usize = 0;
    let mut i: usize = 0;
    while i < content.len()
        invariant
            i <= content.len(),
            newlines == newline_count(content@.take(i as int)),
            newlines <= i,
        decreases content.len() - i,
    {
        proof {
            let t = content@.take(i + 1);
            assert(t.drop_last() == content@.take(i as int));
            assert(t.last() == content@[i as int]);
        }
        if content[i] == '\n' {
            newlines = newlines + 1;
        }
        i = i + 1;
    }
    assert(content@.take(content.len() as int) == content@);
    if content.len() == 0 || content[content.len() - 1] == '\n' {
        newlines
    } else {
        proof {
            lemma_newline_count_bound(content@.drop_last());
        }
        newlines + 1
    }
}

/// The file fact and the walker's facts, comments and calls, assembled,
/// keep containment in order and every owner a fact.
#[verifier::spinoff_prover]
proof fn lemma_assembled(
    all: Seq<CodeFact>,
    first: Seq<CodeFact>,
    rest: Seq<CodeFact>,
    fqn: Seq<char>,
    path: Seq<char>,
    comments: Seq<CommentText>,
    calls: Seq<CallSite>,
)
    requires
        all == first + rest,
        first.len() == 1,
        first[0].qualified_name@ == fqn,
        first[0].path@ == path,
        facts_placed(rest, fqn, path),
        forall|i: int| 0 <= i < comments.len() ==> names_a_fact(rest, fqn, #[trigger] comments[i].owner@),
        forall|i: int| 0 <= i < calls.len() ==> names_a_fact(rest, fqn, #[trigger] calls[i].caller@),
    ensures
        contained_in_order(all),
        forall|i: int| 0 <= i < all.len() ==> (#[trigger] all[i]).path@ == path,
        forall|i: int| 0 <= i < comments.len() ==> is_fact_name(all, #[trigger] comments[i].owner@),
        forall|i: int| 0 <= i < calls.len() ==> is_fact_name(all, #[trigger] calls[i].caller@),
{
    assert forall|i: int| 1 <= i < all.len() implies ((#[trigger] all[i]).parent matches Some(p) && exists|j: int|
        0 <= j < i && all[j].qualified_name@ == p@) by {
        assert(all[i] == rest[i - 1]);
        let p = rest[i - 1].parent.unwrap();
        assert(names_a_fact(rest.take(i - 1), fqn, p@));
        if p@ == fqn {
            assert(all[0].qualified_name@ == p@);
        } else {
            let k = choose|k: int| 0 <= k < rest.take(i - 1).len() && #[trigger] rest.take(i - 1)[k].qualified_name@ == p@;
            assert(all[k + 1] == rest[k]);
            assert(all[k + 1].qualified_name@ == p@);
        }
    }
    assert forall|i: int| 0 <= i < comments.len() implies is_fact_name(all, #[trigger] comments[i].owner@) by {
        let q = comments[i].owner@;
        if q == fqn {
            assert(all[0].qualified_name@ == q);
        } else {
            let k = choose|k: int| 0 <= k < rest.len() && #[trigger] rest[k].qualified_name@ == q;
            assert(all[k + 1] == rest[k]);
        }
    }
    assert forall|i: int| 0 <= i < calls.len() implies is_fact_name(all, #[trigger] calls[i].caller@) by {
        let q = calls[i].caller@;
        if q == fqn {
            assert(all[0].qualified_name@ == q);
        } else {
            let k = choose|k: int| 0 <= k < rest.len() && #[trigger] rest[k].qualified_name@ == q;
            assert(all[k + 1] == rest[k]);
        }
    }
    assert forall|i: int| 0 <= i < all.len() implies (#[trigger] all[i]).path@ == path by {
        if i > 0 {
            assert(all[i] == rest[i - 1]);
        }
    }
}

/// Every fact after the first sits beneath a fact that precedes it: the
/// containment edges form a tree rooted at the file.
pub open spec fn contained_in_order(facts: Seq<CodeFact>) -> bool {
    forall|i: int|
        1 <= i < facts.len() ==> ((#[trigger] facts[i]).parent matches Some(p) && exists|j: int|
            0 <= j < i && facts[j].qualified_name@ == p@)
}

/// `q` is the qualified name of one of the facts.
pub open spec fn is_fact_name(facts: Seq<CodeFact>, q: Seq<char>) -> bool {
    exists|j: int| 0 <= j < facts.len() && #[trigger] facts[j].qualified_name@ == q
}

/// The output begins with the file's own `code_file` fact: named for the
/// file, spanning its lines, public, with no parent and no signature.
pub open spec fn opens_with_file_fact(out: ParsedFile, file: SourceFile) -> bool {
    let path = crate::naming::spec_normalize_path(file.path@);
    let lines = line_count(file.content@);
    &&& out.file_qualified_name@ == spec_file_name(file.org@, file.repo@, path)
    &&& out.facts.len() >= 1
    &&& out.facts[0].object_type == ObjectType::CodeFile
    &&& out.facts[0].kind@ == "file"@
    &&& out.facts[0].qualified_name@ == out.file_qualified_name@
    &&& out.facts[0].simple_name@ == path
    &&& out.facts[0].span == (LineSpan {
        start: 1,
        end: if lines == 0 { 1 } else { #[verifier::truncate] (lines as u32) },
    })
    &&& out.facts[0].parent.is_none()
    &&& out.facts[0].visibility == Visibility::Public
    &&& out.facts[0].signature.is_none()
}

/// Every fact lies in the file, containment runs from earlier facts to later
/// ones, and every comment and call belongs to a fact.
pub open spec fn facts_hang_together(out: ParsedFile, file: SourceFile) -> bool {
    &&& forall|i: int| 0 <= i < out.facts.len() ==> (#[trigger] out.facts[i]).path@
        == crate::naming::spec_normalize_path(file.path@)
    &&& contained_in_order(out.facts@)
    &&& forall|i: int| 0 <= i < out.comments.len() ==> is_fact_name(out.facts@, #[trigger] out.comments[i].owner@)
    &&& forall|i: int| 0 <= i < out.calls.len() ==> is_fact_name(out.facts@, #[trigger] out.calls[i].caller@)
}

/// The file's `code_file` fact alone, with nothing else recovered.
fn file_only(file: &SourceFile) -> (out: ParsedFile)
    ensures
        opens_with_file_fact(out, *file),
        facts_hang_together(out, *file),
        out.facts.len() == 1,
        out.diagnostics.len() == 0,
        out.imports.len() == 0,
        out.comments.len() == 0,
        out.bindings.len() == 0,
        out.calls.len() == 0,
        out.type_relations.len() == 0,
        out.return_types@ == Map::<Seq<char>, Seq<char>>::empty(),
        out.enclosing_types@ == Map::<Seq<char>, Seq<char>>::empty(),
        out.field_types@ == Map::<(Seq<char>, Seq<char>), Seq<char>>::empty(),
{
    let path = file.normalized_path();
    let fqn = file_name(file.org.as_str(), file.repo.as_str(), path.as_str());
    // The code_file fact is emitted for every accepted file, including one
    // that declares nothing and one whose root is an error node.
    let content = chars_of(file.content.as_str());
    let lines = count_lines(&content);
    let line_total: u32 = if lines == 0 { 1 } else { #[verifier::truncate] (lines as u32) };
    let file_fact = CodeFact {
        object_type: ObjectType::CodeFile,
        kind: "file",
        qualified_name: fqn.clone(),
        simple_name: path.clone(),
        path: path.clone(),
        span: LineSpan { start: 1, end: line_total },
        parent: None,
        // A file is the unit a consumer addresses from outside.
        visibility: Visibility::Public,
        signature: None,
    };
    ParsedFile {
        facts: vec![file_fact],
        diagnostics: Vec::new(),
        imports: Vec::new(),
        comments: Vec::new(),
        file_qualified_name: fqn,
        bindings: Vec::new(),
        calls: Vec::new(),
        enclosing_types: TextMap::new(),
        return_types: TextMap::new(),
        field_types: PairMap::new(),
        type_relations: Vec::new(),
    }
}

/// The message for a file above the extraction bound: its size and the
/// bound, in bytes.
pub open spec fn too_large_message(size: usize) -> Seq<char> {
    "file is "@ + crate::naming::decimal(size as nat) + " bytes, above the "@ + crate::naming::decimal(
        MAX_FILE_BYTES as nat,
    ) + "-byte extraction bound"@
}

/// The file fact alone, with one `parser_unavailable` error for the whole
/// file, and nothing parsed.
pub open spec fn grammar_unavailable(file: SourceFile, out: ParsedFile) -> bool {
    &&& out.facts.len() == 1
    &&& out.imports.len() == 0
    &&& out.comments.len() == 0
    &&& out.bindings.len() == 0
    &&& out.calls.len() == 0
    &&& out.diagnostics.len() == 1
    &&& out.diagnostics[0].code@ == "parser_unavailable"@
    &&& out.diagnostics[0].message@ == "the grammar failed to produce a syntax tree"@
    &&& out.diagnostics[0].path@ == crate::naming::spec_normalize_path(file.path@)
    &&& out.diagnostics[0].line is None
    &&& out.diagnostics[0].column is None
    &&& out.diagnostics[0].severity == crate::facts::Severity::Error
}

/// What parsing a file yields: the file fact first and facts hanging
/// together; for a file above the bound, the file fact and one
/// `file_too_large` error; otherwise what walking the arena of the
/// grammar's tree yields, or, when the grammar gives no tree, the file fact
/// and one `parser_unavailable` error.
pub open spec fn parsed_from(file: SourceFile, out: ParsedFile) -> bool {
    &&& (opens_with_file_fact(out, file))
    &&& (facts_hang_together(out, file))
    &&& (encode_len(file.content@) > MAX_FILE_BYTES ==> {
                &&& out.facts.len() == 1
                &&& out.imports.len() == 0
                &&& out.comments.len() == 0
                &&& out.bindings.len() == 0
                &&& out.calls.len() == 0
                &&& out.diagnostics.len() == 1
                &&& out.diagnostics[0].code@ == "file_too_large"@
                &&& out.diagnostics[0].message@ == too_large_message(encode_len(file.content@))
                &&& out.diagnostics[0].path@ == crate::naming::spec_normalize_path(file.path@)
                &&& out.diagnostics[0].line is None
                &&& out.diagnostics[0].column is None
                &&& out.diagnostics[0].severity == crate::facts::Severity::Error
            })
    &&& (encode_len(file.content@) <= MAX_FILE_BYTES ==> match grammar_nodes(file.content@, file.language) {
                Some(es) => if depths_valid(es) {
                    exists|t: SyntaxTree| t.wf() && arena_of(t, es) && walked_into(file, t, out)
                } else {
                    grammar_unavailable(file, out)
                },
                None => grammar_unavailable(file, out),
            })
}

/// Parse one file into facts, diagnostics, imports and comments.
///
/// Never panics: malformed input, oversized input and grammar failures all
/// come back as diagnostics.
pub fn parse_file(file: &SourceFile) -> (out: ParsedFile)
    ensures
        parsed_from(*file, out),
{
    let content_text: &str = file.content.as_str();
    let size = content_text.len();
    assert(size == encode_len(file.content@));
    if size > MAX_FILE_BYTES {
        let mut out = file_only(file);
        let path = file.normalized_path();
        let mut message = chars_of("file is ");
        extend_chars(&mut message, &decimal_chars(size));
        extend_chars(&mut message, &chars_of(" bytes, above the "));
        extend_chars(&mut message, &decimal_chars(MAX_FILE_BYTES));
        extend_chars(&mut message, &chars_of("-byte extraction bound"));
        proof {
            reveal_strlit("file is ");
            reveal_strlit(" bytes, above the ");
            reveal_strlit("-byte extraction bound");
            assert(message@ =~= too_large_message(size));
        }
        out.diagnostics.push(Diagnostic::file_error(path.as_str(), "file_too_large", string_of(&message)));
        return out;
    }
    match syntax_tree(file.content.as_str(), file.language) {
        Some(tree) => {
            let out = parse_tree(file, &tree);
            proof {
                let es = grammar_nodes(file.content@, file.language)->0;
                assert(tree.wf() && arena_of(tree, es) && walked_into(*file, tree, out));
            }
            out
        },
        None => {
            let mut out = file_only(file);
            let path = file.normalized_path();
            out.diagnostics.push(
                Diagnostic::file_error(
                    path.as_str(),
                    "parser_unavailable",
                    "the grammar failed to produce a syntax tree".to_owned(),
                ),
            );
            proof {
                reveal_strlit("the grammar failed to produce a syntax tree");
            }
            out
        },
    }
}

/// What walking a file's syntax tree yields: the file fact first, facts
/// hanging together, one `parse_error` diagnostic at the first error node
/// exactly when the root holds an error, the file fact alone for an error
/// root, and otherwise the declarations, imports, comments, calls,
/// bindings, type relations and return-, enclosing- and field-type tables
/// the tree holds, in walk order.
pub open spec fn walked_into(file: SourceFile, tree: SyntaxTree, out: ParsedFile) -> bool {
    &&& (opens_with_file_fact(out, file))
    &&& (facts_hang_together(out, file))
    &&& (out.diagnostics.len() == (if tree.nodes[0].has_error { 1int } else { 0int }))
    &&& (tree.nodes[0].has_error ==> {
                &&& out.diagnostics[0].code@ == "parse_error"@
                &&& out.diagnostics[0].message@ == "syntax error"@
                &&& out.diagnostics[0].path@ == crate::naming::spec_normalize_path(file.path@)
                &&& out.diagnostics[0].line == Some(error_position(tree).0)
                &&& out.diagnostics[0].column == Some(error_position(tree).1)
            })
    &&& (tree.nodes[0].is_error ==> out.facts.len() == 1 && out.comments.len() == 0 && out.imports.len() == 0
                && out.calls.len() == 0)
    &&& (!tree.nodes[0].is_error ==> parents_placed(
                tree,
                file.language,
                out.file_qualified_name@,
                walked_declarations(tree, file.language),
                out.facts@.skip(1),
            ))
    &&& (!tree.nodes[0].is_error ==> import_views(out.imports@) == walked_imports(tree, file.content@, file.language))
    &&& (!tree.nodes[0].is_error ==> bindings_along(
                tree,
                file.content@,
                file.language,
                walked_declarations(tree, file.language),
                out.facts@.skip(1),
                walked_bindings(tree, file.content@, file.language),
                out.bindings@,
            ))
    &&& (!tree.nodes[0].is_error ==> calls_along(
                tree,
                file.content@,
                file.language,
                out.file_qualified_name@,
                walked_declarations(tree, file.language),
                out.facts@.skip(1),
                walked_calls(tree, file.content@, file.language),
                out.calls@,
            ))
    &&& (!tree.nodes[0].is_error ==> comments_along(
                tree,
                file.content@,
                file.language,
                out.file_qualified_name@,
                walked_declarations(tree, file.language),
                out.facts@.skip(1),
                walked_comments(tree, file.content@, file.language),
                out.comments@,
            ))
    &&& (!tree.nodes[0].is_error ==> declared_along(
                tree,
                file.content@,
                file.language,
                walked_declarations(tree, file.language),
                out.facts@.skip(1),
            ))
    &&& (!tree.nodes[0].is_error ==> relations_along(
                tree,
                file.content@,
                walked_declarations(tree, file.language),
                out.facts@.skip(1),
                walked_relations(tree, file.content@, file.language),
                out.type_relations@,
            ))
    &&& (!tree.nodes[0].is_error ==> out.return_types@ == returns_of(
                tree,
                file.content@,
                walked_declarations(tree, file.language),
                out.facts@.skip(1),
            ))
    &&& (!tree.nodes[0].is_error ==> exists|owners: Seq<Option<Seq<char>>>|
                owners_named(
                    tree,
                    file.content@,
                    file.language,
                    walked_declarations(tree, file.language),
                    out.facts@.skip(1),
                    owners,
                ) && out.enclosing_types@ == enclosings_of(out.facts@.skip(1), owners))
    &&& (!tree.nodes[0].is_error ==> exists|owners: Seq<Option<Seq<char>>>|
                field_owners_named(
                    tree,
                    file.content@,
                    file.language,
                    walked_declarations(tree, file.language),
                    out.facts@.skip(1),
                    walked_fields(tree, file.language),
                    owners,
                ) && out.field_types@ == fields_of(tree, file.content@, walked_fields(tree, file.language), owners))
    &&& (tree.nodes[0].is_error ==> out.field_types@ == Map::<(Seq<char>, Seq<char>), Seq<char>>::empty())
    &&& (tree.nodes[0].is_error ==> out.type_relations.len() == 0 && out.return_types@ == Map::<
        Seq<char>,
        Seq<char>,
    >::empty() && out.enclosing_types@ == Map::<Seq<char>, Seq<char>>::empty())
}

/// Walk a file's syntax tree into facts, diagnostics, imports, comments,
/// bindings and calls.
///
/// A tree whose root holds an error yields one `parse_error` diagnostic at
/// the first error node; a root that is itself an error node yields the
/// `code_file` fact alone.
pub fn parse_tree(file: &SourceFile, tree: &SyntaxTree) -> (out: ParsedFile)
    requires
        tree.wf(),
    ensures
        walked_into(*file, *tree, out),
{
    let mut out = file_only(file);
    let path = file.normalized_path();
    let fqn = out.file_qualified_name.clone();
    if tree.nodes[0].has_error {
        let (line, column) = match first_error_position(tree) {
            Some(p) => p,
            None => (1, 0),
        };
        out.diagnostics.push(Diagnostic::parse_error(path.as_str(), "syntax error".to_owned(), line, column));
    }
    // An error-node root means nothing in the file is trustworthy: emit the
    // code_file fact alone.
    if tree.nodes[0].is_error {
        return out;
    }
    let mut walker = Walker {
        source: file.content.as_str(),
        tree: tree,
        language: file.language,
        config: file.language.config(),
        path: path.clone(),
        file: fqn.clone(),
        facts: Vec::new(),
        comments: Vec::new(),
        imports: Vec::new(),
        anon_counters: Vec::new(),
        bindings: Vec::new(),
        calls: Vec::new(),
        enclosing_types: TextMap::new(),
        return_types: TextMap::new(),
        field_types: PairMap::new(),
        type_relations: Vec::new(),
        fact_nodes: Ghost(Seq::empty()),
        comment_nodes: Ghost(Seq::empty()),
        call_nodes: Ghost(Seq::empty()),
        binding_entries: Ghost(Seq::empty()),
        relation_entries: Ghost(Seq::empty()),
        fact_owners: Ghost(Seq::empty()),
        field_nodes: Ghost(Seq::empty()),
        field_owners: Ghost(Seq::empty()),
    };
    let root_ctx = Context {
        name_parent: fqn.clone(),
        contain_parent: fqn.clone(),
        contain_node: Ghost(None),
        scope_node: Ghost(None),
        owner_node: Ghost(None),
        scope: FILE_SCOPE.to_owned(),
        owning_type: None,
        in_test: false,
    };
    walker.walk(0, &root_ctx);
    let ghost walker_nodes = walker.fact_nodes@;
    let ghost walker_comment_nodes = walker.comment_nodes@;
    let ghost walker_call_nodes = walker.call_nodes@;
    let ghost walker_bindings = walker.binding_entries@;
    let ghost walker_relations = walker.relation_entries@;
    let ghost walker_owners = walker.fact_owners@;
    let ghost walker_field_nodes = walker.field_nodes@;
    let ghost walker_field_owners = walker.field_owners@;
    let Walker { facts, comments, imports, bindings, calls, enclosing_types, return_types, field_types, type_relations, .. } = walker;
    let ghost first = out.facts@;
    let ghost rest = facts@;
    let mut facts = facts;
    out.facts.append(&mut facts);
    proof {
        lemma_assembled(out.facts@, first, rest, fqn@, path@, comments@, calls@);
        assert(out.facts@.skip(1) == rest);
        assert(walker_nodes == walked_declarations(*tree, file.language));
        assert(walker_comment_nodes == walked_comments(*tree, file.content@, file.language));
        assert(walker_call_nodes == walked_calls(*tree, file.content@, file.language));
        assert(walker_bindings == walked_bindings(*tree, file.content@, file.language));
        assert(walker_relations == walked_relations(*tree, file.content@, file.language));
        assert(owners_named(*tree, file.content@, file.language, walker_nodes, rest, walker_owners));
        assert(walker_field_nodes == walked_fields(*tree, file.language));
        assert(field_owners_named(
            *tree,
            file.content@,
            file.language,
            walker_nodes,
            rest,
            walker_field_nodes,
            walker_field_owners,
        ));
    }
    out.comments = comments;
    out.imports = imports;
    out.bindings = bindings;
    out.calls = calls;
    out.enclosing_types = enclosing_types;
    out.return_types = return_types;
    out.field_types = field_types;
    out.type_relations = type_relations;
    out
}

/// A counter entry counts anonymous declarations of `kind` under `parent`.
spec fn counts_pair(e: (String, &'static str, usize), parent: Seq<char>, kind: Seq<char>) -> bool {
    e.0@ == parent && e.1@ == kind
}

/// The count the counters hold for `kind` under `parent`: that of the
/// first entry for the pair at position `i` or after, zero when none is.
spec fn counter_from(cs: Seq<(String, &'static str, usize)>, parent: Seq<char>, kind: Seq<char>, i: nat) -> usize
    decreases cs.len() - i,
{
    if i >= cs.len() {
        0
    } else if counts_pair(cs[i as int], parent, kind) {
        cs[i as int].2
    } else {
        counter_from(cs, parent, kind, i + 1)
    }
}

/// Entries for other pairs before position `j` leave the count as it is
/// from `j` on.
proof fn lemma_counter_skip(cs: Seq<(String, &'static str, usize)>, parent: Seq<char>, kind: Seq<char>, i: nat, j: nat)
    requires
        i <= j <= cs.len(),
        forall|m: int| i <= m < j ==> !counts_pair(#[trigger] cs[m], parent, kind),
    ensures
        counter_from(cs, parent, kind, i) == counter_from(cs, parent, kind, j),
    decreases j - i,
{
    if i < j {
        lemma_counter_skip(cs, parent, kind, i + 1, j);
    }
}

/// Changing the count of the entry at `at` leaves the count of every other
/// pair as it was.
proof fn lemma_counter_update(
    cs: Seq<(String, &'static str, usize)>,
    at: int,
    e: (String, &'static str, usize),
    parent: Seq<char>,
    kind: Seq<char>,
    i: nat,
)
    requires
        0 <= at < cs.len(),
        e.0@ == cs[at].0@,
        e.1@ == cs[at].1@,
        !(parent == cs[at].0@ && kind == cs[at].1@),
    ensures
        counter_from(cs.update(at, e), parent, kind, i) == counter_from(cs, parent, kind, i),
    decreases cs.len() - i,
{
    if i < cs.len() {
        lemma_counter_update(cs, at, e, parent, kind, i + 1);
        if i as int != at {
            assert(cs.update(at, e)[i as int] == cs[i as int]);
        }
    }
}

/// A new last entry for a pair no entry counts is that pair's count, and
/// leaves every other pair's as it was.
proof fn lemma_counter_push(
    cs: Seq<(String, &'static str, usize)>,
    e: (String, &'static str, usize),
    parent: Seq<char>,
    kind: Seq<char>,
    i: nat,
)
    requires
        i <= cs.len(),
        forall|m: int| 0 <= m < cs.len() ==> !counts_pair(#[trigger] cs[m], e.0@, e.1@),
    ensures
        counter_from(cs.push(e), parent, kind, i) == if parent == e.0@ && kind == e.1@ {
            e.2
        } else {
            counter_from(cs, parent, kind, i)
        },
    decreases cs.len() - i,
{
    if i < cs.len() {
        assert(cs.push(e)[i as int] == cs[i as int]);
        lemma_counter_push(cs, e, parent, kind, i + 1);
    } else {
        assert(cs.push(e)[i as int] == e);
        assert(counter_from(cs.push(e), parent, kind, i + 1) == 0);
    }
}

/// The byte length of a text's UTF-8 encoding, as `str::len` reports it.
pub open spec fn encode_len(s: Seq<char>) -> usize {
    vstd::utf8::encode_utf8(s).len() as usize
}

/// The one-based line span of a node.
fn span_of(t: &SyntaxTree, n: usize) -> (s: LineSpan)
    requires
        n < t.nodes.len(),
    ensures
        s == node_span(*t, n as int),
{
    LineSpan { start: line_number(t.nodes[n].start_row), end: line_number(t.nodes[n].end_row) }
}

/// An import specifier with surrounding quotes and backticks removed.
fn trim_quotes(text: &str) -> (out: Vec<char>)
    ensures
        out@ == unquoted(text@),
{
    let c = chars_of(text);
    let mut lo: usize = 0;
    assert(c@.skip(0) =~= c@);
    while lo < c.len() && (c[lo] == '"' || c[lo] == '\'' || c[lo] == '`')
        invariant
            lo <= c.len(),
            strip_leading_quotes(c@) == strip_leading_quotes(c@.skip(lo as int)),
        decreases c.len() - lo,
    {
        assert(c@.skip(lo as int).drop_first() =~= c@.skip(lo + 1));
        lo = lo + 1;
    }
    let ghost front = c@.skip(lo as int);
    assert(strip_leading_quotes(c@) == front);
    let mut hi: usize = c.len();
    assert(c@.subrange(lo as int, c.len() as int) =~= front);
    while hi > lo && (c[hi - 1] == '"' || c[hi - 1] == '\'' || c[hi - 1] == '`')
        invariant
            lo <= hi <= c.len(),
            front == c@.skip(lo as int),
            strip_trailing_quotes(front) == strip_trailing_quotes(c@.subrange(lo as int, hi as int)),
        decreases hi - lo,
    {
        assert(c@.subrange(lo as int, hi as int).drop_last() =~= c@.subrange(lo as int, hi - 1));
        hi = hi - 1;
    }
    slice_chars(&c, lo, hi)
}

proof fn lemma_walk_start<'a>(a: &Walker<'a>, node: int)
    ensures
        a.walk_progress(a, node, 0),
{
}

/// Visiting child `j` of `node` carries the walk's progress past it.
proof fn lemma_walk_advance<'a>(start: &Walker<'a>, before: &Walker<'a>, after: &Walker<'a>, node: int, j: nat)
    requires
        before.walk_progress(start, node, j),
        0 <= node < before.tree.nodes.len(),
        j < before.tree.nodes[node].children.len(),
        node < before.tree.nodes[node].children[j as int] < before.tree.nodes.len(),
        after.tree == before.tree,
        after.source == before.source,
        after.language == before.language,
        after.fact_nodes@ == before.fact_nodes@ + visited(
            *before.tree,
            before.language,
            before.tree.nodes[node].children[j as int] as int,
        ),
        after.comment_nodes@ == before.comment_nodes@ + comment_nodes_visited(
            *before.tree,
            before.source@,
            before.language,
            before.tree.nodes[node].children[j as int] as int,
        ),
        import_views(after.imports@) == import_views(before.imports@) + imports_visited(
            *before.tree,
            before.source@,
            before.language,
            before.tree.nodes[node].children[j as int] as int,
        ),
        after.call_nodes@ == before.call_nodes@ + call_nodes_visited(
            *before.tree,
            before.source@,
            before.language,
            before.tree.nodes[node].children[j as int] as int,
        ),
        after.binding_entries@ == before.binding_entries@ + bindings_visited(
            *before.tree,
            before.source@,
            before.language,
            before.tree.nodes[node].children[j as int] as int,
        ),
        after.relation_entries@ == before.relation_entries@ + relations_visited(
            *before.tree,
            before.source@,
            before.language,
            before.tree.nodes[node].children[j as int] as int,
        ),
        after.field_nodes@ == before.field_nodes@ + field_nodes_visited(
            *before.tree,
            before.language,
            before.tree.nodes[node].children[j as int] as int,
        ),
    ensures
        after.walk_progress(start, node, j + 1),
{
    let t = *before.tree;
    let src = before.source@;
    let lang = before.language;
    let child = t.nodes[node].children[j as int] as int;
    let rest = walked_from(t, lang, node, j + 1);
    assert(walked_from(t, lang, node, j) == visited(t, lang, child) + rest);
    assert(after.fact_nodes@ + rest == before.fact_nodes@ + (visited(t, lang, child) + rest));
    let crest = comment_nodes_from(t, src, lang, node, j + 1);
    assert(comment_nodes_from(t, src, lang, node, j) == comment_nodes_visited(t, src, lang, child) + crest);
    assert(after.comment_nodes@ + crest == before.comment_nodes@ + (comment_nodes_visited(t, src, lang, child) + crest));
    let irest = imports_from(t, src, lang, node, j + 1);
    assert(imports_from(t, src, lang, node, j) == imports_visited(t, src, lang, child) + irest);
    assert(import_views(after.imports@) + irest == import_views(before.imports@) + (imports_visited(
        t,
        src,
        lang,
        child,
    ) + irest));
    let krest = call_nodes_from(t, src, lang, node, j + 1);
    assert(call_nodes_from(t, src, lang, node, j) == call_nodes_visited(t, src, lang, child) + krest);
    assert(after.call_nodes@ + krest == before.call_nodes@ + (call_nodes_visited(t, src, lang, child) + krest));
    let brest = bindings_from(t, src, lang, node, j + 1);
    assert(bindings_from(t, src, lang, node, j) == bindings_visited(t, src, lang, child) + brest);
    assert(after.binding_entries@ + brest == before.binding_entries@ + (bindings_visited(t, src, lang, child) + brest));
    let rrest = relations_from(t, src, lang, node, j + 1);
    assert(relations_from(t, src, lang, node, j) == relations_visited(t, src, lang, child) + rrest);
    assert(after.relation_entries@ + rrest == before.relation_entries@ + (relations_visited(t, src, lang, child) + rrest));
    let frest = field_nodes_from(t, lang, node, j + 1);
    assert(field_nodes_from(t, lang, node, j) == field_nodes_visited(t, lang, child) + frest);
    assert(after.field_nodes@ + frest == before.field_nodes@ + (field_nodes_visited(t, lang, child) + frest));
}

/// Past the last child, the walk has added all that lies below `node`.
proof fn lemma_walk_done<'a>(start: &Walker<'a>, a: &Walker<'a>, node: int, j: nat)
    requires
        a.walk_progress(start, node, j),
        0 <= node < a.tree.nodes.len(),
        j >= a.tree.nodes[node].children.len(),
    ensures
        a.fact_nodes@ == start.fact_nodes@ + walked_from(*a.tree, a.language, node, 0),
        a.comment_nodes@ == start.comment_nodes@ + comment_nodes_from(*a.tree, a.source@, a.language, node, 0),
        import_views(a.imports@) == import_views(start.imports@) + imports_from(*a.tree, a.source@, a.language, node, 0),
        a.call_nodes@ == start.call_nodes@ + call_nodes_from(*a.tree, a.source@, a.language, node, 0),
        a.binding_entries@ == start.binding_entries@ + bindings_from(*a.tree, a.source@, a.language, node, 0),
        a.relation_entries@ == start.relation_entries@ + relations_from(*a.tree, a.source@, a.language, node, 0),
        a.field_nodes@ == start.field_nodes@ + field_nodes_from(*a.tree, a.language, node, 0),
{
    assert(a.field_nodes@ + Seq::<int>::empty() == a.field_nodes@);
    assert(a.relation_entries@ + Seq::<(int, int, int)>::empty() == a.relation_entries@);
    assert(a.binding_entries@ + Seq::<(int, int)>::empty() == a.binding_entries@);
    assert(a.call_nodes@ + Seq::<int>::empty() == a.call_nodes@);
    assert(a.fact_nodes@ + Seq::<int>::empty() == a.fact_nodes@);
    assert(a.comment_nodes@ + Seq::<int>::empty() == a.comment_nodes@);
    assert(import_views(a.imports@) + Seq::<(Seq<char>, u32)>::empty() == import_views(a.imports@));
}

/// No placeholder for an anonymous declaration reads as a test's name.
proof fn lemma_anonymous_is_no_test_name(kind: Seq<char>)
    ensures
        forall|k: nat| !crate::declared::test_name(#[trigger] crate::naming::spec_anonymous_segment(kind, k)),
        !crate::declared::test_name("<"@),
{
    reveal_strlit("test_");
    reveal_strlit("test");
    reveal_strlit("<");
    assert forall|k: nat| !crate::declared::test_name(#[trigger] crate::naming::spec_anonymous_segment(kind, k)) by {
        let a = crate::naming::spec_anonymous_segment(kind, k);
        assert(a[0] == '<');
        if a.len() >= 4 {
            assert(a.take(4)[0] == '<');
        }
        if a.len() >= 5 {
            assert(a.take(5)[0] == '<');
        }
    }
    assert("<"@.len() == 1);
}

/// A fact pushed beneath the context's containment parent is placed
/// beneath its enclosing declaration.
proof fn lemma_placed_push<'a>(a: &Walker<'a>, b: &Walker<'a>, ctx: &Context, child: int, f: CodeFact)
    requires
        a.good(),
        a.names_node(ctx),
        ctx.contain_node@ == enclosing_above(*a.tree, a.language, child),
        b.tree == a.tree,
        b.language == a.language,
        b.file == a.file,
        b.facts@ == a.facts@.push(f),
        b.fact_nodes@ == a.fact_nodes@.push(child),
        f.parent == Some(ctx.contain_parent),
    ensures
        parents_placed(*b.tree, b.language, b.file@, b.fact_nodes@, b.facts@),
{
    let n = a.facts.len() as int;
    assert(a.fact_nodes@.len() == a.facts.len());
    match ctx.contain_node@ {
        None => {},
        Some(x) => {
            let k = choose|k: int|
                0 <= k < a.facts.len() && a.fact_nodes@[k] == x && (#[trigger] a.facts@[k]).qualified_name@
                    == ctx.contain_parent@;
            assert(b.fact_nodes@[k] == x);
            assert(b.facts@[k] == a.facts@[k]);
        },
    }
    assert(parent_placed(*b.tree, b.language, b.file@, b.fact_nodes@, b.facts@, n));
    crate::declared::lemma_parents_placed_push(*a.tree, a.language, a.file@, a.fact_nodes@, a.facts@, child, f);
}

proof fn lemma_names_node_grow<'a>(a: &Walker<'a>, b: &Walker<'a>, ctx: &Context, extra: Seq<int>)
    requires
        a.names_node(ctx),
        a.fact_nodes@.len() == a.facts.len(),
        b.extends(a),
        b.file == a.file,
        b.fact_nodes@ == a.fact_nodes@ + extra,
    ensures
        b.names_node(ctx),
{
    match ctx.contain_node@ {
        None => {},
        Some(n) => {
            let k = choose|k: int|
                0 <= k < a.facts.len() && a.fact_nodes@[k] == n && (#[trigger] a.facts@[k]).qualified_name@
                    == ctx.contain_parent@;
            assert(b.facts@.take(a.facts.len() as int)[k] == b.facts@[k]);
            assert(b.fact_nodes@[k] == a.fact_nodes@[k]);
        },
    }
}

proof fn lemma_keys_scope_grow<'a>(a: &Walker<'a>, b: &Walker<'a>, ctx: &Context, extra: Seq<int>)
    requires
        a.keys_scope(ctx),
        a.fact_nodes@.len() == a.facts.len(),
        b.extends(a),
        b.fact_nodes@ == a.fact_nodes@ + extra,
        b.fact_nodes@.len() == b.facts.len(),
    ensures
        b.keys_scope(ctx),
{
    assert(b.fact_nodes@.take(a.fact_nodes@.len() as int) =~= a.fact_nodes@);
    crate::declared::lemma_placed_grow(
        a.fact_nodes@,
        a.facts@,
        b.fact_nodes@,
        b.facts@,
        ctx.contain_node@,
        ctx.scope_node@,
        a.file@,
        ctx.contain_parent@,
        ctx.scope@,
    );
}

proof fn lemma_owns_grow<'a>(a: &Walker<'a>, b: &Walker<'a>, ctx: &Context, extra: Seq<int>)
    requires
        a.owns(ctx),
        a.fact_nodes@.len() == a.facts.len(),
        b.extends(a),
        b.fact_nodes@ == a.fact_nodes@ + extra,
        b.fact_nodes@.len() == b.facts.len(),
        b.tree == a.tree,
        b.source == a.source,
        b.language == a.language,
    ensures
        b.owns(ctx),
{
    assert(b.fact_nodes@.take(a.fact_nodes@.len() as int) =~= a.fact_nodes@);
    crate::declared::lemma_owner_named_grow(
        *a.tree,
        a.source@,
        a.language,
        a.fact_nodes@,
        a.facts@,
        b.fact_nodes@,
        b.facts@,
        ctx.owner_node@,
        opt_chars(ctx.owning_type),
    );
}

proof fn lemma_keeps_records_refl<'a>(a: &Walker<'a>)
    ensures
        a.keeps_records(a),
{
}

proof fn lemma_extends_refl<'a>(a: &Walker<'a>)
    ensures
        a.extends(a),
{
    assert(a.facts@.take(a.facts.len() as int) == a.facts@);
}

proof fn lemma_extends_from_same<'a>(c: &Walker<'a>, b: &Walker<'a>, a: &Walker<'a>)
    requires
        c.extends(b),
        b.facts == a.facts,
    ensures
        c.extends(a),
{
}

proof fn lemma_names_grow(old_facts: Seq<CodeFact>, new_facts: Seq<CodeFact>, file: Seq<char>, q: Seq<char>)
    requires
        old_facts.len() <= new_facts.len(),
        new_facts.take(old_facts.len() as int) == old_facts,
        names_a_fact(old_facts, file, q),
    ensures
        names_a_fact(new_facts, file, q),
{
    if q != file {
        let i = choose|i: int| 0 <= i < old_facts.len() && #[trigger] old_facts[i].qualified_name@ == q;
        assert(new_facts.take(old_facts.len() as int)[i] == new_facts[i]);
        assert(new_facts[i].qualified_name@ == q);
    }
}

proof fn lemma_extends_trans<'a>(c: &Walker<'a>, b: &Walker<'a>, a: &Walker<'a>)
    requires
        c.extends(b),
        b.extends(a),
    ensures
        c.extends(a),
{
    assert(c.facts@.take(a.facts.len() as int) == c.facts@.take(b.facts.len() as int).take(a.facts.len() as int));
}

} // verus!
