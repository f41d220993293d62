//! Receiver-typed call resolution.
//!
//! Three tiers, tried in order, each narrower than the last:
//!
//! 1. **receiver-typed**: the receiver's type is known, so the callee is the
//!    method that type declares.
//! 2. **import-scoped**: the receiver's type is unknown, but exactly one type
//!    reachable through the file's resolved imports declares that method.
//! 3. **name-match**: neither holds, but exactly one type in the whole batch
//!    declares that method.
//!
//! At every tier the rule is the same and it is the point of the whole module:
//! more than one surviving candidate emits nothing. A missing edge leaves a
//! reader where they already were; a wrong one sends them somewhere irrelevant.

use vstd::prelude::*;

use crate::edges::Reason;
use crate::parse::CallSite;
use crate::table::{
    only_value, only_value2, only_with_middle, opt_text, PairMap, TextMap, TextRelation, TextSet,
};
use crate::text::{starts_upper, starts_uppercase};
use crate::typeenv::{lookup_in, Corpus, TypeEnv};

verus! {

/// A resolved call: the callee's qualified name and the tier that found it.
#[derive(Debug, Clone, PartialEq, Eq)]
pub struct Resolution {
    pub target: String,
    pub reason: Reason,
}

/// What the file being resolved declares itself.
///
/// Same-file resolution succeeds without consulting other files, so a
/// declaration in the current file wins before batch-wide ambiguity is even
/// considered.
#[derive(Debug)]
pub struct LocalScope {
    /// Simple type name -> qualified name, for types declared in this file.
    pub types: TextMap,
    /// (simple type name, method) -> qualified name, for methods in this file.
    pub methods: PairMap,
    /// Free function simple name -> qualified name, for this file.
    pub functions: TextMap,
}

impl LocalScope {
    /// A scope that declares nothing.
    pub fn new() -> (l: Self)
        ensures
            l.types@ == Map::<Seq<char>, Seq<char>>::empty(),
            l.methods@ == Map::<(Seq<char>, Seq<char>), Seq<char>>::empty(),
            l.functions@ == Map::<Seq<char>, Seq<char>>::empty(),
    {
        LocalScope { types: TextMap::new(), methods: PairMap::new(), functions: TextMap::new() }
    }
}

impl Default for LocalScope {
    fn default() -> (l: Self)
        ensures
            l.types@ == Map::<Seq<char>, Seq<char>>::empty(),
            l.methods@ == Map::<(Seq<char>, Seq<char>), Seq<char>>::empty(),
            l.functions@ == Map::<Seq<char>, Seq<char>>::empty(),
    {
        LocalScope::new()
    }
}

/// What a resolution stands for: the target's text and the tier.
pub open spec fn resolution_view(r: Option<Resolution>) -> Option<(Seq<char>, Reason)> {
    match r {
        Some(res) => Some((res.target@, res.reason)),
        None => None,
    }
}

/// The method `owner::method` names: the file's own declaration first, then
/// the batch when exactly one exists.
pub open spec fn spec_method_of(
    corpus: Corpus,
    local: LocalScope,
    owner: Seq<char>,
    method: Seq<char>,
) -> Option<Seq<char>> {
    if local.methods@.contains_key((owner, method)) {
        Some(local.methods@[(owner, method)])
    } else {
        only_value2(corpus.methods@, owner, method)
    }
}

/// `t` is an imported type that declares `method`.
pub open spec fn is_scoped(
    imported: Set<Seq<char>>,
    corpus: Corpus,
    local: LocalScope,
    method: Seq<char>,
    t: Seq<char>,
) -> bool {
    imported.contains(t) && spec_method_of(corpus, local, t, method).is_some()
}

/// `t` is the only imported type that declares `method`.
pub open spec fn is_only_scoped(
    imported: Set<Seq<char>>,
    corpus: Corpus,
    local: LocalScope,
    method: Seq<char>,
    t: Seq<char>,
) -> bool {
    &&& is_scoped(imported, corpus, local, method, t)
    &&& forall|u: Seq<char>| #[trigger] is_scoped(imported, corpus, local, method, u) ==> u == t
}

/// Resolution through a receiver whose type the environment does not know.
pub open spec fn spec_resolve_untyped(
    receiver: Seq<char>,
    callee: Seq<char>,
    corpus: Corpus,
    imported: Set<Seq<char>>,
    local: LocalScope,
) -> Option<(Seq<char>, Reason)> {
    if starts_upper(receiver) {
        // A type-cased receiver is a static call: `Store::open()`.
        match spec_method_of(corpus, local, receiver, callee) {
            Some(t) => Some((t, Reason::ReceiverTyped)),
            None => None,
        }
    } else if exists|t: Seq<char>| is_only_scoped(imported, corpus, local, callee, t) {
        let t = choose|t: Seq<char>| is_only_scoped(imported, corpus, local, callee, t);
        Some((spec_method_of(corpus, local, t, callee).unwrap(), Reason::ImportScoped))
    } else if exists|t: Seq<char>| is_scoped(imported, corpus, local, callee, t) {
        // Ambiguous after narrowing: emit nothing.
        None
    } else {
        match only_with_middle(corpus.methods@, callee) {
            Some(q) => Some((q, Reason::NameMatch)),
            None => None,
        }
    }
}

/// The resolution of a free call.
pub open spec fn spec_resolve_free(callee: Seq<char>, corpus: Corpus, local: LocalScope) -> Option<
    (Seq<char>, Reason),
> {
    if local.functions@.contains_key(callee) {
        Some((local.functions@[callee], Reason::NameMatch))
    } else {
        match only_value(corpus.functions@, callee) {
            Some(q) => Some((q, Reason::NameMatch)),
            None => None,
        }
    }
}

/// The resolution of one call site.
pub open spec fn spec_resolve_call(
    call: CallSite,
    env: TypeEnv,
    corpus: Corpus,
    imported: Set<Seq<char>>,
    local: LocalScope,
) -> Option<(Seq<char>, Reason)> {
    match call.receiver {
        Some(receiver) => match lookup_in(env.bindings(), env.owners(), call.scope@, receiver@) {
            // Tier 1: the owning type is known. When it declares no such
            // method, falling through to a name match would contradict it.
            Some(owner) => match spec_method_of(corpus, local, owner, call.callee@) {
                Some(t) => Some((t, Reason::ReceiverTyped)),
                None => None,
            },
            None => spec_resolve_untyped(receiver@, call.callee@, corpus, imported, local),
        },
        None => spec_resolve_free(call.callee@, corpus, local),
    }
}

/// Resolve one call site, or return `None` when the source does not determine
/// a unique callee.
pub fn resolve_call(
    call: &CallSite,
    env: &TypeEnv,
    corpus: &Corpus,
    imported_types: &TextSet,
    local: &LocalScope,
) -> (r: Option<Resolution>)
    ensures
        resolution_view(r) == spec_resolve_call(*call, *env, *corpus, imported_types@, *local),
{
    match &call.receiver {
        Some(receiver) => resolve_method_call(call, receiver.as_str(), env, corpus, imported_types, local),
        None => resolve_free_call(call, corpus, local),
    }
}

fn resolve_method_call(
    call: &CallSite,
    receiver: &str,
    env: &TypeEnv,
    corpus: &Corpus,
    imported_types: &TextSet,
    local: &LocalScope,
) -> (r: Option<Resolution>)
    ensures
        resolution_view(r) == (match lookup_in(env.bindings(), env.owners(), call.scope@, receiver@) {
            Some(owner) => match spec_method_of(*corpus, *local, owner, call.callee@) {
                Some(t) => Some((t, Reason::ReceiverTyped)),
                None => None,
            },
            None => spec_resolve_untyped(receiver@, call.callee@, *corpus, imported_types@, *local),
        }),
{
    // Tier 1: the receiver's type is recovered, so the owning type is known.
    match env.lookup(call.scope.as_str(), receiver) {
        Some(receiver_type) => {
            return match method_of(corpus, local, receiver_type, call.callee.as_str()) {
                Some(target) => Some(Resolution { target, reason: Reason::ReceiverTyped }),
                None => None,
            };
        },
        None => {},
    }
    // A type-cased receiver is a static call: `Store::open()`.
    if starts_uppercase(receiver) {
        return match method_of(corpus, local, receiver, call.callee.as_str()) {
            Some(target) => Some(Resolution { target, reason: Reason::ReceiverTyped }),
            None => None,
        };
    }
    // Tier 2: narrow to types this file actually imports.
    let n = imported_types.len();
    let ghost items = imported_types.items_seq();
    let ghost callee = call.callee@;
    let mut found: Option<(usize, String)> = None;
    let mut i: usize = 0;
    while i < n
        invariant
            i <= n,
            n == items.len(),
            items == imported_types.items_seq(),
            items.no_duplicates(),
            callee == call.callee@,
            lookup_in(env.bindings(), env.owners(), call.scope@, receiver@).is_none(),
            !starts_upper(receiver@),
            match found {
                None => forall|j: int|
                    0 <= j < i ==> spec_method_of(*corpus, *local, #[trigger] items[j], callee).is_none(),
                Some((f, target)) => f < i && spec_method_of(*corpus, *local, items[f as int], callee)
                    == Some(target@) && forall|j: int|
                    0 <= j < i && j != f ==> spec_method_of(
                        *corpus,
                        *local,
                        #[trigger] items[j],
                        callee,
                    ).is_none(),
            },
        decreases n - i,
    {
        match method_of(corpus, local, imported_types.at(i), call.callee.as_str()) {
            Some(target) => {
                match found {
                    Some((f, _)) => {
                        // Ambiguous after narrowing: emit nothing.
                        proof {
                            let a = items[f as int];
                            let b = items[i as int];
                            assert(a != b);
                            assert(imported_types@.contains(a));
                            assert(imported_types@.contains(b));
                            assert(is_scoped(imported_types@, *corpus, *local, callee, a));
                            assert(is_scoped(imported_types@, *corpus, *local, callee, b));
                            assert(!exists|t: Seq<char>|
                                is_only_scoped(imported_types@, *corpus, *local, callee, t));
                            assert(exists|t: Seq<char>|
                                is_scoped(imported_types@, *corpus, *local, callee, t));
                        }
                        return None;
                    },
                    None => {
                        found = Some((i, target));
                    },
                }
            },
            None => {},
        }
        i = i + 1;
    }
    match found {
        Some((f, target)) => {
            proof {
                let a = items[f as int];
                assert(imported_types@.contains(a));
                assert(is_scoped(imported_types@, *corpus, *local, callee, a));
                assert forall|u: Seq<char>| #[trigger]
                    is_scoped(imported_types@, *corpus, *local, callee, u) implies u == a by {
                    assert(items.contains(u));
                    let j = choose|j: int| 0 <= j < items.len() && items[j] == u;
                    if j != f {
                        assert(spec_method_of(*corpus, *local, items[j], callee).is_none());
                    }
                }
                assert(is_only_scoped(imported_types@, *corpus, *local, callee, a));
                let t = choose|t: Seq<char>| is_only_scoped(imported_types@, *corpus, *local, callee, t);
                assert(is_scoped(imported_types@, *corpus, *local, callee, t));
            }
            return Some(Resolution { target, reason: Reason::ImportScoped });
        },
        None => {
            proof {
                assert forall|u: Seq<char>| !#[trigger] is_scoped(imported_types@, *corpus, *local, callee, u) by {
                    if is_scoped(imported_types@, *corpus, *local, callee, u) {
                        assert(items.contains(u));
                        let j = choose|j: int| 0 <= j < items.len() && items[j] == u;
                        assert(spec_method_of(*corpus, *local, items[j], callee).is_none());
                    }
                }
            }
        },
    }
    // Tier 3: exactly one type in the batch declares the method.
    match corpus.methods.only_with_middle(call.callee.as_str()) {
        Some(only) => Some(Resolution { target: only.to_owned(), reason: Reason::NameMatch }),
        None => None,
    }
}

fn resolve_free_call(call: &CallSite, corpus: &Corpus, local: &LocalScope) -> (r: Option<Resolution>)
    ensures
        resolution_view(r) == spec_resolve_free(call.callee@, *corpus, *local),
{
    match local.functions.get(call.callee.as_str()) {
        Some(target) => {
            return Some(Resolution { target: target.to_owned(), reason: Reason::NameMatch });
        },
        None => {},
    }
    match corpus.functions.only_value(call.callee.as_str()) {
        Some(only) => Some(Resolution { target: only.to_owned(), reason: Reason::NameMatch }),
        None => None,
    }
}

/// The method `owner::method` names: the file's own declaration first, then
/// the batch when exactly one exists.
fn method_of(corpus: &Corpus, local: &LocalScope, owner: &str, method: &str) -> (r: Option<String>)
    ensures
        match r {
            Some(s) => spec_method_of(*corpus, *local, owner@, method@) == Some(s@),
            None => spec_method_of(*corpus, *local, owner@, method@).is_none(),
        },
{
    match local.methods.get(owner, method) {
        Some(target) => {
            return Some(target.to_owned());
        },
        None => {},
    }
    match corpus.methods.only_value(owner, method) {
        Some(only) => Some(only.to_owned()),
        None => None,
    }
}

/// The qualified name a type relation's target resolves to: the file's own
/// declaration first, then the batch when exactly one exists.
pub open spec fn spec_resolve_type_relation(corpus: Corpus, local: LocalScope, target_type: Seq<char>) -> Option<
    Seq<char>,
> {
    if local.types@.contains_key(target_type) {
        Some(local.types@[target_type])
    } else {
        only_value(corpus.types@, target_type)
    }
}

/// Resolve a type relation to a qualified edge target.
///
/// A relation naming a type the batch does not contain resolves to nothing,
/// the same conservatism as call resolution.
pub fn resolve_type_relation(corpus: &Corpus, local: &LocalScope, target_type: &str) -> (r: Option<String>)
    ensures
        match r {
            Some(s) => spec_resolve_type_relation(*corpus, *local, target_type@) == Some(s@),
            None => spec_resolve_type_relation(*corpus, *local, target_type@).is_none(),
        },
{
    match local.types.get(target_type) {
        Some(target) => {
            return Some(target.to_owned());
        },
        None => {},
    }
    match corpus.types.only_value(target_type) {
        Some(only) => Some(only.to_owned()),
        None => None,
    }
}

/// A file reaches type `t`: it declares it, or a file it imports does.
pub open spec fn reaches_type(
    importer: Seq<char>,
    import_edges: Set<(Seq<char>, Seq<char>)>,
    types_by_file: Set<(Seq<char>, Seq<char>)>,
    t: Seq<char>,
) -> bool {
    ||| types_by_file.contains((importer, t))
    ||| exists|f: Seq<char>| #[trigger] import_edges.contains((importer, f)) && types_by_file.contains((f, t))
}

/// The simple type names a file can reach through its resolved imports, used
/// for tier-2 narrowing.
pub fn imported_types(importer: &str, import_edges: &TextRelation, types_by_file: &TextRelation) -> (r: TextSet)
    ensures
        forall|t: Seq<char>| #[trigger] r@.contains(t) <==> reaches_type(importer@, import_edges@, types_by_file@, t),
{
    // A file always reaches its own declarations.
    let mut out = types_by_file.values_of(importer);
    let targets = import_edges.values_of(importer);
    let n = targets.len();
    let mut i: usize = 0;
    while i < n
        invariant
            i <= n,
            n == targets.items_seq().len(),
            forall|f: Seq<char>| #[trigger] targets@.contains(f) <==> import_edges@.contains((importer@, f)),
            forall|f: Seq<char>| #[trigger] targets@.contains(f) <==> targets.items_seq().contains(f),
            forall|t: Seq<char>| #[trigger] out@.contains(t) <==> (types_by_file@.contains((importer@, t))
                || exists|j: int| 0 <= j < i && #[trigger] types_by_file@.contains((targets.items_seq()[j], t))),
        decreases n - i,
    {
        let declared = types_by_file.values_of(targets.at(i));
        let m = declared.len();
        let ghost before = out@;
        let mut k: usize = 0;
        while k < m
            invariant
                k <= m,
                m == declared.items_seq().len(),
                forall|t: Seq<char>| #[trigger] declared@.contains(t) <==> declared.items_seq().contains(t),
                forall|t: Seq<char>| #[trigger] out@.contains(t) <==> (before.contains(t) || exists|j: int|
                    0 <= j < k && #[trigger] declared.items_seq()[j] == t),
            decreases m - k,
        {
            out.insert(declared.at(k));
            k = k + 1;
        }
        proof {
            let f = targets.items_seq()[i as int];
            assert forall|t: Seq<char>| #[trigger] out@.contains(t) <==> (types_by_file@.contains((importer@, t))
                || exists|j: int| 0 <= j < i + 1 && #[trigger] types_by_file@.contains((targets.items_seq()[j], t))) by {
                if types_by_file@.contains((f, t)) {
                    assert(declared@.contains(t));
                    let j = choose|j: int| 0 <= j < declared.items_seq().len() && declared.items_seq()[j] == t;
                    assert(declared.items_seq()[j] == t);
                }
                if exists|j: int| 0 <= j < m && #[trigger] declared.items_seq()[j] == t {
                    let j = choose|j: int| 0 <= j < m && #[trigger] declared.items_seq()[j] == t;
                    assert(declared.items_seq().contains(t));
                    assert(declared@.contains(t));
                    assert(types_by_file@.contains((f, t)));
                }
            }
        }
        i = i + 1;
    }
    proof {
        assert forall|t: Seq<char>| #[trigger] out@.contains(t) <==> reaches_type(importer@, import_edges@, types_by_file@, t) by {
            if exists|j: int| 0 <= j < n && #[trigger] types_by_file@.contains((targets.items_seq()[j], t)) {
                let j = choose|j: int| 0 <= j < n && #[trigger] types_by_file@.contains((targets.items_seq()[j], t));
                let f = targets.items_seq()[j];
                assert(targets.items_seq().contains(f));
                assert(targets@.contains(f));
                assert(import_edges@.contains((importer@, f)));
            }
            if exists|f: Seq<char>| #[trigger] import_edges@.contains((importer@, f)) && types_by_file@.contains((f, t)) {
                let f = choose|f: Seq<char>| #[trigger] import_edges@.contains((importer@, f)) && types_by_file@.contains((f, t));
                assert(targets@.contains(f));
                let j = choose|j: int| 0 <= j < n && targets.items_seq()[j] == f;
                assert(types_by_file@.contains((targets.items_seq()[j], t)));
            }
        }
    }
    out
}

// ---------------------------------------------------------------------------
// What resolution guarantees
// ---------------------------------------------------------------------------

/// A receiver whose type is known but declares no such method resolves to
/// nothing: falling back to a name match would contradict the recovered type.
pub proof fn law_known_type_never_falls_back(
    call: CallSite,
    env: TypeEnv,
    corpus: Corpus,
    imported: Set<Seq<char>>,
    local: LocalScope,
    receiver: Seq<char>,
    owner: Seq<char>,
)
    requires
        call.receiver matches Some(r) && r@ == receiver,
        lookup_in(env.bindings(), env.owners(), call.scope@, receiver) == Some(owner),
        spec_method_of(corpus, local, owner, call.callee@).is_none(),
    ensures
        spec_resolve_call(call, env, corpus, imported, local).is_none(),
{
}

/// When the receiver's type is unknown and two different imported types both
/// declare the method, nothing is emitted.
pub proof fn law_ambiguous_imports_emit_nothing(
    call: CallSite,
    env: TypeEnv,
    corpus: Corpus,
    imported: Set<Seq<char>>,
    local: LocalScope,
    receiver: Seq<char>,
    t1: Seq<char>,
    t2: Seq<char>,
)
    requires
        call.receiver matches Some(r) && r@ == receiver,
        lookup_in(env.bindings(), env.owners(), call.scope@, receiver).is_none(),
        !starts_upper(receiver),
        t1 != t2,
        is_scoped(imported, corpus, local, call.callee@, t1),
        is_scoped(imported, corpus, local, call.callee@, t2),
    ensures
        spec_resolve_call(call, env, corpus, imported, local).is_none(),
{
    assert(!exists|t: Seq<char>| is_only_scoped(imported, corpus, local, call.callee@, t));
}

/// A free call whose name the file does not declare, and which two different
/// functions of the batch declare, resolves to nothing.
pub proof fn law_ambiguous_free_calls_emit_nothing(
    call: CallSite,
    env: TypeEnv,
    corpus: Corpus,
    imported: Set<Seq<char>>,
    local: LocalScope,
    q1: Seq<char>,
    q2: Seq<char>,
)
    requires
        call.receiver is None,
        !local.functions@.contains_key(call.callee@),
        q1 != q2,
        corpus.functions@.contains((call.callee@, q1)),
        corpus.functions@.contains((call.callee@, q2)),
    ensures
        spec_resolve_call(call, env, corpus, imported, local).is_none(),
{
    assert(!exists|v: Seq<char>| crate::table::is_only_value(corpus.functions@, call.callee@, v));
}

/// A type name the file does not declare, and which two different types of
/// the batch carry, resolves to nothing.
pub proof fn law_ambiguous_type_relations_emit_nothing(
    corpus: Corpus,
    local: LocalScope,
    target_type: Seq<char>,
    q1: Seq<char>,
    q2: Seq<char>,
)
    requires
        !local.types@.contains_key(target_type),
        q1 != q2,
        corpus.types@.contains((target_type, q1)),
        corpus.types@.contains((target_type, q2)),
    ensures
        spec_resolve_type_relation(corpus, local, target_type).is_none(),
{
    assert(!exists|v: Seq<char>| crate::table::is_only_value(corpus.types@, target_type, v));
}

/// Resolution never invents a target: every target is a qualified name that
/// the file or the batch declares for the called name.
pub proof fn law_targets_are_declared(
    call: CallSite,
    env: TypeEnv,
    corpus: Corpus,
    imported: Set<Seq<char>>,
    local: LocalScope,
)
    requires
        spec_resolve_call(call, env, corpus, imported, local).is_some(),
    ensures
        ({
            let q = spec_resolve_call(call, env, corpus, imported, local).unwrap().0;
            ||| exists|t: Seq<char>| #[trigger] local.methods@.contains_key((t, call.callee@))
                && local.methods@[(t, call.callee@)] == q
            ||| exists|t: Seq<char>| #[trigger] corpus.methods@.contains((t, call.callee@, q))
            ||| local.functions@.contains_key(call.callee@) && local.functions@[call.callee@] == q
            ||| corpus.functions@.contains((call.callee@, q))
        }),
{
    let q = spec_resolve_call(call, env, corpus, imported, local).unwrap().0;
    let m = call.callee@;
    match call.receiver {
        Some(receiver) => {
            let owner = match lookup_in(env.bindings(), env.owners(), call.scope@, receiver@) {
                Some(o) => o,
                None => if starts_upper(receiver@) {
                    receiver@
                } else if exists|t: Seq<char>| is_only_scoped(imported, corpus, local, m, t) {
                    choose|t: Seq<char>| is_only_scoped(imported, corpus, local, m, t)
                } else {
                    let tr = choose|tr: (Seq<char>, Seq<char>, Seq<char>)|
                        crate::table::is_only_with_middle(corpus.methods@, m, tr);
                    assert(corpus.methods@.contains((tr.0, m, q)));
                    tr.0
                },
            };
            if local.methods@.contains_key((owner, m)) {
            } else if spec_method_of(corpus, local, owner, m) == Some(q) {
                let v = choose|v: Seq<char>| crate::table::is_only_value2(corpus.methods@, owner, m, v);
                assert(corpus.methods@.contains((owner, m, q)));
            }
        },
        None => {
            if !local.functions@.contains_key(m) {
                let v = choose|v: Seq<char>| crate::table::is_only_value(corpus.functions@, m, v);
            }
        },
    }
}

} // verus!
