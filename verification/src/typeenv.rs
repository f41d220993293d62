//! Per-file type environments and the fixpoint binding solver.
//!
//! Bindings are collected during a single walk; the ones that depend on other
//! bindings are then iterated until nothing new appears. The four pending
//! forms (copy, call result, field access and method-call result) are the
//! chains that a single pass cannot resolve, because the binding they depend
//! on may be declared later in the file than the binding that needs it.
//!
//! This is not a type checker. It recovers what the source states plainly and
//! stops; every remaining ambiguity resolves to nothing, never to a guess.

use vstd::prelude::*;

use crate::order::same_text;
use crate::table::{
    only_value, only_value2, opt_text, PairMap, PairRelation, TextMap, TextRelation,
};

verus! {

/// The file-level scope key.
pub const FILE_SCOPE: &'static str = "";

/// Maximum fixpoint iterations. Reaching the bound degrades to fewer edges,
/// never to unbounded work and never to a guess.
pub const MAX_ITERATIONS: usize = 10;

/// Where a binding's type comes from.
#[derive(Debug, Clone, PartialEq, Eq, PartialOrd, Ord)]
pub enum TypeSource {
    /// An explicit annotation: `let x: Store`, `x: Store = …`.
    Annotation(String),
    /// A constructor call: `Store::new()`, `new Store()`, `Store()`.
    Constructor(String),
    /// Assignment from another binding: `let y = x`.
    Copy(String),
    /// Assignment from a free function's declared return type: `let x = make()`.
    CallResult(String),
    /// Assignment from a typed field: `let x = store.inner`.
    FieldAccess { receiver: String, field: String },
    /// Assignment from a method's declared return type: `let x = store.get()`.
    MethodCallResult { receiver: String, method: String },
}

/// One binding recovered during the walk, before resolution.
#[derive(Debug, Clone, PartialEq, Eq, PartialOrd, Ord)]
pub struct RawBinding {
    /// Scope key: [`FILE_SCOPE`], or `name@line` for a callable's scope.
    pub scope: String,
    pub name: String,
    pub source: TypeSource,
}

/// Batch-wide declarations the solver consults.
#[derive(Debug)]
pub struct Corpus {
    /// Simple type name -> qualified names declaring it. More than one value
    /// means the name is ambiguous across the batch.
    pub types: TextRelation,
    /// (simple type name, method name) -> qualified method names.
    pub methods: PairRelation,
    /// Free function simple name -> qualified names.
    pub functions: TextRelation,
    /// Qualified callable name -> its declared return type, simple form.
    pub return_types: TextMap,
    /// (simple type name, field name) -> the field's declared type.
    pub field_types: PairMap,
}

/// The type a direct binding states, without consulting any other binding.
pub open spec fn direct_type(source: TypeSource) -> Option<Seq<char>> {
    match source {
        TypeSource::Annotation(t) => Some(t@),
        TypeSource::Constructor(t) => Some(t@),
        _ => None,
    }
}

/// The key a binding is stored under.
pub open spec fn binding_key(b: RawBinding) -> (Seq<char>, Seq<char>) {
    (b.scope@, b.name@)
}

/// The owned text an option holds.
pub open spec fn opt_string(o: Option<String>) -> Option<Seq<char>> {
    match o {
        Some(s) => Some(s@),
        None => None,
    }
}

/// The value stored under `k`, when there is one.
pub open spec fn map_get<K>(m: Map<K, Seq<char>>, k: K) -> Option<Seq<char>> {
    if m.contains_key(k) {
        Some(m[k])
    } else {
        None
    }
}

impl Corpus {
    /// The declared return type of the free function `name`, when exactly one
    /// function of that name exists and it declares one.
    pub open spec fn spec_function_return(&self, name: Seq<char>) -> Option<Seq<char>> {
        match only_value(self.functions@, name) {
            Some(q) => map_get(self.return_types@, q),
            None => None,
        }
    }

    /// The declared return type of `owner_type::method`, when exactly one such
    /// method exists and it declares one.
    pub open spec fn spec_method_return(&self, owner_type: Seq<char>, method: Seq<char>) -> Option<
        Seq<char>,
    > {
        match only_value2(self.methods@, owner_type, method) {
            Some(q) => map_get(self.return_types@, q),
            None => None,
        }
    }

    /// The declared type of `owner_type.field`.
    pub open spec fn spec_field_type(&self, owner_type: Seq<char>, field: Seq<char>) -> Option<
        Seq<char>,
    > {
        map_get(self.field_types@, (owner_type, field))
    }

    /// An empty corpus.
    pub fn new() -> (c: Self)
        ensures
            c.types@ == Set::<(Seq<char>, Seq<char>)>::empty(),
            c.methods@ == Set::<(Seq<char>, Seq<char>, Seq<char>)>::empty(),
            c.functions@ == Set::<(Seq<char>, Seq<char>)>::empty(),
            c.return_types@ == Map::<Seq<char>, Seq<char>>::empty(),
            c.field_types@ == Map::<(Seq<char>, Seq<char>), Seq<char>>::empty(),
    {
        Corpus {
            types: TextRelation::new(),
            methods: PairRelation::new(),
            functions: TextRelation::new(),
            return_types: TextMap::new(),
            field_types: PairMap::new(),
        }
    }

    fn function_return(&self, name: &str) -> (r: Option<&str>)
        ensures
            opt_text(r) == self.spec_function_return(name@),
    {
        match self.functions.only_value(name) {
            Some(only) => self.return_types.get(only),
            None => None,
        }
    }

    fn method_return(&self, owner_type: &str, method: &str) -> (r: Option<&str>)
        ensures
            opt_text(r) == self.spec_method_return(owner_type@, method@),
    {
        match self.methods.only_value(owner_type, method) {
            Some(only) => self.return_types.get(only),
            None => None,
        }
    }

    fn field_type(&self, owner_type: &str, field: &str) -> (r: Option<&str>)
        ensures
            opt_text(r) == self.spec_field_type(owner_type@, field@),
    {
        self.field_types.get(owner_type, field)
    }
}

impl Default for Corpus {
    fn default() -> (c: Self)
        ensures
            c.types@ == Set::<(Seq<char>, Seq<char>)>::empty(),
            c.methods@ == Set::<(Seq<char>, Seq<char>, Seq<char>)>::empty(),
            c.functions@ == Set::<(Seq<char>, Seq<char>)>::empty(),
            c.return_types@ == Map::<Seq<char>, Seq<char>>::empty(),
            c.field_types@ == Map::<(Seq<char>, Seq<char>), Seq<char>>::empty(),
    {
        Corpus::new()
    }
}

/// `name` is one of the receivers that stand for the enclosing type.
pub open spec fn is_self_word(name: Seq<char>) -> bool {
    name == "self"@ || name == "this"@ || name == "Self"@
}

/// Resolve a receiver name in a scope: special receivers first, then the
/// local scope, then file scope. A name bound locally never leaks outward.
pub open spec fn lookup_in(
    scopes: Map<(Seq<char>, Seq<char>), Seq<char>>,
    owners: Map<Seq<char>, Seq<char>>,
    scope: Seq<char>,
    name: Seq<char>,
) -> Option<Seq<char>> {
    if is_self_word(name) && owners.contains_key(scope) {
        Some(owners[scope])
    } else if scopes.contains_key((scope, name)) {
        Some(scopes[(scope, name)])
    } else {
        map_get(scopes, (FILE_SCOPE@, name))
    }
}

/// The type a binding's source names, given the bindings resolved so far.
pub open spec fn resolve_in(
    scopes: Map<(Seq<char>, Seq<char>), Seq<char>>,
    owners: Map<Seq<char>, Seq<char>>,
    corpus: Corpus,
    scope: Seq<char>,
    source: TypeSource,
) -> Option<Seq<char>> {
    match source {
        TypeSource::Annotation(t) => Some(t@),
        TypeSource::Constructor(t) => Some(t@),
        TypeSource::Copy(n) => lookup_in(scopes, owners, scope, n@),
        TypeSource::CallResult(f) => corpus.spec_function_return(f@),
        TypeSource::FieldAccess { receiver, field } => match lookup_in(
            scopes,
            owners,
            scope,
            receiver@,
        ) {
            Some(rt) => corpus.spec_field_type(rt, field@),
            None => None,
        },
        TypeSource::MethodCallResult { receiver, method } => match lookup_in(
            scopes,
            owners,
            scope,
            receiver@,
        ) {
            Some(rt) => corpus.spec_method_return(rt, method@),
            None => None,
        },
    }
}

/// Store `v` under `k` unless something is stored there already: the first
/// writer wins.
pub open spec fn insert_absent<K>(m: Map<K, Seq<char>>, k: K, v: Seq<char>) -> Map<K, Seq<char>> {
    if m.contains_key(k) {
        m
    } else {
        m.insert(k, v)
    }
}

/// Pass one: the direct bindings, in order, the first for a key winning.
pub open spec fn seed(bs: Seq<RawBinding>) -> Map<(Seq<char>, Seq<char>), Seq<char>>
    decreases bs.len(),
{
    if bs.len() == 0 {
        Map::empty()
    } else {
        let m = seed(bs.drop_last());
        match direct_type(bs.last().source) {
            Some(t) => insert_absent(m, binding_key(bs.last()), t),
            None => m,
        }
    }
}

/// The bindings pass one leaves pending, in order.
pub open spec fn pending_of(bs: Seq<RawBinding>) -> Seq<RawBinding>
    decreases bs.len(),
{
    if bs.len() == 0 {
        Seq::empty()
    } else {
        let p = pending_of(bs.drop_last());
        match direct_type(bs.last().source) {
            Some(_) => p,
            None => p.push(bs.last()),
        }
    }
}

/// One round over the pending bindings, in order: each that resolves is
/// stored (the first writer still winning) and leaves the pending list.
/// Yields the new bindings, what stays pending, and whether any resolved.
pub open spec fn round(
    scopes: Map<(Seq<char>, Seq<char>), Seq<char>>,
    owners: Map<Seq<char>, Seq<char>>,
    corpus: Corpus,
    pending: Seq<RawBinding>,
) -> (Map<(Seq<char>, Seq<char>), Seq<char>>, Seq<RawBinding>, bool)
    decreases pending.len(),
{
    if pending.len() == 0 {
        (scopes, Seq::empty(), false)
    } else {
        let prev = round(scopes, owners, corpus, pending.drop_last());
        let b = pending.last();
        match resolve_in(prev.0, owners, corpus, b.scope@, b.source) {
            Some(t) => (insert_absent(prev.0, binding_key(b), t), prev.1, true),
            None => (prev.0, prev.1.push(b), prev.2),
        }
    }
}

/// Rounds from `iteration` on, until nothing is pending, a round makes no
/// progress, or the bound is reached. Yields the bindings, the number of the
/// last round run, and whether the bound was reached with work pending.
pub open spec fn settle(
    scopes: Map<(Seq<char>, Seq<char>), Seq<char>>,
    owners: Map<Seq<char>, Seq<char>>,
    corpus: Corpus,
    pending: Seq<RawBinding>,
    iteration: nat,
) -> (Map<(Seq<char>, Seq<char>), Seq<char>>, nat, bool)
    decreases MAX_ITERATIONS + 1 - iteration,
{
    if iteration > MAX_ITERATIONS {
        (scopes, MAX_ITERATIONS as nat, pending.len() > 0)
    } else {
        let r = round(scopes, owners, corpus, pending);
        if r.1.len() == 0 || !r.2 {
            (r.0, iteration, false)
        } else {
            settle(r.0, owners, corpus, r.1, iteration + 1)
        }
    }
}

/// The environment the bindings resolve to: the bindings, the number of
/// rounds, and whether the bound was reached with work pending.
pub open spec fn solve(bs: Seq<RawBinding>, owners: Map<Seq<char>, Seq<char>>, corpus: Corpus) -> (
    Map<(Seq<char>, Seq<char>), Seq<char>>,
    nat,
    bool,
) {
    settle(seed(bs), owners, corpus, pending_of(bs), 1)
}

/// The bindings a list of positions picks out.
pub open spec fn picked(bs: Seq<RawBinding>, idx: Seq<usize>) -> Seq<RawBinding> {
    idx.map_values(|j: usize| bs[j as int])
}

/// A resolved per-file type environment.
#[derive(Debug)]
pub struct TypeEnv {
    /// (scope key, binding name) -> simple type name.
    pub scopes: PairMap,
    /// Scope key -> the type enclosing it, for `self` / `this` receivers.
    pub enclosing_type: TextMap,
    /// Iterations the fixpoint took.
    pub iterations: usize,
    /// Whether the iteration bound was reached with work still pending.
    pub hit_iteration_bound: bool,
}

impl Default for TypeEnv {
    fn default() -> (env: Self)
        ensures
            env.bindings() == Map::<(Seq<char>, Seq<char>), Seq<char>>::empty(),
            env.owners() == Map::<Seq<char>, Seq<char>>::empty(),
            env.rounds() == 0,
            !env.bounded(),
    {
        TypeEnv {
            scopes: PairMap::new(),
            enclosing_type: TextMap::new(),
            iterations: 0,
            hit_iteration_bound: false,
        }
    }
}

impl TypeEnv {
    /// The resolved bindings: (scope key, name) -> type.
    pub closed spec fn bindings(&self) -> Map<(Seq<char>, Seq<char>), Seq<char>> {
        self.scopes@
    }

    /// The enclosing type of each scope that has one.
    pub closed spec fn owners(&self) -> Map<Seq<char>, Seq<char>> {
        self.enclosing_type@
    }

    /// The number of rounds the fixpoint ran: the public `iterations`.
    pub open spec fn rounds(&self) -> nat {
        self.iterations as nat
    }

    /// Whether the bound was reached with work still pending: the public
    /// `hit_iteration_bound`.
    pub open spec fn bounded(&self) -> bool {
        self.hit_iteration_bound
    }

    /// Build the environment: seed the direct bindings, then iterate the
    /// pending ones to a fixed point.
    pub fn build(bindings: &[RawBinding], enclosing_types: &TextMap, corpus: &Corpus) -> (env: Self)
        ensures
            env.bindings() == solve(bindings@, enclosing_types@, *corpus).0,
            env.rounds() == solve(bindings@, enclosing_types@, *corpus).1,
            env.bounded() == solve(bindings@, enclosing_types@, *corpus).2,
            env.owners() == enclosing_types@,
            1 <= env.rounds() <= MAX_ITERATIONS,
            env.bounded() ==> env.rounds() == MAX_ITERATIONS,
    {
        let mut env = TypeEnv {
            scopes: PairMap::new(),
            enclosing_type: enclosing_types.copy(),
            iterations: 0,
            hit_iteration_bound: false,
        };
        let ghost bs = bindings@;

        // Pass one: everything that resolves without consulting another
        // binding.
        let mut pending: Vec<usize> = Vec::new();
        let mut i: usize = 0;
        while i < bindings.len()
            invariant
                i <= bindings.len(),
                bs == bindings@,
                env.bindings() == seed(bs.take(i as int)),
                env.owners() == enclosing_types@,
                env.iterations == 0,
                !env.hit_iteration_bound,
                picked(bs, pending@) == pending_of(bs.take(i as int)),
                forall|j: int| 0 <= j < pending.len() ==> #[trigger] pending[j] < bindings.len(),
            decreases bindings.len() - i,
        {
            let b = &bindings[i];
            proof {
                assert(bs.take(i + 1).drop_last() == bs.take(i as int));
                assert(bs.take(i + 1).last() == bs[i as int]);
            }
            match &b.source {
                TypeSource::Annotation(t) => {
                    env.scopes.insert_if_absent(b.scope.as_str(), b.name.as_str(), t.as_str());
                },
                TypeSource::Constructor(t) => {
                    env.scopes.insert_if_absent(b.scope.as_str(), b.name.as_str(), t.as_str());
                },
                _ => {
                    pending.push(i);
                    proof {
                        assert(picked(bs, pending@) =~= pending_of(bs.take(i as int)).push(bs[i as int]));
                    }
                },
            }
            i = i + 1;
        }
        assert(bs.take(bindings.len() as int) == bs);

        // Pass two: iterate the rest. Each round resolves whatever became
        // resolvable in the previous one, so a chain written in reverse order
        // still converges.
        let ghost target = settle(env.bindings(), enclosing_types@, *corpus, picked(bs, pending@), 1);
        let mut iteration: usize = 1;
        let mut done = false;
        while !done && iteration <= MAX_ITERATIONS
            invariant
                1 <= iteration <= MAX_ITERATIONS + 1,
                bs == bindings@,
                env.owners() == enclosing_types@,
                !env.hit_iteration_bound,
                forall|j: int| 0 <= j < pending.len() ==> #[trigger] pending[j] < bindings.len(),
                !done ==> settle(env.bindings(), enclosing_types@, *corpus, picked(bs, pending@), iteration as nat) == target,
                !done ==> env.iterations == iteration - 1,
                done ==> target == (env.bindings(), env.iterations as nat, false),
            decreases MAX_ITERATIONS + 1 - iteration + (if done { 0int } else { 1int }),
        {
            env.iterations = iteration;
            let (still, progressed) = env.run_round(bindings, &pending, corpus);
            pending = still;
            if pending.len() == 0 || !progressed {
                done = true;
            } else {
                iteration = iteration + 1;
            }
        }

        // The bound was reached with bindings still unresolved: the rest stay
        // unknown, which costs edges rather than correctness.
        if !done {
            env.hit_iteration_bound = pending.len() > 0;
        }
        proof {
            lemma_solve(bindings@, enclosing_types@, *corpus);
        }
        env
    }

    /// One round over the pending bindings.
    fn run_round(&mut self, bindings: &[RawBinding], pending: &Vec<usize>, corpus: &Corpus) -> (r: (
        Vec<usize>,
        bool,
    ))
        requires
            forall|j: int| 0 <= j < pending.len() ==> #[trigger] pending[j] < bindings.len(),
        ensures
            ({
                let expected = round(
                    old(self).bindings(),
                    old(self).owners(),
                    *corpus,
                    picked(bindings@, pending@),
                );
                &&& final(self).bindings() == expected.0
                &&& picked(bindings@, r.0@) == expected.1
                &&& r.1 == expected.2
            }),
            final(self).owners() == old(self).owners(),
            final(self).rounds() == old(self).rounds(),
            final(self).bounded() == old(self).bounded(),
            forall|j: int| 0 <= j < r.0.len() ==> #[trigger] r.0[j] < bindings.len(),
    {
        let ghost start = self.bindings();
        let ghost owners = self.owners();
        let ghost all = picked(bindings@, pending@);
        let mut still: Vec<usize> = Vec::new();
        let mut progressed = false;
        let mut k: usize = 0;
        while k < pending.len()
            invariant
                k <= pending.len(),
                all == picked(bindings@, pending@),
                self.owners() == owners,
                self.iterations == old(self).iterations,
                self.hit_iteration_bound == old(self).hit_iteration_bound,
                forall|j: int| 0 <= j < pending.len() ==> #[trigger] pending[j] < bindings.len(),
                forall|j: int| 0 <= j < still.len() ==> #[trigger] still[j] < bindings.len(),
                round(start, owners, *corpus, all.take(k as int)) == (
                    self.bindings(),
                    picked(bindings@, still@),
                    progressed,
                ),
            decreases pending.len() - k,
        {
            let idx = pending[k];
            let b = &bindings[idx];
            proof {
                assert(all.take(k + 1).drop_last() == all.take(k as int));
                assert(all.take(k + 1).last() == bindings@[idx as int]);
            }
            match self.resolve_source(b.scope.as_str(), &b.source, corpus) {
                Some(owner_type) => {
                    self.scopes.insert_if_absent(b.scope.as_str(), b.name.as_str(), owner_type.as_str());
                    progressed = true;
                },
                None => {
                    let ghost prev = still@;
                    still.push(idx);
                    proof {
                        assert(picked(bindings@, still@) =~= picked(bindings@, prev).push(bindings@[idx as int]));
                    }
                },
            }
            k = k + 1;
        }
        assert(all.take(pending.len() as int) == all);
        (still, progressed)
    }

    fn resolve_source(&self, scope: &str, source: &TypeSource, corpus: &Corpus) -> (r: Option<String>)
        ensures
            opt_string(r) == resolve_in(self.bindings(), self.owners(), *corpus, scope@, *source),
    {
        match source {
            TypeSource::Annotation(t) => Some(t.clone()),
            TypeSource::Constructor(t) => Some(t.clone()),
            TypeSource::Copy(name) => match self.lookup(scope, name.as_str()) {
                Some(t) => Some(t.to_owned()),
                None => None,
            },
            TypeSource::CallResult(func) => match corpus.function_return(func.as_str()) {
                Some(t) => Some(t.to_owned()),
                None => None,
            },
            TypeSource::FieldAccess { receiver, field } => match self.lookup(scope, receiver.as_str()) {
                Some(receiver_type) => match corpus.field_type(receiver_type, field.as_str()) {
                    Some(t) => Some(t.to_owned()),
                    None => None,
                },
                None => None,
            },
            TypeSource::MethodCallResult { receiver, method } => match self.lookup(
                scope,
                receiver.as_str(),
            ) {
                Some(receiver_type) => match corpus.method_return(receiver_type, method.as_str()) {
                    Some(t) => Some(t.to_owned()),
                    None => None,
                },
                None => None,
            },
        }
    }

    /// Resolve a receiver name in a scope.
    ///
    /// Order: special receivers (`self`, `this`, `Self`), then the local
    /// scope, then file scope. A name rebound locally never leaks outward.
    pub fn lookup(&self, scope: &str, name: &str) -> (r: Option<&str>)
        ensures
            opt_text(r) == lookup_in(self.bindings(), self.owners(), scope@, name@),
    {
        if same_text(name, "self") || same_text(name, "this") || same_text(name, "Self") {
            match self.enclosing_type.get(scope) {
                Some(owner) => {
                    return Some(owner);
                },
                None => {},
            }
        }
        match self.scopes.get(scope, name) {
            Some(found) => Some(found),
            None => self.scopes.get(FILE_SCOPE, name),
        }
    }
}

// ---------------------------------------------------------------------------
// What the solver guarantees
// ---------------------------------------------------------------------------

/// `v` is a type the input states somewhere: a direct binding's type, an
/// enclosing type, a declared return type or a declared field type.
pub open spec fn stated(
    v: Seq<char>,
    bs: Seq<RawBinding>,
    owners: Map<Seq<char>, Seq<char>>,
    corpus: Corpus,
) -> bool {
    ||| exists|i: int| 0 <= i < bs.len() && direct_type(#[trigger] bs[i].source) == Some(v)
    ||| exists|s: Seq<char>| #[trigger] owners.contains_key(s) && owners[s] == v
    ||| exists|q: Seq<char>| #[trigger] corpus.return_types@.contains_key(q) && corpus.return_types@[q] == v
    ||| exists|f: (Seq<char>, Seq<char>)| #[trigger] corpus.field_types@.contains_key(f)
        && corpus.field_types@[f] == v
}

proof fn lemma_seed(bs: Seq<RawBinding>)
    ensures
        forall|k: (Seq<char>, Seq<char>)| #[trigger] seed(bs).contains_key(k) ==> exists|i: int|
            0 <= i < bs.len() && #[trigger] binding_key(bs[i]) == k && direct_type(bs[i].source)
                == Some(seed(bs)[k]),
        forall|i: int|
            0 <= i < bs.len() && (#[trigger] direct_type(bs[i].source)).is_some() ==> seed(
                bs,
            ).contains_key(binding_key(bs[i])),
        forall|i: int|
            0 <= i < bs.len() && (#[trigger] direct_type(bs[i].source)).is_some() && (forall|j: int|
                0 <= j < i && direct_type(bs[j].source).is_some() ==> binding_key(bs[j])
                    != binding_key(bs[i])) ==> seed(bs)[binding_key(bs[i])] == direct_type(
                bs[i].source,
            ).unwrap(),
    decreases bs.len(),
{
    if bs.len() > 0 {
        let p = bs.drop_last();
        lemma_seed(p);
        let n = bs.len() - 1;
        assert forall|k: (Seq<char>, Seq<char>)| #[trigger] seed(bs).contains_key(k) implies exists|i: int|
            0 <= i < bs.len() && #[trigger] binding_key(bs[i]) == k && direct_type(bs[i].source)
                == Some(seed(bs)[k]) by {
            if seed(p).contains_key(k) {
                let i = choose|i: int| 0 <= i < p.len() && #[trigger] binding_key(p[i]) == k
                    && direct_type(p[i].source) == Some(seed(p)[k]);
                assert(bs[i] == p[i]);
            } else {
                assert(binding_key(bs[n]) == k);
            }
        }
        assert forall|i: int|
            0 <= i < bs.len() && (#[trigger] direct_type(bs[i].source)).is_some() implies seed(
                bs,
            ).contains_key(binding_key(bs[i])) by {
            if i < n {
                assert(bs[i] == p[i]);
            }
        }
        assert forall|i: int|
            0 <= i < bs.len() && (#[trigger] direct_type(bs[i].source)).is_some() && (forall|j: int|
                0 <= j < i && direct_type(bs[j].source).is_some() ==> binding_key(bs[j])
                    != binding_key(bs[i])) implies seed(bs)[binding_key(bs[i])] == direct_type(
            bs[i].source,
        ).unwrap() by {
            if i < n {
                assert(bs[i] == p[i]);
                assert forall|j: int|
                    0 <= j < i && direct_type(p[j].source).is_some() implies binding_key(p[j])
                        != binding_key(p[i]) by {
                    assert(bs[j] == p[j]);
                }
            } else {
                if seed(p).contains_key(binding_key(bs[i])) {
                    let j = choose|j: int| 0 <= j < p.len() && #[trigger] binding_key(p[j])
                        == binding_key(bs[i]) && direct_type(p[j].source) == Some(
                        seed(p)[binding_key(bs[i])],
                    );
                    assert(bs[j] == p[j]);
                }
            }
        }
    }
}

proof fn lemma_pending(bs: Seq<RawBinding>)
    ensures
        forall|x: RawBinding| #[trigger] pending_of(bs).contains(x) ==> bs.contains(x),
        forall|i: int|
            0 <= i < bs.len() && (#[trigger] direct_type(bs[i].source)).is_none() ==> pending_of(
                bs,
            ).contains(bs[i]),
    decreases bs.len(),
{
    if bs.len() > 0 {
        let p = bs.drop_last();
        lemma_pending(p);
        let n = bs.len() - 1;
        assert forall|x: RawBinding| #[trigger] pending_of(bs).contains(x) implies bs.contains(x) by {
            if pending_of(p).contains(x) {
                let j = choose|j: int| 0 <= j < p.len() && p[j] == x;
                assert(bs[j] == x);
            } else {
                assert(bs[n] == x);
            }
        }
        assert forall|i: int|
            0 <= i < bs.len() && (#[trigger] direct_type(bs[i].source)).is_none() implies pending_of(
                bs,
            ).contains(bs[i]) by {
            if i < n {
                assert(bs[i] == p[i]);
                let q = pending_of(p);
                let j = choose|j: int| 0 <= j < q.len() && q[j] == bs[i];
                if direct_type(bs[n].source).is_none() {
                    assert(q.push(bs[n])[j] == bs[i]);
                }
            } else {
                let q = pending_of(p);
                assert(q.push(bs[n])[q.len() as int] == bs[i]);
            }
        }
    }
}

proof fn lemma_resolve_stated(
    m: Map<(Seq<char>, Seq<char>), Seq<char>>,
    bs: Seq<RawBinding>,
    owners: Map<Seq<char>, Seq<char>>,
    corpus: Corpus,
    x: RawBinding,
)
    requires
        bs.contains(x),
        forall|k: (Seq<char>, Seq<char>)| #[trigger] m.contains_key(k) ==> stated(m[k], bs, owners, corpus),
        resolve_in(m, owners, corpus, x.scope@, x.source).is_some(),
    ensures
        stated(resolve_in(m, owners, corpus, x.scope@, x.source).unwrap(), bs, owners, corpus),
{
    let v = resolve_in(m, owners, corpus, x.scope@, x.source).unwrap();
    let i = choose|i: int| 0 <= i < bs.len() && bs[i] == x;
    match x.source {
        TypeSource::Annotation(t) => {
            assert(direct_type(bs[i].source) == Some(v));
        },
        TypeSource::Constructor(t) => {
            assert(direct_type(bs[i].source) == Some(v));
        },
        TypeSource::Copy(n) => {
            if is_self_word(n@) && owners.contains_key(x.scope@) {
                assert(owners.contains_key(x.scope@));
            } else if m.contains_key((x.scope@, n@)) {
                assert(m.contains_key((x.scope@, n@)));
            } else {
                assert(m.contains_key((FILE_SCOPE@, n@)));
            }
        },
        TypeSource::CallResult(f) => {
            let q = only_value(corpus.functions@, f@).unwrap();
            assert(corpus.return_types@.contains_key(q));
        },
        TypeSource::FieldAccess { receiver, field } => {
            let rt = lookup_in(m, owners, x.scope@, receiver@).unwrap();
            assert(corpus.field_types@.contains_key((rt, field@)));
        },
        TypeSource::MethodCallResult { receiver, method } => {
            let rt = lookup_in(m, owners, x.scope@, receiver@).unwrap();
            let q = only_value2(corpus.methods@, rt, method@).unwrap();
            assert(corpus.return_types@.contains_key(q));
        },
    }
}

proof fn lemma_round(
    scopes: Map<(Seq<char>, Seq<char>), Seq<char>>,
    owners: Map<Seq<char>, Seq<char>>,
    corpus: Corpus,
    pending: Seq<RawBinding>,
    bs: Seq<RawBinding>,
)
    requires
        forall|x: RawBinding| #[trigger] pending.contains(x) ==> bs.contains(x),
        forall|k: (Seq<char>, Seq<char>)| #[trigger] scopes.contains_key(k) ==> stated(
            scopes[k],
            bs,
            owners,
            corpus,
        ),
    ensures
        ({
            let r = round(scopes, owners, corpus, pending);
            &&& forall|k: (Seq<char>, Seq<char>)| #[trigger]
                scopes.contains_key(k) ==> r.0.contains_key(k) && r.0[k] == scopes[k]
            &&& forall|k: (Seq<char>, Seq<char>)| #[trigger]
                r.0.contains_key(k) ==> scopes.contains_key(k) || exists|j: int|
                    0 <= j < pending.len() && #[trigger] binding_key(pending[j]) == k
            &&& forall|k: (Seq<char>, Seq<char>)| #[trigger]
                r.0.contains_key(k) ==> stated(r.0[k], bs, owners, corpus)
            &&& forall|x: RawBinding| #[trigger] r.1.contains(x) ==> pending.contains(x)
            &&& forall|x: RawBinding| #[trigger]
                pending.contains(x) ==> r.0.contains_key(binding_key(x)) || r.1.contains(x)
            &&& !r.2 ==> r.0 == scopes && r.1 == pending && forall|x: RawBinding| #[trigger]
                pending.contains(x) ==> resolve_in(scopes, owners, corpus, x.scope@, x.source).is_none()
        }),
    decreases pending.len(),
{
    let r = round(scopes, owners, corpus, pending);
    if pending.len() == 0 {
        assert(r.1 =~= pending);
    } else {
        let p = pending.drop_last();
        let b = pending.last();
        let n = pending.len() - 1;
        assert forall|x: RawBinding| #[trigger] p.contains(x) implies bs.contains(x) by {
            let j = choose|j: int| 0 <= j < p.len() && p[j] == x;
            assert(pending[j] == x);
            assert(pending.contains(x));
        }
        assert(pending[n] == b);
        assert(pending.contains(b));
        lemma_round(scopes, owners, corpus, p, bs);
        let prev = round(scopes, owners, corpus, p);
        match resolve_in(prev.0, owners, corpus, b.scope@, b.source) {
            Some(t) => {
                lemma_resolve_stated(prev.0, bs, owners, corpus, b);
            },
            None => {},
        }
        assert forall|k: (Seq<char>, Seq<char>)| #[trigger] r.0.contains_key(k) implies scopes.contains_key(k)
            || exists|j: int| 0 <= j < pending.len() && #[trigger] binding_key(pending[j]) == k by {
            if prev.0.contains_key(k) {
                if !scopes.contains_key(k) {
                    let j = choose|j: int| 0 <= j < p.len() && #[trigger] binding_key(p[j]) == k;
                    assert(pending[j] == p[j]);
                }
            } else {
                assert(binding_key(pending[n]) == k);
            }
        }
        assert forall|x: RawBinding| #[trigger] r.1.contains(x) implies pending.contains(x) by {
            if prev.1.contains(x) {
                assert(p.contains(x));
                let j = choose|j: int| 0 <= j < p.len() && p[j] == x;
                assert(pending[j] == x);
            } else {
                let q = prev.1.push(b);
                let j = choose|j: int| 0 <= j < q.len() && q[j] == x;
                assert(j == prev.1.len());
            }
        }
        assert forall|x: RawBinding| #[trigger] pending.contains(x) implies r.0.contains_key(binding_key(x))
            || r.1.contains(x) by {
            let j = choose|j: int| 0 <= j < pending.len() && pending[j] == x;
            if j < n {
                assert(p[j] == x);
                assert(p.contains(x));
                if r.1 == prev.1.push(b) && prev.1.contains(x) {
                    let jj = choose|jj: int| 0 <= jj < prev.1.len() && prev.1[jj] == x;
                    assert(prev.1.push(b)[jj] == x);
                }
            } else {
                if resolve_in(prev.0, owners, corpus, b.scope@, b.source).is_none() {
                    assert(prev.1.push(b)[prev.1.len() as int] == b);
                }
            }
        }
        if !r.2 {
            assert(p.push(b) =~= pending);
            assert forall|x: RawBinding| #[trigger] pending.contains(x) implies resolve_in(
                scopes,
                owners,
                corpus,
                x.scope@,
                x.source,
            ).is_none() by {
                let j = choose|j: int| 0 <= j < pending.len() && pending[j] == x;
                if j < n {
                    assert(p[j] == x);
                    assert(p.contains(x));
                }
            }
        }
    }
}

proof fn lemma_settle(
    scopes: Map<(Seq<char>, Seq<char>), Seq<char>>,
    owners: Map<Seq<char>, Seq<char>>,
    corpus: Corpus,
    pending: Seq<RawBinding>,
    iteration: nat,
    bs: Seq<RawBinding>,
)
    requires
        1 <= iteration <= MAX_ITERATIONS + 1,
        forall|x: RawBinding| #[trigger] pending.contains(x) ==> bs.contains(x),
        forall|k: (Seq<char>, Seq<char>)| #[trigger] scopes.contains_key(k) ==> stated(
            scopes[k],
            bs,
            owners,
            corpus,
        ),
        forall|k: (Seq<char>, Seq<char>)| #[trigger] scopes.contains_key(k) ==> exists|i: int|
            0 <= i < bs.len() && #[trigger] binding_key(bs[i]) == k,
        forall|x: RawBinding| #[trigger]
            bs.contains(x) ==> scopes.contains_key(binding_key(x)) || pending.contains(x),
    ensures
        ({
            let r = settle(scopes, owners, corpus, pending, iteration);
            &&& 1 <= r.1 <= MAX_ITERATIONS
            &&& r.2 ==> r.1 == MAX_ITERATIONS
            &&& forall|k: (Seq<char>, Seq<char>)| #[trigger]
                scopes.contains_key(k) ==> r.0.contains_key(k) && r.0[k] == scopes[k]
            &&& forall|k: (Seq<char>, Seq<char>)| #[trigger]
                r.0.contains_key(k) ==> stated(r.0[k], bs, owners, corpus)
            &&& forall|k: (Seq<char>, Seq<char>)| #[trigger]
                r.0.contains_key(k) ==> exists|i: int| 0 <= i < bs.len() && #[trigger] binding_key(bs[i]) == k
            &&& !r.2 ==> forall|x: RawBinding| #[trigger]
                bs.contains(x) ==> r.0.contains_key(binding_key(x)) || resolve_in(
                    r.0,
                    owners,
                    corpus,
                    x.scope@,
                    x.source,
                ).is_none()
        }),
    decreases MAX_ITERATIONS + 1 - iteration,
{
    if iteration <= MAX_ITERATIONS {
        lemma_round(scopes, owners, corpus, pending, bs);
        let r = round(scopes, owners, corpus, pending);
        assert forall|k: (Seq<char>, Seq<char>)| #[trigger] r.0.contains_key(k) implies exists|i: int|
            0 <= i < bs.len() && #[trigger] binding_key(bs[i]) == k by {
            if !scopes.contains_key(k) {
                let j = choose|j: int| 0 <= j < pending.len() && #[trigger] binding_key(pending[j]) == k;
                assert(pending.contains(pending[j]));
                assert(bs.contains(pending[j]));
                let i = choose|i: int| 0 <= i < bs.len() && bs[i] == pending[j];
                assert(binding_key(bs[i]) == k);
            }
        }
        assert forall|x: RawBinding| #[trigger] bs.contains(x) implies r.0.contains_key(binding_key(x))
            || r.1.contains(x) by {
            if scopes.contains_key(binding_key(x)) {
            } else {
                assert(pending.contains(x));
            }
        }
        if r.1.len() == 0 || !r.2 {
            if r.1.len() == 0 {
                assert forall|x: RawBinding| #[trigger] bs.contains(x) implies r.0.contains_key(binding_key(x)) by {
                    if r.1.contains(x) {
                        let j = choose|j: int| 0 <= j < r.1.len() && r.1[j] == x;
                    }
                }
            }
        } else {
            lemma_settle(r.0, owners, corpus, r.1, iteration + 1, bs);
        }
    } else {
        if pending.len() == 0 {
            assert forall|x: RawBinding| #[trigger] bs.contains(x) implies scopes.contains_key(binding_key(x)) by {
                if pending.contains(x) {
                    let j = choose|j: int| 0 <= j < pending.len() && pending[j] == x;
                }
            }
        }
    }
}

proof fn lemma_solve(bs: Seq<RawBinding>, owners: Map<Seq<char>, Seq<char>>, corpus: Corpus)
    ensures
        ({
            let r = solve(bs, owners, corpus);
            &&& 1 <= r.1 <= MAX_ITERATIONS
            &&& r.2 ==> r.1 == MAX_ITERATIONS
            &&& forall|k: (Seq<char>, Seq<char>)| #[trigger]
                seed(bs).contains_key(k) ==> r.0.contains_key(k) && r.0[k] == seed(bs)[k]
            &&& forall|k: (Seq<char>, Seq<char>)| #[trigger]
                r.0.contains_key(k) ==> stated(r.0[k], bs, owners, corpus)
            &&& forall|k: (Seq<char>, Seq<char>)| #[trigger]
                r.0.contains_key(k) ==> exists|i: int| 0 <= i < bs.len() && #[trigger] binding_key(bs[i]) == k
            &&& !r.2 ==> forall|x: RawBinding| #[trigger]
                bs.contains(x) ==> r.0.contains_key(binding_key(x)) || resolve_in(
                    r.0,
                    owners,
                    corpus,
                    x.scope@,
                    x.source,
                ).is_none()
        }),
{
    lemma_seed(bs);
    lemma_pending(bs);
    let m = seed(bs);
    assert forall|k: (Seq<char>, Seq<char>)| #[trigger] m.contains_key(k) implies stated(m[k], bs, owners, corpus) by {
        let i = choose|i: int| 0 <= i < bs.len() && #[trigger] binding_key(bs[i]) == k && direct_type(bs[i].source) == Some(m[k]);
    }
    assert forall|k: (Seq<char>, Seq<char>)| #[trigger] m.contains_key(k) implies exists|i: int|
        0 <= i < bs.len() && #[trigger] binding_key(bs[i]) == k by {
        let i = choose|i: int| 0 <= i < bs.len() && #[trigger] binding_key(bs[i]) == k && direct_type(bs[i].source) == Some(m[k]);
    }
    assert forall|x: RawBinding| #[trigger] bs.contains(x) implies m.contains_key(binding_key(x))
        || pending_of(bs).contains(x) by {
        let i = choose|i: int| 0 <= i < bs.len() && bs[i] == x;
        if direct_type(bs[i].source).is_some() {
        } else {
        }
    }
    lemma_settle(m, owners, corpus, pending_of(bs), 1, bs);
}

/// The fixpoint always stops: it runs at least one round and never more than
/// [`MAX_ITERATIONS`], and it reports the bound only when it ran them all.
pub proof fn law_rounds_are_bounded(bs: Seq<RawBinding>, owners: Map<Seq<char>, Seq<char>>, corpus: Corpus)
    ensures
        1 <= solve(bs, owners, corpus).1 <= MAX_ITERATIONS,
        solve(bs, owners, corpus).2 ==> solve(bs, owners, corpus).1 == MAX_ITERATIONS,
{
    lemma_solve(bs, owners, corpus);
}

/// An explicit annotation or constructor is never overwritten by a weaker
/// inference: the first direct binding of a name in a scope is the type the
/// environment holds for it.
pub proof fn law_first_direct_binding_wins(
    bs: Seq<RawBinding>,
    owners: Map<Seq<char>, Seq<char>>,
    corpus: Corpus,
    i: int,
)
    requires
        0 <= i < bs.len(),
        direct_type(bs[i].source).is_some(),
        forall|j: int|
            0 <= j < i && #[trigger] direct_type(bs[j].source).is_some() ==> binding_key(bs[j])
                != binding_key(bs[i]),
    ensures
        solve(bs, owners, corpus).0.contains_key(binding_key(bs[i])),
        solve(bs, owners, corpus).0[binding_key(bs[i])] == direct_type(bs[i].source).unwrap(),
{
    lemma_seed(bs);
    lemma_solve(bs, owners, corpus);
    assert(direct_type(bs[i].source).is_some());
    assert(seed(bs).contains_key(binding_key(bs[i])));
}

/// Within a scope that has an enclosing type, each of the receivers `self`,
/// `this` and `Self` names that type, whatever the scope's bindings say
/// (`Self::new()` inside `impl Store` is a call on `Store`).
pub proof fn law_receivers_name_the_enclosing_type(
    scopes: Map<(Seq<char>, Seq<char>), Seq<char>>,
    owners: Map<Seq<char>, Seq<char>>,
    scope: Seq<char>,
)
    requires
        owners.contains_key(scope),
    ensures
        lookup_in(scopes, owners, scope, "self"@) == Some(owners[scope]),
        lookup_in(scopes, owners, scope, "this"@) == Some(owners[scope]),
        lookup_in(scopes, owners, scope, "Self"@) == Some(owners[scope]),
{
}

/// Every resolved name was bound in that very scope: a binding local to a
/// callable never appears at file scope or in another callable.
pub proof fn law_names_stay_in_their_scope(
    bs: Seq<RawBinding>,
    owners: Map<Seq<char>, Seq<char>>,
    corpus: Corpus,
    scope: Seq<char>,
    name: Seq<char>,
)
    requires
        solve(bs, owners, corpus).0.contains_key((scope, name)),
    ensures
        exists|i: int| 0 <= i < bs.len() && bs[i].scope@ == scope && #[trigger] bs[i].name@ == name,
{
    lemma_solve(bs, owners, corpus);
    let i = choose|i: int| 0 <= i < bs.len() && #[trigger] binding_key(bs[i]) == (scope, name);
    assert(bs[i].name@ == name);
}

/// The environment never guesses: every type it holds is one the input
/// states (a direct binding, an enclosing type, a declared return type or a
/// declared field type).
pub proof fn law_types_are_stated(
    bs: Seq<RawBinding>,
    owners: Map<Seq<char>, Seq<char>>,
    corpus: Corpus,
    k: (Seq<char>, Seq<char>),
)
    requires
        solve(bs, owners, corpus).0.contains_key(k),
    ensures
        stated(solve(bs, owners, corpus).0[k], bs, owners, corpus),
{
    lemma_solve(bs, owners, corpus);
}

/// Bindings that only refer to one another, with nothing stated anywhere
/// (no annotation or constructor, no enclosing type, no declared return or
/// field type), resolve to nothing: a cycle of copies stays unknown.
pub proof fn law_nothing_from_nothing(bs: Seq<RawBinding>, owners: Map<Seq<char>, Seq<char>>, corpus: Corpus)
    requires
        forall|i: int| 0 <= i < bs.len() ==> (#[trigger] direct_type(bs[i].source)).is_none(),
        owners.is_empty(),
        corpus.return_types@.is_empty(),
        corpus.field_types@.is_empty(),
    ensures
        solve(bs, owners, corpus).0.is_empty(),
{
    lemma_solve(bs, owners, corpus);
    let m = solve(bs, owners, corpus).0;
    assert forall|k: (Seq<char>, Seq<char>)| !#[trigger] m.contains_key(k) by {
        if m.contains_key(k) {
            assert(stated(m[k], bs, owners, corpus));
            assert(!owners.contains_key(choose|s: Seq<char>| owners.contains_key(s) && owners[s] == m[k]));
            assert(!corpus.return_types@.contains_key(
                choose|q: Seq<char>| corpus.return_types@.contains_key(q) && corpus.return_types@[q] == m[k],
            ));
            assert(!corpus.field_types@.contains_key(
                choose|f: (Seq<char>, Seq<char>)| corpus.field_types@.contains_key(f) && corpus.field_types@[f] == m[k],
            ));
        }
    }
    assert(m.dom() =~= Set::empty());
}

/// Unless the bound cut it short, the environment is a fixed point: every
/// binding either holds a type or cannot be resolved from what the
/// environment holds.
pub proof fn law_settled_unless_bounded(
    bs: Seq<RawBinding>,
    owners: Map<Seq<char>, Seq<char>>,
    corpus: Corpus,
    i: int,
)
    requires
        0 <= i < bs.len(),
        !solve(bs, owners, corpus).2,
    ensures
        solve(bs, owners, corpus).0.contains_key(binding_key(bs[i])) || resolve_in(
            solve(bs, owners, corpus).0,
            owners,
            corpus,
            bs[i].scope@,
            bs[i].source,
        ).is_none(),
{
    lemma_solve(bs, owners, corpus);
    assert(bs.contains(bs[i]));
}

} // verus!
