//! Finite maps, relations and sets keyed by text.
//!
//! Each collection is viewed as the mathematical object it stands for: a
//! `Map` of keys to values, or a `Set` of pairs or triples. Only those views
//! appear in contracts; the storage order of the entries never does.

use vstd::prelude::*;

use crate::order::same_text;

verus! {

/// `v` is the one value `rel` relates to `key`.
pub open spec fn is_only_value(rel: Set<(Seq<char>, Seq<char>)>, key: Seq<char>, v: Seq<char>) -> bool {
    &&& rel.contains((key, v))
    &&& forall|w: Seq<char>| #[trigger] rel.contains((key, w)) ==> w == v
}

/// The single value `rel` relates to `key`, or `None` when it relates none or
/// several.
pub open spec fn only_value(rel: Set<(Seq<char>, Seq<char>)>, key: Seq<char>) -> Option<Seq<char>> {
    if exists|v: Seq<char>| is_only_value(rel, key, v) {
        Some(choose|v: Seq<char>| is_only_value(rel, key, v))
    } else {
        None
    }
}

/// `v` is the one value `rel` relates to the key pair `(a, b)`.
pub open spec fn is_only_value2(
    rel: Set<(Seq<char>, Seq<char>, Seq<char>)>,
    a: Seq<char>,
    b: Seq<char>,
    v: Seq<char>,
) -> bool {
    &&& rel.contains((a, b, v))
    &&& forall|w: Seq<char>| #[trigger] rel.contains((a, b, w)) ==> w == v
}

/// The single value `rel` relates to `(a, b)`, or `None` when it relates
/// none or several.
pub open spec fn only_value2(
    rel: Set<(Seq<char>, Seq<char>, Seq<char>)>,
    a: Seq<char>,
    b: Seq<char>,
) -> Option<Seq<char>> {
    if exists|v: Seq<char>| is_only_value2(rel, a, b, v) {
        Some(choose|v: Seq<char>| is_only_value2(rel, a, b, v))
    } else {
        None
    }
}

/// `t` is the one triple of `rel` whose middle component is `b`.
pub open spec fn is_only_with_middle(
    rel: Set<(Seq<char>, Seq<char>, Seq<char>)>,
    b: Seq<char>,
    t: (Seq<char>, Seq<char>, Seq<char>),
) -> bool {
    &&& rel.contains(t)
    &&& t.1 == b
    &&& forall|u: (Seq<char>, Seq<char>, Seq<char>)| #[trigger] rel.contains(u) && u.1 == b ==> u == t
}

/// The last component of the one triple whose middle component is `b`, or
/// `None` when there is no such triple or several.
pub open spec fn only_with_middle(rel: Set<(Seq<char>, Seq<char>, Seq<char>)>, b: Seq<char>) -> Option<
    Seq<char>,
> {
    if exists|t: (Seq<char>, Seq<char>, Seq<char>)| is_only_with_middle(rel, b, t) {
        Some((choose|t: (Seq<char>, Seq<char>, Seq<char>)| is_only_with_middle(rel, b, t)).2)
    } else {
        None
    }
}

/// The text a borrowed string option holds.
pub open spec fn opt_text(o: Option<&str>) -> Option<Seq<char>> {
    match o {
        Some(s) => Some(s@),
        None => None,
    }
}

// ---------------------------------------------------------------------------
// TextMap
// ---------------------------------------------------------------------------

spec fn text_keys_distinct(s: Seq<(String, String)>) -> bool {
    forall|i: int, j: int| 0 <= i < j < s.len() ==> #[trigger] s[i].0@ != #[trigger] s[j].0@
}

/// A finite map from text to text.
#[derive(Debug)]
pub struct TextMap {
    entries: Vec<(String, String)>,
}

impl TextMap {
    #[verifier::type_invariant]
    spec fn keys_distinct(self) -> bool {
        text_keys_distinct(self.entries@)
    }

    spec fn holds_key(self, k: Seq<char>) -> bool {
        exists|i: int| 0 <= i < self.entries.len() && #[trigger] self.entries[i].0@ == k
    }

    /// The map the entries stand for.
    pub closed spec fn as_map(self) -> Map<Seq<char>, Seq<char>> {
        Map::new(
            |k: Seq<char>| self.holds_key(k),
            |k: Seq<char>|
                self.entries[choose|i: int|
                    0 <= i < self.entries.len() && #[trigger] self.entries[i].0@ == k].1@,
        )
    }

    proof fn lemma_at(self, i: int)
        requires
            self.keys_distinct(),
            0 <= i < self.entries.len(),
        ensures
            self.as_map().contains_key(self.entries[i].0@),
            self.as_map()[self.entries[i].0@] == self.entries[i].1@,
    {
        let k = self.entries[i].0@;
        assert(self.holds_key(k));
        let j = choose|j: int| 0 <= j < self.entries.len() && #[trigger] self.entries[j].0@ == k;
        if j < i {
            assert(self.entries[j].0@ != self.entries[i].0@);
        } else if i < j {
            assert(self.entries[i].0@ != self.entries[j].0@);
        }
    }

    /// An empty map.
    pub fn new() -> (m: Self)
        ensures
            m@ == Map::<Seq<char>, Seq<char>>::empty(),
    {
        let m = TextMap { entries: Vec::new() };
        assert(m.as_map() =~= Map::<Seq<char>, Seq<char>>::empty());
        m
    }

    /// The value stored under `key`.
    pub fn get(&self, key: &str) -> (r: Option<&str>)
        ensures
            opt_text(r) == (if self@.contains_key(key@) {
                Some(self@[key@])
            } else {
                None
            }),
    {
        proof {
            use_type_invariant(self);
        }
        let mut i: usize = 0;
        while i < self.entries.len()
            invariant
                i <= self.entries.len(),
                self.keys_distinct(),
                forall|j: int| 0 <= j < i ==> #[trigger] self.entries[j].0@ != key@,
            decreases self.entries.len() - i,
        {
            if same_text(self.entries[i].0.as_str(), key) {
                proof {
                    self.lemma_at(i as int);
                }
                return Some(self.entries[i].1.as_str());
            }
            i = i + 1;
        }
        None
    }

    /// Stores `value` under `key`, replacing any value stored there.
    pub fn insert(&mut self, key: &str, value: &str)
        ensures
            final(self)@ == old(self)@.insert(key@, value@),
    {
        proof {
            use_type_invariant(&*self);
        }
        let ghost before = *self;
        let mut i: usize = 0;
        let mut found = false;
        while i < self.entries.len() && !found
            invariant
                i <= self.entries.len(),
                *self == before,
                before.keys_distinct(),
                found ==> i < self.entries.len() && self.entries[i as int].0@ == key@,
                !found ==> forall|j: int| 0 <= j < i ==> #[trigger] self.entries[j].0@ != key@,
            decreases self.entries.len() - i + (if found { 0int } else { 1int }),
        {
            if same_text(self.entries[i].0.as_str(), key) {
                found = true;
            } else {
                i = i + 1;
            }
        }
        let entry = (key.to_owned(), value.to_owned());
        if found {
            let ghost idx = i as int;
            let mut entries = Vec::new();
            std::mem::swap(&mut entries, &mut self.entries);
            entries.set(i, entry);
            proof {
                assert forall|a: int, b: int| 0 <= a < b < entries.len() implies
                    #[trigger] entries@[a].0@ != #[trigger] entries@[b].0@ by {
                    assert(before.entries[a].0@ != before.entries[b].0@);
                    if a == idx {
                        assert(entries@[a].0@ == before.entries[a].0@);
                    }
                    if b == idx {
                        assert(entries@[b].0@ == before.entries[b].0@);
                    }
                }
            }
            self.entries = entries;
            proof {
                self.lemma_at(idx);
                assert forall|k: Seq<char>| #[trigger] self.holds_key(k) == before.holds_key(k) by {
                    if self.holds_key(k) {
                        let j = choose|j: int| 0 <= j < self.entries.len() && #[trigger] self.entries[j].0@ == k;
                        assert(before.entries[j].0@ == k);
                    }
                    if before.holds_key(k) {
                        let j = choose|j: int| 0 <= j < before.entries.len() && #[trigger] before.entries[j].0@ == k;
                        assert(self.entries[j].0@ == k);
                    }
                }
                assert forall|k: Seq<char>| #[trigger] self.as_map().contains_key(k) && k != key@ implies
                    self.as_map()[k] == before.as_map()[k] by {
                    let j = choose|j: int| 0 <= j < self.entries.len() && #[trigger] self.entries[j].0@ == k;
                    self.lemma_at(j);
                    before.lemma_at(j);
                }
                assert(self.as_map() =~= before.as_map().insert(key@, value@));
            }
        } else {
            let mut entries = Vec::new();
            std::mem::swap(&mut entries, &mut self.entries);
            entries.push(entry);
            proof {
                let n = before.entries.len() as int;
                assert forall|a: int, b: int| 0 <= a < b < entries.len() implies
                    #[trigger] entries@[a].0@ != #[trigger] entries@[b].0@ by {
                    assert(entries@[a] == before.entries[a]);
                    if b == n {
                        assert(before.entries[a].0@ != key@);
                    } else {
                        assert(before.entries[a].0@ != before.entries[b].0@);
                    }
                }
            }
            self.entries = entries;
            proof {
                let n = before.entries.len() as int;
                self.lemma_at(n);
                assert forall|k: Seq<char>| k != key@ implies #[trigger] self.holds_key(k)
                    == before.holds_key(k) by {
                    if self.holds_key(k) {
                        let j = choose|j: int| 0 <= j < self.entries.len() && #[trigger] self.entries[j].0@ == k;
                        assert(j < n);
                        assert(before.entries[j].0@ == k);
                    }
                    if before.holds_key(k) {
                        let j = choose|j: int| 0 <= j < before.entries.len() && #[trigger] before.entries[j].0@ == k;
                        assert(self.entries[j].0@ == k);
                    }
                }
                assert forall|k: Seq<char>| #[trigger] self.as_map().contains_key(k) && k != key@ implies
                    self.as_map()[k] == before.as_map()[k] by {
                    let j = choose|j: int| 0 <= j < self.entries.len() && #[trigger] self.entries[j].0@ == k;
                    assert(j < n);
                    self.lemma_at(j);
                    before.lemma_at(j);
                }
                assert(self.as_map() =~= before.as_map().insert(key@, value@));
            }
        }
    }

    /// The map the first `n` entries stand for.
    spec fn prefix_map(self, n: int) -> Map<Seq<char>, Seq<char>> {
        Map::new(
            |k: Seq<char>| exists|i: int| 0 <= i < n && #[trigger] self.entries[i].0@ == k,
            |k: Seq<char>| self.entries[choose|i: int| 0 <= i < n && #[trigger] self.entries[i].0@ == k].1@,
        )
    }

    proof fn lemma_prefix_step(self, n: int)
        requires
            self.keys_distinct(),
            0 <= n < self.entries.len(),
        ensures
            self.prefix_map(n + 1) == self.prefix_map(n).insert(self.entries[n].0@, self.entries[n].1@),
    {
        let e = self.entries[n];
        assert forall|k: Seq<char>| #[trigger] self.prefix_map(n + 1).contains_key(k) implies
            self.prefix_map(n + 1)[k] == self.prefix_map(n).insert(e.0@, e.1@)[k] by {
            let j = choose|i: int| 0 <= i < n + 1 && #[trigger] self.entries[i].0@ == k;
            if k == e.0@ {
                if j != n {
                    assert(self.entries[j].0@ != self.entries[n].0@);
                }
            } else {
                assert(j != n);
                let j2 = choose|i: int| 0 <= i < n && #[trigger] self.entries[i].0@ == k;
                if j != j2 {
                    assert(self.entries[j].0@ != self.entries[j2].0@);
                }
            }
        }
        assert forall|k: Seq<char>| #[trigger] self.prefix_map(n).insert(e.0@, e.1@).contains_key(k) implies
            self.prefix_map(n + 1).contains_key(k) by {
            if k != e.0@ {
                let j = choose|i: int| 0 <= i < n && #[trigger] self.entries[i].0@ == k;
                assert(0 <= j < n + 1 && self.entries[j].0@ == k);
            } else {
                assert(self.entries[n].0@ == k);
            }
        }
        assert(self.prefix_map(n + 1) =~= self.prefix_map(n).insert(e.0@, e.1@));
    }

    /// Every entry of `other` stored, replacing what was stored under its key.
    pub fn absorb(&mut self, other: &TextMap)
        ensures
            final(self)@ == old(self)@.union_prefer_right(other@),
    {
        proof {
            use_type_invariant(other);
        }
        let ghost start = self@;
        let mut i: usize = 0;
        assert(other.prefix_map(0) =~= Map::<Seq<char>, Seq<char>>::empty());
        assert(start.union_prefer_right(other.prefix_map(0)) =~= start);
        while i < other.entries.len()
            invariant
                i <= other.entries.len(),
                other.keys_distinct(),
                self@ == start.union_prefer_right(other.prefix_map(i as int)),
            decreases other.entries.len() - i,
        {
            self.insert(other.entries[i].0.as_str(), other.entries[i].1.as_str());
            proof {
                other.lemma_prefix_step(i as int);
                assert(self@ =~= start.union_prefer_right(other.prefix_map(i + 1)));
            }
            i = i + 1;
        }
        proof {
            assert(other.prefix_map(other.entries.len() as int) =~= other.as_map());
        }
    }

    /// A copy holding the same entries.
    #[verifier::spinoff_prover]
    pub fn copy(&self) -> (r: Self)
        ensures
            r@ == self@,
    {
        proof {
            use_type_invariant(self);
        }
        let mut entries: Vec<(String, String)> = Vec::new();
        let mut i: usize = 0;
        while i < self.entries.len()
            invariant
                i <= self.entries.len(),
                entries.len() == i,
                forall|j: int| 0 <= j < i ==> #[trigger] entries[j].0@ == self.entries[j].0@
                    && entries[j].1@ == self.entries[j].1@,
            decreases self.entries.len() - i,
        {
            let k = self.entries[i].0.clone();
            let v = self.entries[i].1.clone();
            entries.push((k, v));
            assert(entries[i as int].0@ == self.entries[i as int].0@);
            i = i + 1;
        }
        proof {
            assert forall|a: int, b: int| 0 <= a < b < entries.len() implies
                #[trigger] entries@[a].0@ != #[trigger] entries@[b].0@ by {
                assert(self.entries[a].0@ != self.entries[b].0@);
            }
        }
        let r = TextMap { entries };
        proof {
            assert forall|k: Seq<char>| #[trigger] r.holds_key(k) == self.holds_key(k) by {
                if r.holds_key(k) {
                    let j = choose|j: int| 0 <= j < r.entries.len() && #[trigger] r.entries[j].0@ == k;
                    assert(self.entries[j].0@ == k);
                }
                if self.holds_key(k) {
                    let j = choose|j: int| 0 <= j < self.entries.len() && #[trigger] self.entries[j].0@ == k;
                    assert(r.entries[j].0@ == k);
                }
            }
            assert forall|k: Seq<char>| #[trigger] r.as_map().contains_key(k) implies r.as_map()[k]
                == self.as_map()[k] by {
                let j = choose|j: int| 0 <= j < r.entries.len() && #[trigger] r.entries[j].0@ == k;
                r.lemma_at(j);
                self.lemma_at(j);
            }
            assert(r.as_map() =~= self.as_map());
        }
        r
    }
}

impl View for TextMap {
    type V = Map<Seq<char>, Seq<char>>;

    open spec fn view(&self) -> Map<Seq<char>, Seq<char>> {
        self.as_map()
    }
}

// ---------------------------------------------------------------------------
// PairMap
// ---------------------------------------------------------------------------

spec fn pair_key(e: (String, String, String)) -> (Seq<char>, Seq<char>) {
    (e.0@, e.1@)
}

spec fn pair_keys_distinct(s: Seq<(String, String, String)>) -> bool {
    forall|i: int, j: int| 0 <= i < j < s.len() ==> #[trigger] pair_key(s[i]) != #[trigger] pair_key(s[j])
}

/// A finite map from pairs of text to text.
#[derive(Debug)]
pub struct PairMap {
    entries: Vec<(String, String, String)>,
}

impl PairMap {
    #[verifier::type_invariant]
    spec fn keys_distinct(self) -> bool {
        pair_keys_distinct(self.entries@)
    }

    spec fn key_at(self, i: int) -> (Seq<char>, Seq<char>) {
        pair_key(self.entries@[i])
    }

    spec fn holds_key(self, k: (Seq<char>, Seq<char>)) -> bool {
        exists|i: int| 0 <= i < self.entries.len() && #[trigger] self.key_at(i) == k
    }

    /// The map the entries stand for.
    pub closed spec fn as_map(self) -> Map<(Seq<char>, Seq<char>), Seq<char>> {
        Map::new(
            |k: (Seq<char>, Seq<char>)| self.holds_key(k),
            |k: (Seq<char>, Seq<char>)|
                self.entries[choose|i: int| 0 <= i < self.entries.len() && #[trigger] self.key_at(i) == k].2@,
        )
    }

    proof fn lemma_at(self, i: int)
        requires
            self.keys_distinct(),
            0 <= i < self.entries.len(),
        ensures
            self.as_map().contains_key(self.key_at(i)),
            self.as_map()[self.key_at(i)] == self.entries[i].2@,
    {
        let k = self.key_at(i);
        assert(self.holds_key(k));
        let j = choose|j: int| 0 <= j < self.entries.len() && #[trigger] self.key_at(j) == k;
        if j < i {
            assert(self.key_at(j) != self.key_at(i));
        } else if i < j {
            assert(self.key_at(i) != self.key_at(j));
        }
    }

    /// The map the first `n` entries stand for.
    spec fn prefix_map(self, n: int) -> Map<(Seq<char>, Seq<char>), Seq<char>> {
        Map::new(
            |k: (Seq<char>, Seq<char>)| exists|i: int| 0 <= i < n && #[trigger] self.key_at(i) == k,
            |k: (Seq<char>, Seq<char>)| self.entries[choose|i: int| 0 <= i < n && #[trigger] self.key_at(i) == k].2@,
        )
    }

    proof fn lemma_prefix_step(self, n: int)
        requires
            self.keys_distinct(),
            0 <= n < self.entries.len(),
        ensures
            self.prefix_map(n + 1) == self.prefix_map(n).insert(self.key_at(n), self.entries[n].2@),
    {
        let key = self.key_at(n);
        let v = self.entries[n].2@;
        assert forall|k: (Seq<char>, Seq<char>)| #[trigger] self.prefix_map(n + 1).contains_key(k) implies
            self.prefix_map(n + 1)[k] == self.prefix_map(n).insert(key, v)[k] by {
            let j = choose|i: int| 0 <= i < n + 1 && #[trigger] self.key_at(i) == k;
            if k == key {
                if j != n {
                    assert(self.key_at(j) != self.key_at(n));
                }
            } else {
                assert(j != n);
                let j2 = choose|i: int| 0 <= i < n && #[trigger] self.key_at(i) == k;
                if j != j2 {
                    assert(self.key_at(j) != self.key_at(j2));
                }
            }
        }
        assert forall|k: (Seq<char>, Seq<char>)| #[trigger] self.prefix_map(n).insert(key, v).contains_key(k) implies
            self.prefix_map(n + 1).contains_key(k) by {
            if k != key {
                let j = choose|i: int| 0 <= i < n && #[trigger] self.key_at(i) == k;
                assert(0 <= j < n + 1 && self.key_at(j) == k);
            } else {
                assert(self.key_at(n) == k);
            }
        }
        assert(self.prefix_map(n + 1) =~= self.prefix_map(n).insert(key, v));
    }

    /// Every entry of `other` stored, replacing what was stored under its key.
    pub fn absorb(&mut self, other: &PairMap)
        ensures
            final(self)@ == old(self)@.union_prefer_right(other@),
    {
        proof {
            use_type_invariant(other);
        }
        let ghost start = self@;
        let mut i: usize = 0;
        assert(other.prefix_map(0) =~= Map::<(Seq<char>, Seq<char>), Seq<char>>::empty());
        assert(start.union_prefer_right(other.prefix_map(0)) =~= start);
        while i < other.entries.len()
            invariant
                i <= other.entries.len(),
                other.keys_distinct(),
                self@ == start.union_prefer_right(other.prefix_map(i as int)),
            decreases other.entries.len() - i,
        {
            self.insert(other.entries[i].0.as_str(), other.entries[i].1.as_str(), other.entries[i].2.as_str());
            proof {
                other.lemma_prefix_step(i as int);
                assert(self@ =~= start.union_prefer_right(other.prefix_map(i + 1)));
            }
            i = i + 1;
        }
        proof {
            assert(other.prefix_map(other.entries.len() as int) =~= other.as_map());
        }
    }

    /// An empty map.
    pub fn new() -> (m: Self)
        ensures
            m@ == Map::<(Seq<char>, Seq<char>), Seq<char>>::empty(),
    {
        let m = PairMap { entries: Vec::new() };
        assert(m.as_map() =~= Map::<(Seq<char>, Seq<char>), Seq<char>>::empty());
        m
    }

    /// The position of the entry stored under `(a, b)`, if any.
    fn find(&self, a: &str, b: &str) -> (r: Option<usize>)
        ensures
            match r {
                Some(i) => i < self.entries.len() && self.key_at(i as int) == (a@, b@),
                None => !self.holds_key((a@, b@)),
            },
    {
        let mut i: usize = 0;
        while i < self.entries.len()
            invariant
                i <= self.entries.len(),
                forall|j: int| 0 <= j < i ==> #[trigger] self.key_at(j) != (a@, b@),
            decreases self.entries.len() - i,
        {
            if same_text(self.entries[i].0.as_str(), a) && same_text(self.entries[i].1.as_str(), b) {
                return Some(i);
            }
            i = i + 1;
        }
        None
    }

    /// The value stored under `(a, b)`.
    pub fn get(&self, a: &str, b: &str) -> (r: Option<&str>)
        ensures
            opt_text(r) == (if self@.contains_key((a@, b@)) {
                Some(self@[(a@, b@)])
            } else {
                None
            }),
    {
        proof {
            use_type_invariant(self);
        }
        match self.find(a, b) {
            Some(i) => {
                proof {
                    self.lemma_at(i as int);
                }
                Some(self.entries[i].2.as_str())
            },
            None => None,
        }
    }

    /// Stores `value` under `(a, b)`, replacing any value stored there.
    pub fn insert(&mut self, a: &str, b: &str, value: &str)
        ensures
            final(self)@ == old(self)@.insert((a@, b@), value@),
    {
        proof {
            use_type_invariant(&*self);
        }
        let ghost before = *self;
        let entry = (a.to_owned(), b.to_owned(), value.to_owned());
        match self.find(a, b) {
            Some(i) => {
                let ghost idx = i as int;
                let mut entries = Vec::new();
                std::mem::swap(&mut entries, &mut self.entries);
                entries.set(i, entry);
                proof {
                    assert forall|x: int, y: int| 0 <= x < y < entries.len() implies
                        #[trigger] pair_key(entries@[x]) != #[trigger] pair_key(entries@[y]) by {
                        assert(before.key_at(x) != before.key_at(y));
                        if x == idx {
                            assert(pair_key(entries@[x]) == before.key_at(x));
                        }
                        if y == idx {
                            assert(pair_key(entries@[y]) == before.key_at(y));
                        }
                    }
                }
                self.entries = entries;
                proof {
                    self.lemma_at(idx);
                    before.lemma_at(idx);
                    assert forall|k: (Seq<char>, Seq<char>)| #[trigger] self.holds_key(k)
                        == before.holds_key(k) by {
                        if self.holds_key(k) {
                            let j = choose|j: int| 0 <= j < self.entries.len() && #[trigger] self.key_at(j) == k;
                            assert(before.key_at(j) == k);
                        }
                        if before.holds_key(k) {
                            let j = choose|j: int| 0 <= j < before.entries.len() && #[trigger] before.key_at(j) == k;
                            assert(self.key_at(j) == k);
                        }
                    }
                    assert forall|k: (Seq<char>, Seq<char>)| #[trigger] self.as_map().contains_key(k) && k
                        != (a@, b@) implies self.as_map()[k] == before.as_map()[k] by {
                        let j = choose|j: int| 0 <= j < self.entries.len() && #[trigger] self.key_at(j) == k;
                        self.lemma_at(j);
                        before.lemma_at(j);
                    }
                    assert(self.as_map() =~= before.as_map().insert((a@, b@), value@));
                }
            },
            None => {
                self.append_absent(entry);
            },
        }
    }

    /// Stores `value` under `(a, b)` unless a value is stored there already.
    pub fn insert_if_absent(&mut self, a: &str, b: &str, value: &str)
        ensures
            final(self)@ == (if old(self)@.contains_key((a@, b@)) {
                old(self)@
            } else {
                old(self)@.insert((a@, b@), value@)
            }),
    {
        match self.find(a, b) {
            Some(i) => {
                proof {
                    use_type_invariant(&*self);
                    self.lemma_at(i as int);
                }
            },
            None => {
                let entry = (a.to_owned(), b.to_owned(), value.to_owned());
                self.append_absent(entry);
            },
        }
    }

    fn append_absent(&mut self, entry: (String, String, String))
        requires
            !old(self).holds_key((entry.0@, entry.1@)),
        ensures
            final(self)@ == old(self)@.insert((entry.0@, entry.1@), entry.2@),
    {
        proof {
            use_type_invariant(&*self);
        }
        let ghost before = *self;
        let ghost k0 = (entry.0@, entry.1@);
        let ghost v0 = entry.2@;
        let mut entries = Vec::new();
        std::mem::swap(&mut entries, &mut self.entries);
        entries.push(entry);
        proof {
            let n = before.entries.len() as int;
            assert forall|x: int, y: int| 0 <= x < y < entries.len() implies
                #[trigger] pair_key(entries@[x]) != #[trigger] pair_key(entries@[y]) by {
                assert(entries@[x] == before.entries[x]);
                assert(pair_key(entries@[x]) == before.key_at(x));
                if y == n {
                    assert(before.key_at(x) != k0);
                } else {
                    assert(entries@[y] == before.entries[y]);
                    assert(before.key_at(x) != before.key_at(y));
                }
            }
        }
        self.entries = entries;
        proof {
            let n = before.entries.len() as int;
            assert(self.key_at(n) == k0);
            self.lemma_at(n);
            assert forall|k: (Seq<char>, Seq<char>)| k != k0 implies #[trigger] self.holds_key(k)
                == before.holds_key(k) by {
                if self.holds_key(k) {
                    let j = choose|j: int| 0 <= j < self.entries.len() && #[trigger] self.key_at(j) == k;
                    assert(j < n);
                    assert(before.key_at(j) == k);
                }
                if before.holds_key(k) {
                    let j = choose|j: int| 0 <= j < before.entries.len() && #[trigger] before.key_at(j) == k;
                    assert(self.key_at(j) == k);
                }
            }
            assert forall|k: (Seq<char>, Seq<char>)| #[trigger] self.as_map().contains_key(k) && k != k0
                implies self.as_map()[k] == before.as_map()[k] by {
                let j = choose|j: int| 0 <= j < self.entries.len() && #[trigger] self.key_at(j) == k;
                assert(j < n);
                assert(self.key_at(j) == before.key_at(j));
                self.lemma_at(j);
                before.lemma_at(j);
            }
            assert(self.as_map() =~= before.as_map().insert(k0, v0));
        }
    }
}

impl View for PairMap {
    type V = Map<(Seq<char>, Seq<char>), Seq<char>>;

    open spec fn view(&self) -> Map<(Seq<char>, Seq<char>), Seq<char>> {
        self.as_map()
    }
}

// ---------------------------------------------------------------------------
// TextSet
// ---------------------------------------------------------------------------

/// A finite set of text, kept in insertion order.
#[derive(Debug)]
pub struct TextSet {
    items: Vec<String>,
}

impl TextSet {
    #[verifier::type_invariant]
    spec fn items_distinct(self) -> bool {
        self.items_seq().no_duplicates()
    }

    /// The members, in the order they were first inserted.
    pub closed spec fn items_seq(self) -> Seq<Seq<char>> {
        self.items@.map_values(|s: String| s@)
    }

    /// The set the members stand for.
    pub open spec fn as_set(self) -> Set<Seq<char>> {
        self.items_seq().to_set()
    }

    /// An empty set.
    pub fn new() -> (s: Self)
        ensures
            s@ == Set::<Seq<char>>::empty(),
            s.items_seq().len() == 0,
    {
        let s = TextSet { items: Vec::new() };
        assert(s.items_seq() =~= Seq::<Seq<char>>::empty());
        assert(s.as_set() =~= Set::<Seq<char>>::empty());
        s
    }

    /// The number of members, with what a caller walking them by position
    /// needs to know.
    pub fn len(&self) -> (n: usize)
        ensures
            n == self.items_seq().len(),
            self.items_seq().no_duplicates(),
            forall|x: Seq<char>| #[trigger] self@.contains(x) <==> self.items_seq().contains(x),
    {
        proof {
            use_type_invariant(self);
        }
        self.items.len()
    }

    /// The member at position `i`.
    pub fn at(&self, i: usize) -> (r: &str)
        requires
            i < self.items_seq().len(),
        ensures
            r@ == self.items_seq()[i as int],
    {
        self.items[i].as_str()
    }

    /// Whether `x` is a member.
    pub fn contains(&self, x: &str) -> (r: bool)
        ensures
            r == self@.contains(x@),
    {
        let mut i: usize = 0;
        while i < self.items.len()
            invariant
                i <= self.items.len(),
                forall|j: int| 0 <= j < i ==> #[trigger] self.items_seq()[j] != x@,
            decreases self.items.len() - i,
        {
            if same_text(self.items[i].as_str(), x) {
                assert(self.items_seq()[i as int] == x@);
                return true;
            }
            i = i + 1;
        }
        false
    }

    /// Adds `x` to the set.
    pub fn insert(&mut self, x: &str)
        ensures
            final(self)@ == old(self)@.insert(x@),
            !old(self)@.contains(x@) ==> final(self).items_seq() == old(self).items_seq().push(x@),
            old(self)@.contains(x@) ==> final(self).items_seq() == old(self).items_seq(),
    {
        if self.contains(x) {
            assert(self.as_set() =~= self.as_set().insert(x@));
            return;
        }
        proof {
            use_type_invariant(&*self);
        }
        let ghost before = self.items_seq();
        let mut items = Vec::new();
        std::mem::swap(&mut items, &mut self.items);
        items.push(x.to_owned());
        proof {
            assert(items@.map_values(|s: String| s@) =~= before.push(x@));
            assert forall|a: int, b: int| 0 <= a < b < before.push(x@).len() implies
                before.push(x@)[a] != before.push(x@)[b] by {
                if b == before.len() {
                    assert(before.contains(before[a]));
                }
            }
        }
        self.items = items;
        proof {
            let after = before.push(x@);
            assert(self.items_seq() =~= after);
            assert forall|y: Seq<char>| #[trigger] after.contains(y) == before.to_set().insert(x@).contains(y) by {
                if y == x@ {
                    assert(after[before.len() as int] == y);
                } else if after.contains(y) {
                    let k = choose|k: int| 0 <= k < after.len() && after[k] == y;
                    assert(before[k] == y);
                } else if before.contains(y) {
                    let k = choose|k: int| 0 <= k < before.len() && before[k] == y;
                    assert(after[k] == y);
                }
            }
            assert(self.as_set() =~= before.to_set().insert(x@));
        }
    }
}

impl View for TextSet {
    type V = Set<Seq<char>>;

    open spec fn view(&self) -> Set<Seq<char>> {
        self.as_set()
    }
}

// ---------------------------------------------------------------------------
// TextRelation
// ---------------------------------------------------------------------------

/// A finite relation between text keys and text values: a key may be related
/// to several values.
#[derive(Debug)]
pub struct TextRelation {
    entries: Vec<(String, String)>,
}

impl TextRelation {
    spec fn pair_at(self, i: int) -> (Seq<char>, Seq<char>) {
        (self.entries@[i].0@, self.entries@[i].1@)
    }

    /// The set of pairs the entries stand for.
    pub closed spec fn as_set(self) -> Set<(Seq<char>, Seq<char>)> {
        Set::new(
            |p: (Seq<char>, Seq<char>)|
                exists|i: int| 0 <= i < self.entries.len() && #[trigger] self.pair_at(i) == p,
        )
    }

    /// An empty relation.
    pub fn new() -> (r: Self)
        ensures
            r@ == Set::<(Seq<char>, Seq<char>)>::empty(),
    {
        let r = TextRelation { entries: Vec::new() };
        assert(r.as_set() =~= Set::<(Seq<char>, Seq<char>)>::empty());
        r
    }

    /// Whether `key` is related to `value`.
    pub fn contains(&self, key: &str, value: &str) -> (r: bool)
        ensures
            r == self@.contains((key@, value@)),
    {
        let mut i: usize = 0;
        while i < self.entries.len()
            invariant
                i <= self.entries.len(),
                forall|j: int| 0 <= j < i ==> #[trigger] self.pair_at(j) != (key@, value@),
            decreases self.entries.len() - i,
        {
            if same_text(self.entries[i].0.as_str(), key) && same_text(
                self.entries[i].1.as_str(),
                value,
            ) {
                assert(self.pair_at(i as int) == (key@, value@));
                return true;
            }
            i = i + 1;
        }
        false
    }

    /// Relates `key` to `value`.
    pub fn insert(&mut self, key: &str, value: &str)
        ensures
            final(self)@ == old(self)@.insert((key@, value@)),
    {
        if self.contains(key, value) {
            assert(self.as_set() =~= self.as_set().insert((key@, value@)));
            return;
        }
        let ghost before = *self;
        self.entries.push((key.to_owned(), value.to_owned()));
        proof {
            let n = before.entries.len() as int;
            assert(self.pair_at(n) == (key@, value@));
            assert forall|p: (Seq<char>, Seq<char>)| #[trigger] self.as_set().contains(p)
                == before.as_set().insert((key@, value@)).contains(p) by {
                if self.as_set().contains(p) && p != (key@, value@) {
                    let j = choose|j: int| 0 <= j < self.entries.len() && #[trigger] self.pair_at(j) == p;
                    assert(j < n);
                    assert(before.pair_at(j) == p);
                }
                if before.as_set().contains(p) {
                    let j = choose|j: int| 0 <= j < before.entries.len() && #[trigger] before.pair_at(j) == p;
                    assert(self.pair_at(j) == p);
                }
            }
            assert(self.as_set() =~= before.as_set().insert((key@, value@)));
        }
    }

    /// The single value related to `key`, if exactly one is.
    pub fn only_value(&self, key: &str) -> (r: Option<&str>)
        ensures
            opt_text(r) == only_value(self@, key@),
    {
        let mut first: Option<usize> = None;
        let mut i: usize = 0;
        while i < self.entries.len()
            invariant
                i <= self.entries.len(),
                match first {
                    None => forall|j: int| 0 <= j < i ==> #[trigger] self.pair_at(j).0 != key@,
                    Some(f) => f < i && self.pair_at(f as int).0 == key@ && forall|j: int|
                        0 <= j < i && #[trigger] self.pair_at(j).0 == key@ ==> self.pair_at(j).1
                            == self.pair_at(f as int).1,
                },
            decreases self.entries.len() - i,
        {
            if same_text(self.entries[i].0.as_str(), key) {
                match first {
                    None => {
                        first = Some(i);
                    },
                    Some(f) => {
                        if !same_text(self.entries[i].1.as_str(), self.entries[f].1.as_str()) {
                            proof {
                                let vf = self.pair_at(f as int).1;
                                let vi = self.pair_at(i as int).1;
                                assert(self.pair_at(f as int) == (key@, vf));
                                assert(self.pair_at(i as int) == (key@, vi));
                                assert(self@.contains((key@, vf)));
                                assert(self@.contains((key@, vi)));
                                assert(!exists|v: Seq<char>| is_only_value(self@, key@, v));
                            }
                            return None;
                        }
                    },
                }
            }
            i = i + 1;
        }
        match first {
            None => {
                proof {
                    assert forall|v: Seq<char>| !#[trigger] self@.contains((key@, v)) by {
                        if self@.contains((key@, v)) {
                            let j = choose|j: int| 0 <= j < self.entries.len() && #[trigger] self.pair_at(j) == (key@, v);
                            assert(self.pair_at(j).0 == key@);
                        }
                    }
                }
                None
            },
            Some(f) => {
                proof {
                    let vf = self.pair_at(f as int).1;
                    assert(self.pair_at(f as int) == (key@, vf));
                    assert(self@.contains((key@, vf)));
                    assert forall|w: Seq<char>| #[trigger] self@.contains((key@, w)) implies w == vf by {
                        let j = choose|j: int| 0 <= j < self.entries.len() && #[trigger] self.pair_at(j) == (key@, w);
                        assert(self.pair_at(j).0 == key@);
                    }
                    assert(is_only_value(self@, key@, vf));
                    let u = choose|u: Seq<char>| is_only_value(self@, key@, u);
                    assert(self@.contains((key@, u)));
                }
                Some(self.entries[f].1.as_str())
            },
        }
    }

    /// Every value related to `key`.
    pub fn values_of(&self, key: &str) -> (r: TextSet)
        ensures
            forall|v: Seq<char>| #[trigger] r@.contains(v) <==> self@.contains((key@, v)),
    {
        let mut out = TextSet::new();
        let mut i: usize = 0;
        while i < self.entries.len()
            invariant
                i <= self.entries.len(),
                forall|v: Seq<char>| #[trigger] out@.contains(v) <==> exists|j: int|
                    0 <= j < i && #[trigger] self.pair_at(j) == (key@, v),
            decreases self.entries.len() - i,
        {
            if same_text(self.entries[i].0.as_str(), key) {
                out.insert(self.entries[i].1.as_str());
                assert(self.pair_at(i as int) == (key@, self.entries[i as int].1@));
            }
            i = i + 1;
        }
        out
    }
}

impl View for TextRelation {
    type V = Set<(Seq<char>, Seq<char>)>;

    open spec fn view(&self) -> Set<(Seq<char>, Seq<char>)> {
        self.as_set()
    }
}

// ---------------------------------------------------------------------------
// PairRelation
// ---------------------------------------------------------------------------

/// A finite relation between pairs of text and text values.
#[derive(Debug)]
pub struct PairRelation {
    entries: Vec<(String, String, String)>,
}

impl PairRelation {
    spec fn triple_at(self, i: int) -> (Seq<char>, Seq<char>, Seq<char>) {
        (self.entries@[i].0@, self.entries@[i].1@, self.entries@[i].2@)
    }

    /// The set of triples the entries stand for.
    pub closed spec fn as_set(self) -> Set<(Seq<char>, Seq<char>, Seq<char>)> {
        Set::new(
            |t: (Seq<char>, Seq<char>, Seq<char>)|
                exists|i: int| 0 <= i < self.entries.len() && #[trigger] self.triple_at(i) == t,
        )
    }

    /// An empty relation.
    pub fn new() -> (r: Self)
        ensures
            r@ == Set::<(Seq<char>, Seq<char>, Seq<char>)>::empty(),
    {
        let r = PairRelation { entries: Vec::new() };
        assert(r.as_set() =~= Set::<(Seq<char>, Seq<char>, Seq<char>)>::empty());
        r
    }

    /// Whether `(a, b)` is related to `value`.
    pub fn contains(&self, a: &str, b: &str, value: &str) -> (r: bool)
        ensures
            r == self@.contains((a@, b@, value@)),
    {
        let mut i: usize = 0;
        while i < self.entries.len()
            invariant
                i <= self.entries.len(),
                forall|j: int| 0 <= j < i ==> #[trigger] self.triple_at(j) != (a@, b@, value@),
            decreases self.entries.len() - i,
        {
            if same_text(self.entries[i].0.as_str(), a) && same_text(self.entries[i].1.as_str(), b)
                && same_text(self.entries[i].2.as_str(), value) {
                assert(self.triple_at(i as int) == (a@, b@, value@));
                return true;
            }
            i = i + 1;
        }
        false
    }

    /// Relates `(a, b)` to `value`.
    pub fn insert(&mut self, a: &str, b: &str, value: &str)
        ensures
            final(self)@ == old(self)@.insert((a@, b@, value@)),
    {
        if self.contains(a, b, value) {
            assert(self.as_set() =~= self.as_set().insert((a@, b@, value@)));
            return;
        }
        let ghost before = *self;
        let ghost t0 = (a@, b@, value@);
        self.entries.push((a.to_owned(), b.to_owned(), value.to_owned()));
        proof {
            let n = before.entries.len() as int;
            assert(self.triple_at(n) == t0);
            assert forall|t: (Seq<char>, Seq<char>, Seq<char>)| #[trigger] self.as_set().contains(t)
                == before.as_set().insert(t0).contains(t) by {
                if self.as_set().contains(t) && t != t0 {
                    let j = choose|j: int| 0 <= j < self.entries.len() && #[trigger] self.triple_at(j) == t;
                    assert(j < n);
                    assert(before.triple_at(j) == t);
                }
                if before.as_set().contains(t) {
                    let j = choose|j: int| 0 <= j < before.entries.len() && #[trigger] before.triple_at(j) == t;
                    assert(self.triple_at(j) == t);
                }
            }
            assert(self.as_set() =~= before.as_set().insert(t0));
        }
    }

    /// The single value related to `(a, b)`, if exactly one is.
    pub fn only_value(&self, a: &str, b: &str) -> (r: Option<&str>)
        ensures
            opt_text(r) == only_value2(self@, a@, b@),
    {
        let mut first: Option<usize> = None;
        let mut i: usize = 0;
        while i < self.entries.len()
            invariant
                i <= self.entries.len(),
                match first {
                    None => forall|j: int| 0 <= j < i ==> !(#[trigger] self.triple_at(j).0 == a@ && self.triple_at(j).1 == b@),
                    Some(f) => f < i && self.triple_at(f as int).0 == a@ && self.triple_at(f as int).1 == b@
                        && forall|j: int|
                        0 <= j < i && #[trigger] self.triple_at(j).0 == a@ && self.triple_at(j).1 == b@
                            ==> self.triple_at(j).2 == self.triple_at(f as int).2,
                },
            decreases self.entries.len() - i,
        {
            if same_text(self.entries[i].0.as_str(), a) && same_text(self.entries[i].1.as_str(), b) {
                match first {
                    None => {
                        first = Some(i);
                    },
                    Some(f) => {
                        if !same_text(self.entries[i].2.as_str(), self.entries[f].2.as_str()) {
                            proof {
                                let vf = self.triple_at(f as int).2;
                                let vi = self.triple_at(i as int).2;
                                assert(self.triple_at(f as int) == (a@, b@, vf));
                                assert(self.triple_at(i as int) == (a@, b@, vi));
                                assert(self@.contains((a@, b@, vf)));
                                assert(self@.contains((a@, b@, vi)));
                                assert(!exists|v: Seq<char>| is_only_value2(self@, a@, b@, v));
                            }
                            return None;
                        }
                    },
                }
            }
            i = i + 1;
        }
        match first {
            None => {
                proof {
                    assert forall|v: Seq<char>| !#[trigger] self@.contains((a@, b@, v)) by {
                        if self@.contains((a@, b@, v)) {
                            let j = choose|j: int| 0 <= j < self.entries.len() && #[trigger] self.triple_at(j) == (a@, b@, v);
                            assert(self.triple_at(j).0 == a@);
                        }
                    }
                }
                None
            },
            Some(f) => {
                proof {
                    let vf = self.triple_at(f as int).2;
                    assert(self.triple_at(f as int) == (a@, b@, vf));
                    assert(self@.contains((a@, b@, vf)));
                    assert forall|w: Seq<char>| #[trigger] self@.contains((a@, b@, w)) implies w == vf by {
                        let j = choose|j: int| 0 <= j < self.entries.len() && #[trigger] self.triple_at(j) == (a@, b@, w);
                        assert(self.triple_at(j).0 == a@);
                    }
                    assert(is_only_value2(self@, a@, b@, vf));
                    let u = choose|u: Seq<char>| is_only_value2(self@, a@, b@, u);
                    assert(self@.contains((a@, b@, u)));
                }
                Some(self.entries[f].2.as_str())
            },
        }
    }

    /// The value of the one triple whose middle component is `b`, if exactly
    /// one triple has it.
    pub fn only_with_middle(&self, b: &str) -> (r: Option<&str>)
        ensures
            opt_text(r) == only_with_middle(self@, b@),
    {
        let mut first: Option<usize> = None;
        let mut i: usize = 0;
        while i < self.entries.len()
            invariant
                i <= self.entries.len(),
                match first {
                    None => forall|j: int| 0 <= j < i ==> #[trigger] self.triple_at(j).1 != b@,
                    Some(f) => f < i && self.triple_at(f as int).1 == b@ && forall|j: int|
                        0 <= j < i && #[trigger] self.triple_at(j).1 == b@ ==> self.triple_at(j)
                            == self.triple_at(f as int),
                },
            decreases self.entries.len() - i,
        {
            if same_text(self.entries[i].1.as_str(), b) {
                match first {
                    None => {
                        first = Some(i);
                    },
                    Some(f) => {
                        if !(same_text(self.entries[i].0.as_str(), self.entries[f].0.as_str())
                            && same_text(self.entries[i].2.as_str(), self.entries[f].2.as_str())) {
                            proof {
                                let tf = self.triple_at(f as int);
                                let ti = self.triple_at(i as int);
                                assert(tf != ti);
                                assert(self@.contains(tf));
                                assert(self@.contains(ti));
                                assert(!exists|t: (Seq<char>, Seq<char>, Seq<char>)| is_only_with_middle(self@, b@, t));
                            }
                            return None;
                        }
                        assert(self.triple_at(i as int) == self.triple_at(f as int));
                    },
                }
            }
            i = i + 1;
        }
        match first {
            None => {
                proof {
                    assert forall|t: (Seq<char>, Seq<char>, Seq<char>)| !(#[trigger] self@.contains(t) && t.1 == b@) by {
                        if self@.contains(t) && t.1 == b@ {
                            let j = choose|j: int| 0 <= j < self.entries.len() && #[trigger] self.triple_at(j) == t;
                            assert(self.triple_at(j).1 == b@);
                        }
                    }
                }
                None
            },
            Some(f) => {
                proof {
                    let tf = self.triple_at(f as int);
                    assert(self@.contains(tf));
                    assert forall|u: (Seq<char>, Seq<char>, Seq<char>)| #[trigger] self@.contains(u) && u.1 == b@ implies u == tf by {
                        let j = choose|j: int| 0 <= j < self.entries.len() && #[trigger] self.triple_at(j) == u;
                        assert(self.triple_at(j).1 == b@);
                    }
                    assert(is_only_with_middle(self@, b@, tf));
                    let u = choose|u: (Seq<char>, Seq<char>, Seq<char>)| is_only_with_middle(self@, b@, u);
                    assert(self@.contains(u) && u.1 == b@);
                }
                Some(self.entries[f].2.as_str())
            },
        }
    }
}

impl View for PairRelation {
    type V = Set<(Seq<char>, Seq<char>, Seq<char>)>;

    open spec fn view(&self) -> Set<(Seq<char>, Seq<char>, Seq<char>)> {
        self.as_set()
    }
}

} // verus!
