//! Totals kept per text key, in key order: the counting a census needs.

use vstd::prelude::*;

use crate::order::{
    compare_text, lemma_text_lt_irreflexive, lemma_text_lt_total, lemma_text_lt_transitive, text_lt,
    Precedence,
};

verus! {

/// Keys strictly increasing.
pub open spec fn ascending(s: Seq<(Seq<char>, u64)>) -> bool {
    forall|i: int, j: int| 0 <= i < j < s.len() ==> text_lt(#[trigger] s[i].0, #[trigger] s[j].0)
}

/// The key has an entry.
pub open spec fn has_key(s: Seq<(Seq<char>, u64)>, k: Seq<char>) -> bool {
    exists|i: int| 0 <= i < s.len() && #[trigger] s[i].0 == k
}

/// The total kept for a key; zero when it has no entry.
pub open spec fn amount_of(s: Seq<(Seq<char>, u64)>, k: Seq<char>) -> int
    decreases s.len(),
{
    if s.len() == 0 {
        0
    } else if s.last().0 == k {
        s.last().1 as int
    } else {
        amount_of(s.drop_last(), k)
    }
}

/// In ascending entries, a key's total is the value of its one entry.
pub proof fn lemma_amount_at(s: Seq<(Seq<char>, u64)>, k: Seq<char>)
    requires
        ascending(s),
    ensures
        forall|i: int| 0 <= i < s.len() && s[i].0 == k ==> amount_of(s, k) == s[i].1,
        !has_key(s, k) ==> amount_of(s, k) == 0,
    decreases s.len(),
{
    if s.len() > 0 {
        let t = s.drop_last();
        assert(ascending(t)) by {
            assert forall|i: int, j: int| 0 <= i < j < t.len() implies text_lt(#[trigger] t[i].0, #[trigger] t[j].0) by {
                assert(t[i] == s[i] && t[j] == s[j]);
            }
        }
        lemma_amount_at(t, k);
        assert forall|i: int| 0 <= i < s.len() && s[i].0 == k implies amount_of(s, k) == s[i].1 by {
            if i < s.len() - 1 {
                assert(text_lt(s[i].0, s[s.len() - 1].0));
                lemma_text_lt_irreflexive(k);
                assert(t[i] == s[i]);
            }
        }
        if !has_key(s, k) {
            assert(!has_key(t, k)) by {
                if has_key(t, k) {
                    let i = choose|i: int| 0 <= i < t.len() && #[trigger] t[i].0 == k;
                    assert(s[i].0 == k);
                }
            }
        }
    }
}

/// Totals per text key, kept in increasing key order.
#[derive(Debug)]
pub struct Tally {
    entries: Vec<(String, u64)>,
}

impl View for Tally {
    type V = Seq<(Seq<char>, u64)>;

    closed spec fn view(&self) -> Seq<(Seq<char>, u64)> {
        self.entries@.map_values(|e: (String, u64)| (e.0@, e.1))
    }
}

impl Tally {
    #[verifier::type_invariant]
    spec fn keys_ascend(&self) -> bool {
        ascending(self@)
    }

    /// No totals.
    pub fn new() -> (t: Self)
        ensures
            t@ == Seq::<(Seq<char>, u64)>::empty(),
    {
        let entries: Vec<(String, u64)> = Vec::new();
        assert(entries@.map_values(|e: (String, u64)| (e.0@, e.1)) =~= Seq::<(Seq<char>, u64)>::empty());
        Tally { entries }
    }

    /// Adds `amount` to the key's total, creating its entry at zero when it
    /// has none.
    pub fn add(&mut self, key: &str, amount: u64)
        requires
            amount_of(old(self)@, key@) + amount <= u64::MAX,
        ensures
            forall|k: Seq<char>|
                #[trigger] amount_of(final(self)@, k) == amount_of(old(self)@, k) + (if k == key@ {
                    amount as int
                } else {
                    0
                }),
            forall|k: Seq<char>| #[trigger] has_key(final(self)@, k) <==> has_key(old(self)@, k) || k == key@,
    {
        proof {
            use_type_invariant(&*self);
        }
        let ghost old_view = self@;
        let mut entries: Vec<(String, u64)> = Vec::new();
        assert(entries@.map_values(|e: (String, u64)| (e.0@, e.1)) =~= Seq::<(Seq<char>, u64)>::empty());
        std::mem::swap(&mut entries, &mut self.entries);
        assert(entries@.map_values(|e: (String, u64)| (e.0@, e.1)) == old_view);
        let ghost s = old_view;
        let mut i: usize = 0;
        let mut found = false;
        let mut stop = false;
        while i < entries.len() && !stop
            invariant
                i <= entries.len(),
                s == entries@.map_values(|e: (String, u64)| (e.0@, e.1)),
                ascending(s),
                forall|j: int| 0 <= j < i ==> text_lt(#[trigger] s[j].0, key@),
                stop ==> i < entries.len(),
                stop && found ==> s[i as int].0 == key@,
                stop && !found ==> text_lt(key@, s[i as int].0),
                !stop ==> !found,
            decreases entries.len() - i + (if stop { 0int } else { 1int }),
        {
            assert(s[i as int] == (entries@[i as int].0@, entries@[i as int].1));
            let c = compare_text(entries[i].0.as_str(), key);
            if c == Precedence::Same {
                found = true;
                stop = true;
            } else if c == Precedence::After {
                stop = true;
                proof {
                    lemma_text_lt_total(s[i as int].0, key@);
                }
            } else {
                i = i + 1;
            }
        }
        proof {
            lemma_amount_at(s, key@);
        }
        if found {
            let (name, value) = entries.remove(i);
            assert(value == s[i as int].1);
            let total = value + amount;
            entries.insert(i, (name, total));
            proof {
                let n = entries@.map_values(|e: (String, u64)| (e.0@, e.1));
                assert(n =~= s.update(i as int, (key@, total)));
                assert(ascending(n)) by {
                    assert forall|a: int, b: int| 0 <= a < b < n.len() implies text_lt(#[trigger] n[a].0, #[trigger] n[b].0) by {
                        assert(n[a].0 == s[a].0 && n[b].0 == s[b].0);
                    }
                }
                lemma_amount_at(n, key@);
                assert forall|k: Seq<char>| #[trigger] amount_of(n, k) == amount_of(s, k) + (if k == key@ {
                    amount as int
                } else {
                    0
                }) by {
                    lemma_amount_at(n, k);
                    lemma_amount_at(s, k);
                    if k == key@ {
                        assert(n[i as int] == (key@, total));
                        assert(amount_of(n, k) == total);
                        assert(amount_of(s, k) == s[i as int].1);
                    } else {
                        if has_key(s, k) {
                            let j = choose|j: int| 0 <= j < s.len() && #[trigger] s[j].0 == k;
                            assert(n[j] == s[j]);
                        } else {
                            assert(!has_key(n, k)) by {
                                if has_key(n, k) {
                                    let j = choose|j: int| 0 <= j < n.len() && #[trigger] n[j].0 == k;
                                    assert(s[j].0 == k);
                                }
                            }
                        }
                    }
                }
                assert forall|k: Seq<char>| #[trigger] has_key(n, k) <==> has_key(s, k) || k == key@ by {
                    if has_key(n, k) {
                        let j = choose|j: int| 0 <= j < n.len() && #[trigger] n[j].0 == k;
                        assert(s[j].0 == k);
                    }
                    if has_key(s, k) {
                        let j = choose|j: int| 0 <= j < s.len() && #[trigger] s[j].0 == k;
                        assert(n[j].0 == k);
                    }
                    if k == key@ {
                        assert(n[i as int].0 == k);
                    }
                }
            }
        } else {
            let name = crate::text::string_of(&crate::text::chars_of(key));
            entries.insert(i, (name, amount));
            proof {
                let x = (key@, amount);
                let n = entries@.map_values(|e: (String, u64)| (e.0@, e.1));
                assert(n =~= s.insert(i as int, x));
                assert(ascending(n)) by {
                    assert forall|a: int, b: int| 0 <= a < b < n.len() implies text_lt(#[trigger] n[a].0, #[trigger] n[b].0) by {
                        if b < i {
                            assert(n[a] == s[a] && n[b] == s[b]);
                        } else if b == i {
                            assert(n[a] == s[a]);
                        } else if a < i {
                            assert(n[a] == s[a] && n[b] == s[b - 1]);
                            assert(text_lt(s[a].0, key@));
                            assert(text_lt(key@, s[i as int].0));
                            if b - 1 > i {
                                assert(text_lt(s[i as int].0, s[b - 1].0));
                                lemma_text_lt_transitive(key@, s[i as int].0, s[b - 1].0);
                            }
                            lemma_text_lt_transitive(s[a].0, key@, s[b - 1].0);
                        } else if a == i {
                            assert(n[b] == s[b - 1]);
                            if b - 1 > i {
                                assert(text_lt(s[i as int].0, s[b - 1].0));
                                lemma_text_lt_transitive(key@, s[i as int].0, s[b - 1].0);
                            }
                        } else {
                            assert(n[a] == s[a - 1] && n[b] == s[b - 1]);
                        }
                    }
                }
                assert(!has_key(s, key@)) by {
                    if has_key(s, key@) {
                        let j = choose|j: int| 0 <= j < s.len() && #[trigger] s[j].0 == key@;
                        lemma_text_lt_irreflexive(key@);
                        if j < i {
                            assert(text_lt(s[j].0, key@));
                        } else {
                            if j > i {
                                assert(text_lt(s[i as int].0, s[j].0));
                                lemma_text_lt_transitive(key@, s[i as int].0, s[j].0);
                            }
                        }
                    }
                }
                assert forall|k: Seq<char>| #[trigger] has_key(n, k) <==> has_key(s, k) || k == key@ by {
                    if has_key(n, k) {
                        let j = choose|j: int| 0 <= j < n.len() && #[trigger] n[j].0 == k;
                        if j < i {
                            assert(s[j].0 == k);
                        } else if j > i {
                            assert(s[j - 1].0 == k);
                        }
                    }
                    if has_key(s, k) {
                        let j = choose|j: int| 0 <= j < s.len() && #[trigger] s[j].0 == k;
                        if j < i {
                            assert(n[j].0 == k);
                        } else {
                            assert(n[j + 1].0 == k);
                        }
                    }
                    if k == key@ {
                        assert(n[i as int].0 == k);
                    }
                }
                assert forall|k: Seq<char>| #[trigger] amount_of(n, k) == amount_of(s, k) + (if k == key@ {
                    amount as int
                } else {
                    0
                }) by {
                    lemma_amount_at(n, k);
                    lemma_amount_at(s, k);
                    if k == key@ {
                        assert(n[i as int].0 == k);
                    } else if has_key(s, k) {
                        let j = choose|j: int| 0 <= j < s.len() && #[trigger] s[j].0 == k;
                        if j < i {
                            assert(n[j] == s[j]);
                        } else {
                            assert(n[j + 1] == s[j]);
                        }
                    } else {
                        assert(!has_key(n, k));
                    }
                }
            }
        }
        assert(ascending(entries@.map_values(|e: (String, u64)| (e.0@, e.1))));
        self.entries = entries;
    }

    /// The entries, in increasing key order.
    pub fn entries(&self) -> (r: Vec<(String, u64)>)
        ensures
            r@.map_values(|e: (String, u64)| (e.0@, e.1)) == self@,
            ascending(self@),
    {
        proof {
            use_type_invariant(self);
        }
        let mut out: Vec<(String, u64)> = Vec::new();
        let mut i: usize = 0;
        while i < self.entries.len()
            invariant
                i <= self.entries.len(),
                out@.map_values(|e: (String, u64)| (e.0@, e.1)) == self@.take(i as int),
            decreases self.entries.len() - i,
        {
            let ghost before = out@.map_values(|e: (String, u64)| (e.0@, e.1));
            out.push((self.entries[i].0.clone(), self.entries[i].1));
            assert(out@.map_values(|e: (String, u64)| (e.0@, e.1)) =~= before.push(self@[i as int]));
            assert(self@.take(i + 1) =~= self@.take(i as int).push(self@[i as int]));
            i = i + 1;
        }
        assert(self@.take(self.entries.len() as int) =~= self@);
        out
    }
}

} // verus!
