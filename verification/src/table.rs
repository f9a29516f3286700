//! A map from strings to values, kept as a list in ascending order of the
//! keys' bytes. The order is part of the value: two tables that hold the same
//! keys with the same values are the same list.

use vstd::prelude::*;
use crate::order::{
    key_bytes, lemma_key_bytes_injective, lemma_lex_asymmetric, lemma_lex_total,
    lemma_lex_transitive, lex_lt, str_before,
};

verus! {

/// The keys of `s` ascend strictly.
pub open spec fn keys_ascend<X>(s: Seq<(Seq<char>, X)>) -> bool {
    forall|i: int, j: int|
        0 <= i < j < s.len() ==> lex_lt(key_bytes(#[trigger] s[i].0), key_bytes(#[trigger] s[j].0))
}

/// Some entry of `s` has the key `k`.
pub open spec fn has_key<X>(s: Seq<(Seq<char>, X)>, k: Seq<char>) -> bool {
    exists|i: int| 0 <= i < s.len() && (#[trigger] s[i]).0 == k
}

/// The value that `s` holds under `k`, if any.
pub open spec fn lookup<X>(s: Seq<(Seq<char>, X)>, k: Seq<char>) -> Option<X> {
    if has_key(s, k) {
        Some(s[choose|i: int| 0 <= i < s.len() && (#[trigger] s[i]).0 == k].1)
    } else {
        None
    }
}

/// In an ascending list each key occurs once, so the entry at `i` is the one
/// found under its key.
pub proof fn lemma_lookup_at<X>(s: Seq<(Seq<char>, X)>, i: int)
    requires
        keys_ascend(s),
        0 <= i < s.len(),
    ensures
        lookup(s, s[i].0) == Some(s[i].1),
{
    let k = s[i].0;
    assert(has_key(s, k));
    assert forall|j: int| 0 <= j < s.len() && (#[trigger] s[j]).0 == k implies j == i by {
        if j < i {
            lemma_lex_asymmetric(key_bytes(s[j].0), key_bytes(s[i].0));
        } else if i < j {
            lemma_lex_asymmetric(key_bytes(s[i].0), key_bytes(s[j].0));
        }
    }
}

/// Two ascending lists that hold the same values under the same keys are
/// equal.
pub proof fn lemma_ascending_lists_equal<X>(s: Seq<(Seq<char>, X)>, t: Seq<(Seq<char>, X)>)
    requires
        keys_ascend(s),
        keys_ascend(t),
        forall|k: Seq<char>| lookup(s, k) == lookup(t, k),
    ensures
        s == t,
    decreases s.len(),
{
    if s.len() == 0 {
        if t.len() > 0 {
            lemma_lookup_at(t, 0);
            assert(lookup(s, t[0].0) is None);
        }
        assert(s =~= t);
    } else {
        lemma_lookup_at(s, 0);
        assert(has_key(t, s[0].0));
        let j = choose|j: int| 0 <= j < t.len() && (#[trigger] t[j]).0 == s[0].0;
        lemma_lookup_at(t, j);
        if j > 0 {
            lemma_lookup_at(t, 0);
            assert(has_key(s, t[0].0));
            let i = choose|i: int| 0 <= i < s.len() && (#[trigger] s[i]).0 == t[0].0;
            lemma_lex_asymmetric(key_bytes(t[0].0), key_bytes(t[j].0));
            if i > 0 {
                lemma_lex_asymmetric(key_bytes(s[0].0), key_bytes(s[i].0));
            }
        }
        assert(s[0] == t[0]);
        let s1 = s.drop_first();
        let t1 = t.drop_first();
        assert(keys_ascend(s1)) by {
            assert forall|a: int, b: int| 0 <= a < b < s1.len() implies lex_lt(
                key_bytes(#[trigger] s1[a].0),
                key_bytes(#[trigger] s1[b].0),
            ) by {
                assert(s1[a] == s[a + 1] && s1[b] == s[b + 1]);
            }
        }
        assert(keys_ascend(t1)) by {
            assert forall|a: int, b: int| 0 <= a < b < t1.len() implies lex_lt(
                key_bytes(#[trigger] t1[a].0),
                key_bytes(#[trigger] t1[b].0),
            ) by {
                assert(t1[a] == t[a + 1] && t1[b] == t[b + 1]);
            }
        }
        assert forall|k: Seq<char>| lookup(s1, k) == lookup(t1, k) by {
            lemma_lookup_tail(s, k);
            lemma_lookup_tail(t, k);
        }
        lemma_ascending_lists_equal(s1, t1);
        assert(s =~= seq![s[0]] + s1);
        assert(t =~= seq![t[0]] + t1);
    }
}

/// What the tail of an ascending list holds: all but the first key.
pub proof fn lemma_lookup_tail<X>(s: Seq<(Seq<char>, X)>, k: Seq<char>)
    requires
        keys_ascend(s),
        s.len() > 0,
    ensures
        lookup(s.drop_first(), k) == if k == s[0].0 {
            None
        } else {
            lookup(s, k)
        },
{
    let s1 = s.drop_first();
    assert forall|a: int, b: int| 0 <= a < b < s1.len() implies lex_lt(
        key_bytes(#[trigger] s1[a].0),
        key_bytes(#[trigger] s1[b].0),
    ) by {
        assert(s1[a] == s[a + 1] && s1[b] == s[b + 1]);
    }
    if has_key(s1, k) {
        let i = choose|i: int| 0 <= i < s1.len() && (#[trigger] s1[i]).0 == k;
        assert(s1[i] == s[i + 1]);
        lemma_lookup_at(s1, i);
        lemma_lookup_at(s, i + 1);
        lemma_lex_asymmetric(key_bytes(s[0].0), key_bytes(s[i + 1].0));
        if k == s[0].0 {
            lemma_key_bytes_injective(k, s[0].0);
        }
    } else if k != s[0].0 {
        if has_key(s, k) {
            let i = choose|i: int| 0 <= i < s.len() && (#[trigger] s[i]).0 == k;
            assert(i > 0);
            assert(s1[i - 1] == s[i]);
            assert(false);
        }
    }
}

/// A map from strings to values in ascending order of the keys.
pub struct Table<V> {
    entries: Vec<(String, V)>,
}

impl<V: View> View for Table<V> {
    type V = Seq<(Seq<char>, V::V)>;

    closed spec fn view(&self) -> Seq<(Seq<char>, V::V)> {
        Seq::new(self.entries@.len(), |i: int| (self.entries@[i].0@, self.entries@[i].1@))
    }
}

impl<V: View> Table<V> {
    /// The keys ascend strictly.
    pub open spec fn wf(&self) -> bool {
        keys_ascend(self@)
    }

    /// The empty table.
    pub fn new() -> (t: Self)
        ensures
            t.wf(),
            t@ == Seq::<(Seq<char>, V::V)>::empty(),
    {
        let t = Table { entries: Vec::new() };
        assert(t@ =~= Seq::<(Seq<char>, V::V)>::empty());
        t
    }

    /// The number of entries.
    pub fn len(&self) -> (n: usize)
        ensures
            n == self@.len(),
    {
        self.entries.len()
    }

    /// The key at position `i`.
    pub fn key_at(&self, i: usize) -> (k: &String)
        requires
            i < self@.len(),
        ensures
            k@ == self@[i as int].0,
    {
        &self.entries[i].0
    }

    /// The value at position `i`.
    pub fn value_at(&self, i: usize) -> (v: &V)
        requires
            i < self@.len(),
        ensures
            v@ == self@[i as int].1,
    {
        &self.entries[i].1
    }

    /// The first position whose key does not come before `key`.
    fn lower_bound(&self, key: &str) -> (p: usize)
        requires
            self.wf(),
        ensures
            p <= self@.len(),
            forall|i: int| 0 <= i < p ==> lex_lt(key_bytes((#[trigger] self@[i]).0), key_bytes(key@)),
            forall|i: int|
                p <= i < self@.len() ==> !lex_lt(key_bytes((#[trigger] self@[i]).0), key_bytes(key@)),
    {
        let mut p: usize = 0;
        while p < self.entries.len() && str_before(self.entries[p].0.as_str(), key)
            invariant
                self.wf(),
                p <= self@.len(),
                self@.len() == self.entries@.len(),
                forall|i: int|
                    0 <= i < p ==> lex_lt(key_bytes((#[trigger] self@[i]).0), key_bytes(key@)),
            decreases self@.len() - p,
        {
            p = p + 1;
        }
        proof {
            if p < self@.len() {
                assert forall|i: int| p <= i < self@.len() implies !lex_lt(
                    key_bytes((#[trigger] self@[i]).0),
                    key_bytes(key@),
                ) by {
                    if i > p && lex_lt(key_bytes(self@[i].0), key_bytes(key@)) {
                        lemma_lex_transitive(
                            key_bytes(self@[p as int].0),
                            key_bytes(self@[i].0),
                            key_bytes(key@),
                        );
                    }
                }
            }
        }
        p
    }

    /// The position of `key`, if the table holds it.
    pub fn find(&self, key: &str) -> (r: Option<usize>)
        requires
            self.wf(),
        ensures
            match r {
                Some(i) => i < self@.len() && self@[i as int].0 == key@,
                None => !has_key(self@, key@),
            },
    {
        let p = self.lower_bound(key);
        if p < self.entries.len() && !str_before(key, self.entries[p].0.as_str()) {
            proof {
                lemma_lex_total(key_bytes(self@[p as int].0), key_bytes(key@));
                lemma_key_bytes_injective(self@[p as int].0, key@);
            }
            Some(p)
        } else {
            proof {
                assert forall|i: int| 0 <= i < self@.len() implies (#[trigger] self@[i]).0
                    != key@ by {
                    if i < p {
                        lemma_lex_asymmetric(key_bytes(self@[i].0), key_bytes(key@));
                    } else {
                        if i > p {
                            lemma_lex_transitive(
                                key_bytes(key@),
                                key_bytes(self@[p as int].0),
                                key_bytes(self@[i].0),
                            );
                        }
                        lemma_lex_asymmetric(key_bytes(key@), key_bytes(self@[i].0));
                    }
                }
            }
            None
        }
    }

    /// Whether the table holds `key`.
    pub fn contains_key(&self, key: &str) -> (r: bool)
        requires
            self.wf(),
        ensures
            r == has_key(self@, key@),
    {
        self.find(key).is_some()
    }

    /// The value under `key`, if the table holds it.
    pub fn get(&self, key: &str) -> (r: Option<&V>)
        requires
            self.wf(),
        ensures
            match r {
                Some(v) => lookup(self@, key@) == Some(v@),
                None => lookup(self@, key@) is None,
            },
    {
        match self.find(key) {
            Some(i) => {
                proof {
                    lemma_lookup_at(self@, i as int);
                }
                Some(&self.entries[i].1)
            },
            None => None,
        }
    }

    /// Puts `value` under `key`, in place of what was there.
    pub fn insert(&mut self, key: String, value: V)
        requires
            old(self).wf(),
        ensures
            final(self).wf(),
            forall|k: Seq<char>|
                #[trigger] lookup(final(self)@, k) == if k == key@ {
                    Some(value@)
                } else {
                    lookup(old(self)@, k)
                },
    {
        let p = self.lower_bound(key.as_str());
        let ghost before = self@;
        let ghost kv = key@;
        let ghost vv = value@;
        if p < self.entries.len() && !str_before(key.as_str(), self.entries[p].0.as_str()) {
            proof {
                lemma_lex_total(key_bytes(before[p as int].0), key_bytes(kv));
                lemma_key_bytes_injective(before[p as int].0, kv);
            }
            self.entries.set(p, (key, value));
            proof {
                let after = self@;
                assert(after =~= before.update(p as int, (kv, vv)));
                assert(keys_ascend(after)) by {
                    assert forall|i: int, j: int| 0 <= i < j < after.len() implies lex_lt(
                        key_bytes(#[trigger] after[i].0),
                        key_bytes(#[trigger] after[j].0),
                    ) by {
                        assert(after[i].0 == before[i].0 && after[j].0 == before[j].0);
                    }
                }
                assert forall|k: Seq<char>| #[trigger]
                    lookup(after, k) == if k == kv {
                        Some(vv)
                    } else {
                        lookup(before, k)
                    } by {
                    lemma_lookup_same_keys(before, after, p as int, k);
                }
            }
        } else {
            self.entries.insert(p, (key, value));
            proof {
                let after = self@;
                assert(after =~= before.insert(p as int, (kv, vv)));
                assert forall|i: int| p <= i < before.len() implies lex_lt(
                    key_bytes(kv),
                    key_bytes((#[trigger] before[i]).0),
                ) by {
                    if i > p {
                        lemma_lex_transitive(
                            key_bytes(kv),
                            key_bytes(before[p as int].0),
                            key_bytes(before[i].0),
                        );
                    }
                }
                lemma_insert_ascends(before, p as int, kv, vv);
                assert forall|k: Seq<char>| #[trigger]
                    lookup(after, k) == if k == kv {
                        Some(vv)
                    } else {
                        lookup(before, k)
                    } by {
                    lemma_lookup_inserted(before, p as int, kv, vv, k);
                }
            }
        }
    }

    /// Appends an entry whose key comes after every key of the table.
    pub fn push(&mut self, key: String, value: V)
        requires
            old(self).wf(),
            old(self)@.len() > 0 ==> lex_lt(key_bytes(old(self)@.last().0), key_bytes(key@)),
        ensures
            final(self).wf(),
            final(self)@ == old(self)@.push((key@, value@)),
    {
        let ghost before = self@;
        let ghost kv = key@;
        self.entries.push((key, value));
        proof {
            let after = self@;
            assert(after =~= before.push((kv, value@)));
            assert forall|i: int, j: int| 0 <= i < j < after.len() implies lex_lt(
                key_bytes(#[trigger] after[i].0),
                key_bytes(#[trigger] after[j].0),
            ) by {
                if j == before.len() {
                    assert(after[i] == before[i]);
                    if i < before.len() - 1 {
                        lemma_lex_transitive(
                            key_bytes(before[i].0),
                            key_bytes(before.last().0),
                            key_bytes(kv),
                        );
                    }
                } else {
                    assert(after[i] == before[i] && after[j] == before[j]);
                }
            }
        }
    }

    /// Takes out the entry under `key` and returns its value, if there was one.
    pub fn remove(&mut self, key: &str) -> (r: Option<V>)
        requires
            old(self).wf(),
        ensures
            final(self).wf(),
            match r {
                Some(v) => lookup(old(self)@, key@) == Some(v@),
                None => lookup(old(self)@, key@) is None,
            },
            forall|k: Seq<char>|
                #[trigger] lookup(final(self)@, k) == if k == key@ {
                    None
                } else {
                    lookup(old(self)@, k)
                },
    {
        let ghost before = self@;
        match self.find(key) {
            Some(i) => {
                let e = self.entries.remove(i);
                proof {
                    let after = self@;
                    assert(after =~= before.remove(i as int));
                    lemma_lookup_at(before, i as int);
                    lemma_remove_ascends(before, i as int);
                    assert forall|k: Seq<char>| #[trigger]
                        lookup(after, k) == if k == key@ {
                            None
                        } else {
                            lookup(before, k)
                        } by {
                        lemma_lookup_removed(before, i as int, k);
                    }
                }
                Some(e.1)
            },
            None => {
                proof {
                    assert(self@ == before);
                }
                None
            },
        }
    }
}

/// Replacing the value at `p` changes what is found under that key only.
pub proof fn lemma_lookup_same_keys<X>(
    s: Seq<(Seq<char>, X)>,
    t: Seq<(Seq<char>, X)>,
    p: int,
    k: Seq<char>,
)
    requires
        keys_ascend(s),
        0 <= p < s.len(),
        t == s.update(p, (s[p].0, t[p].1)),
    ensures
        keys_ascend(t),
        lookup(t, k) == if k == s[p].0 {
            Some(t[p].1)
        } else {
            lookup(s, k)
        },
{
    assert forall|i: int, j: int| 0 <= i < j < t.len() implies lex_lt(
        key_bytes(#[trigger] t[i].0),
        key_bytes(#[trigger] t[j].0),
    ) by {
        assert(t[i].0 == s[i].0 && t[j].0 == s[j].0);
    }
    if k == s[p].0 {
        lemma_lookup_at(t, p);
    } else if has_key(s, k) {
        let i = choose|i: int| 0 <= i < s.len() && (#[trigger] s[i]).0 == k;
        lemma_lookup_at(s, i);
        assert(t[i] == s[i]);
        lemma_lookup_at(t, i);
    } else if has_key(t, k) {
        let i = choose|i: int| 0 <= i < t.len() && (#[trigger] t[i]).0 == k;
        assert(s[i].0 == k);
    }
}

/// Putting a new key at its place keeps the list ascending.
pub proof fn lemma_insert_ascends<X>(s: Seq<(Seq<char>, X)>, p: int, k: Seq<char>, v: X)
    requires
        keys_ascend(s),
        0 <= p <= s.len(),
        forall|i: int| 0 <= i < p ==> lex_lt(key_bytes((#[trigger] s[i]).0), key_bytes(k)),
        forall|i: int| p <= i < s.len() ==> lex_lt(key_bytes(k), key_bytes((#[trigger] s[i]).0)),
    ensures
        keys_ascend(s.insert(p, (k, v))),
{
    let t = s.insert(p, (k, v));
    assert forall|i: int, j: int| 0 <= i < j < t.len() implies lex_lt(
        key_bytes(#[trigger] t[i].0),
        key_bytes(#[trigger] t[j].0),
    ) by {
        if i < p {
            assert(t[i] == s[i]);
        } else if i > p {
            assert(t[i] == s[i - 1]);
        }
        if j < p {
            assert(t[j] == s[j]);
        } else if j > p {
            assert(t[j] == s[j - 1]);
        }
    }
}

/// What a list holds after a new entry was put in at `p`.
pub proof fn lemma_lookup_inserted<X>(
    s: Seq<(Seq<char>, X)>,
    p: int,
    k: Seq<char>,
    v: X,
    q: Seq<char>,
)
    requires
        keys_ascend(s),
        keys_ascend(s.insert(p, (k, v))),
        0 <= p <= s.len(),
    ensures
        lookup(s.insert(p, (k, v)), q) == if q == k {
            Some(v)
        } else {
            lookup(s, q)
        },
{
    let t = s.insert(p, (k, v));
    if q == k {
        lemma_lookup_at(t, p);
    } else if has_key(s, q) {
        let i = choose|i: int| 0 <= i < s.len() && (#[trigger] s[i]).0 == q;
        lemma_lookup_at(s, i);
        if i < p {
            assert(t[i] == s[i]);
            lemma_lookup_at(t, i);
        } else {
            assert(t[i + 1] == s[i]);
            lemma_lookup_at(t, i + 1);
        }
    } else if has_key(t, q) {
        let i = choose|i: int| 0 <= i < t.len() && (#[trigger] t[i]).0 == q;
        if i < p {
            assert(s[i] == t[i]);
        } else {
            assert(i > p);
            assert(s[i - 1] == t[i]);
        }
        assert(false);
    }
}

/// Taking an entry out keeps the list ascending.
pub proof fn lemma_remove_ascends<X>(s: Seq<(Seq<char>, X)>, p: int)
    requires
        keys_ascend(s),
        0 <= p < s.len(),
    ensures
        keys_ascend(s.remove(p)),
{
    let t = s.remove(p);
    assert forall|i: int, j: int| 0 <= i < j < t.len() implies lex_lt(
        key_bytes(#[trigger] t[i].0),
        key_bytes(#[trigger] t[j].0),
    ) by {
        if i < p {
            assert(t[i] == s[i]);
        } else {
            assert(t[i] == s[i + 1]);
        }
        if j < p {
            assert(t[j] == s[j]);
        } else {
            assert(t[j] == s[j + 1]);
        }
    }
}

/// What a list holds after the entry at `p` was taken out.
pub proof fn lemma_lookup_removed<X>(s: Seq<(Seq<char>, X)>, p: int, q: Seq<char>)
    requires
        keys_ascend(s),
        keys_ascend(s.remove(p)),
        0 <= p < s.len(),
    ensures
        lookup(s.remove(p), q) == if q == s[p].0 {
            None
        } else {
            lookup(s, q)
        },
{
    let t = s.remove(p);
    if has_key(t, q) {
        let i = choose|i: int| 0 <= i < t.len() && (#[trigger] t[i]).0 == q;
        lemma_lookup_at(t, i);
        if i < p {
            assert(t[i] == s[i]);
            lemma_lookup_at(s, i);
            lemma_lex_asymmetric(key_bytes(s[i].0), key_bytes(s[p].0));
        } else {
            assert(t[i] == s[i + 1]);
            lemma_lookup_at(s, i + 1);
            lemma_lex_asymmetric(key_bytes(s[p].0), key_bytes(s[i + 1].0));
        }
        if q == s[p].0 {
            lemma_key_bytes_injective(q, s[p].0);
        }
    } else if q != s[p].0 && has_key(s, q) {
        let i = choose|i: int| 0 <= i < s.len() && (#[trigger] s[i]).0 == q;
        if i < p {
            assert(t[i] == s[i]);
        } else {
            assert(i > p);
            assert(t[i - 1] == s[i]);
        }
        assert(false);
    }
}

} // verus!
