//! A table keyed by text whose entries are always kept in ascending key
//! order, with each key at most once. It is the ordered map that the field,
//! the frame registry and the anchor maps are built on: walking it visits
//! the keys in the order of Rust's `String`.

use vstd::prelude::*;
use crate::text::{TextOrder, text_lt, compare_text, text_eq, lemma_text_lt_irreflexive, lemma_text_lt_transitive, lemma_text_lt_asymmetric, lemma_text_lt_total};

verus! {

/// Keys of an entry sequence, as character sequences.
pub open spec fn keys_of<V>(s: Seq<(String, V)>) -> Seq<Seq<char>> {
    s.map_values(|e: (String, V)| e.0@)
}

/// Keys strictly ascending (hence distinct).
pub open spec fn strictly_sorted_keys<V>(s: Seq<(String, V)>) -> bool {
    forall|i: int, j: int| 0 <= i < j < s.len() ==> text_lt(#[trigger] s[i].0@, #[trigger] s[j].0@)
}

/// The map that an entry sequence with distinct keys stands for.
pub open spec fn entries_map<V>(s: Seq<(String, V)>) -> Map<Seq<char>, V> {
    Map::new(
        |k: Seq<char>| exists|i: int| 0 <= i < s.len() && s[i].0@ == k,
        |k: Seq<char>| s[choose|i: int| 0 <= i < s.len() && s[i].0@ == k].1,
    )
}

pub struct KeyedTable<V> {
    entries: Vec<(String, V)>,
}

impl<V> KeyedTable<V> {
    /// The entries in ascending key order.
    pub closed spec fn entries(&self) -> Seq<(String, V)> {
        self.entries@
    }

    /// Well-formedness: keys strictly ascending.
    pub open spec fn wf(&self) -> bool {
        strictly_sorted_keys(self.entries())
    }

    pub open spec fn view(&self) -> Map<Seq<char>, V> {
        entries_map(self.entries())
    }

    pub fn new() -> (t: Self)
        ensures
            t.wf(),
            t.entries() == Seq::<(String, V)>::empty(),
            t@ == Map::<Seq<char>, V>::empty(),
    {
        let t = KeyedTable { entries: Vec::new() };
        assert(t@ =~= Map::<Seq<char>, V>::empty());
        t
    }

    pub fn len(&self) -> (n: usize)
        ensures
            n == self.entries().len(),
    {
        self.entries.len()
    }

    pub fn entry_slice(&self) -> (r: &[(String, V)])
        ensures
            r@ == self.entries(),
    {
        self.entries.as_slice()
    }

    pub fn key_at(&self, i: usize) -> (k: &String)
        requires
            i < self.entries().len(),
        ensures
            *k == self.entries()[i as int].0,
    {
        &self.entries[i].0
    }

    pub fn value_at(&self, i: usize) -> (v: &V)
        requires
            i < self.entries().len(),
        ensures
            *v == self.entries()[i as int].1,
    {
        &self.entries[i].1
    }

    /// Position of `key`, if present.
    pub fn find(&self, key: &str) -> (r: Option<usize>)
        requires
            self.wf(),
        ensures
            r is None <==> !self@.contains_key(key@),
            r matches Some(i) ==> i < self.entries().len() && self.entries()[i as int].0@ == key@,
    {
        let n = self.entries.len();
        for i in 0..n
            invariant
                n == self.entries@.len(),
                forall|j: int| 0 <= j < i ==> self.entries@[j].0@ != key@,
        {
            if text_eq(self.entries[i].0.as_str(), key) {
                return Some(i);
            }
        }
        None
    }

    pub fn get(&self, key: &str) -> (r: Option<&V>)
        requires
            self.wf(),
        ensures
            r is None <==> !self@.contains_key(key@),
            r matches Some(v) ==> *v == self@[key@],
    {
        match self.find(key) {
            Some(i) => {
                proof {
                    lemma_entries_map_index(self.entries(), i as int);
                }
                Some(&self.entries[i].1)
            },
            None => None,
        }
    }

    pub fn contains_key(&self, key: &str) -> (r: bool)
        requires
            self.wf(),
        ensures
            r == self@.contains_key(key@),
    {
        self.find(key).is_some()
    }

    /// Position of the first key that does not sort before `key`.
    pub fn lower_bound(&self, key: &str) -> (i: usize)
        requires
            self.wf(),
        ensures
            i <= self.entries().len(),
            forall|j: int| 0 <= j < i ==> text_lt(#[trigger] self.entries()[j].0@, key@),
            forall|j: int| i <= j < self.entries().len() ==> !text_lt(#[trigger] self.entries()[j].0@, key@),
    {
        let n = self.entries.len();
        let mut i: usize = 0;
        while i < n
            invariant
                n == self.entries@.len(),
                i <= n,
                self.wf(),
                forall|j: int| 0 <= j < i ==> text_lt(#[trigger] self.entries@[j].0@, key@),
            decreases n - i,
        {
            match compare_text(self.entries[i].0.as_str(), key) {
                TextOrder::Less => {
                    i = i + 1;
                },
                _ => {
                    proof {
                        assert forall|j: int| i <= j < n implies !text_lt(
                            #[trigger] self.entries@[j].0@,
                            key@,
                        ) by {
                            if j > i && text_lt(self.entries@[j].0@, key@) {
                                lemma_text_lt_transitive(
                                    self.entries@[i as int].0@,
                                    self.entries@[j].0@,
                                    key@,
                                );
                            }
                        }
                    }
                    return i;
                },
            }
        }
        i
    }

    /// Inserts `value` under `key`, replacing what the key held.
    pub fn insert(&mut self, key: String, value: V)
        requires
            old(self).wf(),
        ensures
            final(self).wf(),
            final(self)@ == old(self)@.insert(key@, value),
            old(self)@.contains_key(key@) ==> final(self).entries().len() == old(
                self,
            ).entries().len(),
            !old(self)@.contains_key(key@) ==> final(self).entries().len() == old(
                self,
            ).entries().len() + 1,
    {
        let i = self.lower_bound(key.as_str());
        if i < self.entries.len() && text_eq(self.entries[i].0.as_str(), key.as_str()) {
            let ghost old_entries = self.entries@;
            self.entries.set(i, (key, value));
            proof {
                let s = self.entries@;
                assert forall|a: int, b: int| 0 <= a < b < s.len() implies text_lt(
                    #[trigger] s[a].0@,
                    #[trigger] s[b].0@,
                ) by {
                    assert(old_entries[a].0@ == s[a].0@ || a == i);
                    assert(old_entries[b].0@ == s[b].0@ || b == i);
                }
                lemma_entries_map_update(old_entries, i as int, key, value);
            }
            return;
        }
        let n = self.entries.len();
        let ghost old_entries = self.entries@;
        let ghost k = key@;
        proof {
            assert forall|j: int| i <= j < n implies text_lt(k, #[trigger] old_entries[j].0@) by {
                lemma_text_lt_total(k, old_entries[j].0@);
                if j == i {
                } else {
                    assert(old_entries[i as int].0@ != k);
                    lemma_text_lt_total(k, old_entries[i as int].0@);
                    lemma_text_lt_transitive(k, old_entries[i as int].0@, old_entries[j].0@);
                }
            }
        }
        self.entries.insert(i, (key, value));
        proof {
            let s = self.entries@;
            assert forall|a: int, b: int| 0 <= a < b < s.len() implies text_lt(
                #[trigger] s[a].0@,
                #[trigger] s[b].0@,
            ) by {
                assert(s[i as int].0@ == k);
                if a < i && b < i {
                    assert(s[a] == old_entries[a] && s[b] == old_entries[b]);
                } else if a < i && b == i {
                    assert(s[a] == old_entries[a]);
                    assert(text_lt(old_entries[a].0@, k));
                } else if a < i {
                    assert(s[a] == old_entries[a]);
                    assert(s[b] == old_entries[b - 1]);
                    assert(text_lt(old_entries[a].0@, k));
                    assert(text_lt(k, old_entries[b - 1].0@));
                    lemma_text_lt_transitive(s[a].0@, k, s[b].0@);
                } else if a == i {
                    assert(s[b] == old_entries[b - 1]);
                    assert(text_lt(k, old_entries[b - 1].0@));
                } else {
                    assert(s[a] == old_entries[a - 1]);
                    assert(s[b] == old_entries[b - 1]);
                }
            }
            assert forall|j: int| 0 <= j < old_entries.len() implies old_entries[j].0@ != k by {
                if j < i {
                    lemma_text_lt_irreflexive(k);
                } else {
                    lemma_text_lt_irreflexive(k);
                }
            }
            lemma_entries_map_insert(old_entries, i as int, key, value);
        }
    }

    /// Replaces the value of the entry at position `i`, keeping its key.
    pub fn set_value_at(&mut self, i: usize, value: V)
        requires
            old(self).wf(),
            i < old(self).entries().len(),
        ensures
            final(self).wf(),
            final(self).entries() == old(self).entries().update(
                i as int,
                (old(self).entries()[i as int].0, value),
            ),
    {
        let key = self.entries[i].0.clone();
        self.entries.set(i, (key, value));
        proof {
            let s = self.entries@;
            let o = old(self).entries@;
            assert forall|a: int, b: int| 0 <= a < b < s.len() implies text_lt(
                #[trigger] s[a].0@,
                #[trigger] s[b].0@,
            ) by {
                assert(s[a].0 == o[a].0);
                assert(s[b].0 == o[b].0);
            }
        }
    }
}

/// In a table with distinct keys, the entry at `i` is what the map holds
/// under its key.
pub proof fn lemma_entries_map_index<V>(s: Seq<(String, V)>, i: int)
    requires
        strictly_sorted_keys(s),
        0 <= i < s.len(),
    ensures
        entries_map(s).contains_key(s[i].0@),
        entries_map(s)[s[i].0@] == s[i].1,
{
    let k = s[i].0@;
    assert(s[i].0@ == k);
    assert(exists|j: int| 0 <= j < s.len() && s[j].0@ == k);
    let j = choose|j: int| 0 <= j < s.len() && s[j].0@ == k;
    lemma_text_lt_irreflexive(k);
    if j < i {
        assert(text_lt(s[j].0@, s[i].0@));
    } else if j > i {
        assert(text_lt(s[i].0@, s[j].0@));
    }
    assert(j == i);
    assert(entries_map(s).dom().contains(k));
}

proof fn lemma_entries_map_update<V>(s: Seq<(String, V)>, i: int, key: String, value: V)
    requires
        strictly_sorted_keys(s),
        strictly_sorted_keys(s.update(i, (key, value))),
        0 <= i < s.len(),
        s[i].0@ == key@,
    ensures
        entries_map(s.update(i, (key, value))) == entries_map(s).insert(key@, value),
{
    let t = s.update(i, (key, value));
    let m1 = entries_map(t);
    let m2 = entries_map(s).insert(key@, value);
    assert forall|k: Seq<char>| m1.contains_key(k) == m2.contains_key(k) by {
        if m2.contains_key(k) && k != key@ {
            let j = choose|j: int| 0 <= j < s.len() && s[j].0@ == k;
            assert(t[j].0@ == k);
        }
        if k == key@ {
            assert(t[i].0@ == k);
        }
        if m1.contains_key(k) {
            let j = choose|j: int| 0 <= j < t.len() && t[j].0@ == k;
            assert(s[j].0@ == k);
        }
    }
    assert forall|k: Seq<char>| #[trigger] m1.contains_key(k) implies m1[k] == m2[k] by {
        let j = choose|j: int| 0 <= j < t.len() && t[j].0@ == k;
        lemma_entries_map_index(t, j);
        if j == i {
        } else {
            assert(s[j] == t[j]);
            lemma_entries_map_index(s, j);
            lemma_text_lt_irreflexive(k);
            if k == key@ {
                assert(t[i].0@ == k);
                if i < j {
                    assert(text_lt(t[i].0@, t[j].0@));
                } else {
                    assert(text_lt(t[j].0@, t[i].0@));
                }
            }
        }
    }
    assert(m1 =~= m2);
}

proof fn lemma_entries_map_insert<V>(s: Seq<(String, V)>, i: int, key: String, value: V)
    requires
        strictly_sorted_keys(s),
        strictly_sorted_keys(s.insert(i, (key, value))),
        0 <= i <= s.len(),
        forall|j: int| 0 <= j < s.len() ==> s[j].0@ != key@,
    ensures
        entries_map(s.insert(i, (key, value))) == entries_map(s).insert(key@, value),
        !entries_map(s).contains_key(key@),
{
    let t = s.insert(i, (key, value));
    let m1 = entries_map(t);
    let m2 = entries_map(s).insert(key@, value);
    assert forall|k: Seq<char>| m1.contains_key(k) == m2.contains_key(k) by {
        if m2.contains_key(k) && k != key@ {
            let j = choose|j: int| 0 <= j < s.len() && s[j].0@ == k;
            if j < i {
                assert(t[j].0@ == k);
            } else {
                assert(t[j + 1].0@ == k);
            }
        }
        if k == key@ {
            assert(t[i].0@ == k);
        }
        if m1.contains_key(k) && k != key@ {
            let j = choose|j: int| 0 <= j < t.len() && t[j].0@ == k;
            if j < i {
                assert(s[j].0@ == k);
            } else {
                assert(s[j - 1].0@ == k);
            }
        }
    }
    assert forall|k: Seq<char>| #[trigger] m1.contains_key(k) implies m1[k] == m2[k] by {
        let j = choose|j: int| 0 <= j < t.len() && t[j].0@ == k;
        lemma_entries_map_index(t, j);
        if j < i {
            lemma_entries_map_index(s, j);
        } else if j > i {
            lemma_entries_map_index(s, j - 1);
        }
    }
    assert(m1 =~= m2);
}

/// Two tables with distinct ascending keys that stand for the same map
/// have the same entries: the order in which a table is walked depends on
/// its contents only.
pub proof fn lemma_entries_canonical<V>(s: Seq<(String, V)>, t: Seq<(String, V)>)
    requires
        strictly_sorted_keys(s),
        strictly_sorted_keys(t),
        entries_map(s) == entries_map(t),
    ensures
        s.len() == t.len(),
        forall|i: int| 0 <= i < s.len() ==> s[i].0@ == t[i].0@ && s[i].1 == t[i].1,
    decreases s.len() + t.len(),
{
    if s.len() == 0 {
        if t.len() > 0 {
            lemma_entries_map_index(t, 0);
            assert(!entries_map(s).contains_key(t[0].0@));
        }
    } else if t.len() == 0 {
        lemma_entries_map_index(s, 0);
    } else {
        // the smallest keys agree
        let ks = s[0].0@;
        let kt = t[0].0@;
        lemma_entries_map_index(s, 0);
        lemma_entries_map_index(t, 0);
        let js = choose|j: int| 0 <= j < s.len() && s[j].0@ == kt;
        let jt = choose|j: int| 0 <= j < t.len() && t[j].0@ == ks;
        if js > 0 {
            assert(text_lt(ks, kt));
            if jt > 0 {
                assert(text_lt(kt, ks));
                lemma_text_lt_asymmetric(ks, kt);
            }
        }
        if js == 0 {
            assert(ks == kt);
        } else {
            if jt == 0 {
                assert(ks == kt);
            }
        }
        assert(ks == kt);
        assert(s[0].1 == t[0].1);
        let s2 = s.drop_first();
        let t2 = t.drop_first();
        assert(strictly_sorted_keys(s2)) by {
            assert forall|a: int, b: int| 0 <= a < b < s2.len() implies text_lt(
                #[trigger] s2[a].0@,
                #[trigger] s2[b].0@,
            ) by {
                assert(s2[a] == s[a + 1] && s2[b] == s[b + 1]);
            }
        }
        assert(strictly_sorted_keys(t2)) by {
            assert forall|a: int, b: int| 0 <= a < b < t2.len() implies text_lt(
                #[trigger] t2[a].0@,
                #[trigger] t2[b].0@,
            ) by {
                assert(t2[a] == t[a + 1] && t2[b] == t[b + 1]);
            }
        }
        assert forall|k: Seq<char>| #[trigger] entries_map(s2).contains_key(k) implies entries_map(
            t2,
        ).contains_key(k) && entries_map(s2)[k] == entries_map(t2)[k] by {
            let j = choose|j: int| 0 <= j < s2.len() && s2[j].0@ == k;
            assert(s[j + 1] == s2[j]);
            lemma_entries_map_index(s, j + 1);
            lemma_entries_map_index(s2, j);
            assert(entries_map(t).contains_key(k));
            let jj = choose|jj: int| 0 <= jj < t.len() && t[jj].0@ == k;
            lemma_entries_map_index(t, jj);
            if jj == 0 {
                assert(text_lt(s[0].0@, s[j + 1].0@));
                lemma_text_lt_irreflexive(k);
            }
            assert(t2[jj - 1] == t[jj]);
            lemma_entries_map_index(t2, jj - 1);
        }
        assert forall|k: Seq<char>| #[trigger] entries_map(t2).contains_key(k) implies entries_map(
            s2,
        ).contains_key(k) by {
            let j = choose|j: int| 0 <= j < t2.len() && t2[j].0@ == k;
            assert(t[j + 1] == t2[j]);
            lemma_entries_map_index(t, j + 1);
            assert(entries_map(s).contains_key(k));
            let jj = choose|jj: int| 0 <= jj < s.len() && s[jj].0@ == k;
            if jj == 0 {
                assert(text_lt(t[0].0@, t[j + 1].0@));
                lemma_text_lt_irreflexive(k);
            }
            assert(s2[jj - 1] == s[jj]);
            lemma_entries_map_index(s2, jj - 1);
        }
        assert(entries_map(s2) =~= entries_map(t2));
        lemma_entries_canonical(s2, t2);
        assert forall|i: int| 0 <= i < s.len() implies s[i].0@ == t[i].0@ && s[i].1 == t[i].1 by {
            if i > 0 {
                assert(s[i] == s2[i - 1]);
                assert(t[i] == t2[i - 1]);
            }
        }
    }
}

/// A table with distinct keys holds exactly as many keys as entries.
pub proof fn lemma_entries_map_len<V>(s: Seq<(String, V)>)
    requires
        strictly_sorted_keys(s),
    ensures
        entries_map(s).dom().finite(),
        entries_map(s).dom().len() == s.len(),
    decreases s.len(),
{
    if s.len() == 0 {
        assert(entries_map(s).dom() =~= Set::<Seq<char>>::empty());
    } else {
        let p = s.drop_last();
        let last = s.last();
        assert(strictly_sorted_keys(p)) by {
            assert forall|a: int, b: int| 0 <= a < b < p.len() implies text_lt(
                #[trigger] p[a].0@,
                #[trigger] p[b].0@,
            ) by {
                assert(p[a] == s[a] && p[b] == s[b]);
            }
        }
        lemma_entries_map_len(p);
        assert(!entries_map(p).dom().contains(last.0@)) by {
            if entries_map(p).dom().contains(last.0@) {
                let j = choose|j: int| 0 <= j < p.len() && p[j].0@ == last.0@;
                assert(p[j] == s[j]);
                assert(text_lt(s[j].0@, s[s.len() - 1].0@));
                lemma_text_lt_irreflexive(last.0@);
            }
        }
        assert(entries_map(s).dom() =~= entries_map(p).dom().insert(last.0@)) by {
            assert forall|k: Seq<char>| entries_map(s).dom().contains(k) implies entries_map(
                p,
            ).dom().insert(last.0@).contains(k) by {
                let j = choose|j: int| 0 <= j < s.len() && s[j].0@ == k;
                if j < s.len() - 1 {
                    assert(p[j] == s[j]);
                }
            }
            assert forall|k: Seq<char>| entries_map(p).dom().insert(last.0@).contains(k) implies entries_map(
                s,
            ).dom().contains(k) by {
                if k == last.0@ {
                    assert(s[s.len() - 1].0@ == k);
                } else {
                    let j = choose|j: int| 0 <= j < p.len() && p[j].0@ == k;
                    assert(s[j] == p[j]);
                }
            }
        }
    }
}

} // verus!
