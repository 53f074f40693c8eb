//! A string-keyed table that keeps its entries in insertion order. Its model
//! is a map from key text to the view of the value.

use vstd::prelude::*;

verus! {

/// Key text and value view of each entry, in order.
pub open spec fn entry_views<V: View>(e: Seq<(String, V)>) -> Seq<(Seq<char>, V::V)> {
    e.map_values(|p: (String, V)| (p.0@, p.1@))
}

/// The map that a sequence of entries spells, a later entry overriding an
/// earlier one of the same key.
pub open spec fn pairs_map<W>(s: Seq<(Seq<char>, W)>) -> Map<Seq<char>, W>
    decreases s.len(),
{
    if s.len() == 0 {
        Map::empty()
    } else {
        pairs_map(s.drop_last()).insert(s.last().0, s.last().1)
    }
}

/// No two entries share a key.
pub open spec fn keys_unique<W>(s: Seq<(Seq<char>, W)>) -> bool {
    forall|i: int, j: int| 0 <= i < j < s.len() ==> s[i].0 != s[j].0
}

pub proof fn lemma_pairs_map_dom<W>(s: Seq<(Seq<char>, W)>, k: Seq<char>)
    ensures
        pairs_map(s).contains_key(k) <==> exists|i: int| 0 <= i < s.len() && s[i].0 == k,
    decreases s.len(),
{
    if s.len() > 0 {
        lemma_pairs_map_dom(s.drop_last(), k);
        if pairs_map(s).contains_key(k) && k != s.last().0 {
            let i = choose|i: int| 0 <= i < s.len() - 1 && s.drop_last()[i].0 == k;
            assert(s[i].0 == k);
        }
        if exists|i: int| 0 <= i < s.len() && s[i].0 == k {
            let i = choose|i: int| 0 <= i < s.len() && s[i].0 == k;
            if i < s.len() - 1 {
                assert(s.drop_last()[i].0 == k);
            }
        }
    }
}

pub proof fn lemma_pairs_map_value<W>(s: Seq<(Seq<char>, W)>, i: int)
    requires
        keys_unique(s),
        0 <= i < s.len(),
    ensures
        pairs_map(s).contains_key(s[i].0),
        pairs_map(s)[s[i].0] == s[i].1,
    decreases s.len(),
{
    if i < s.len() - 1 {
        lemma_pairs_map_value(s.drop_last(), i);
    }
}

pub proof fn lemma_pairs_map_update<W>(s: Seq<(Seq<char>, W)>, j: int, v: W)
    requires
        keys_unique(s),
        0 <= j < s.len(),
    ensures
        keys_unique(s.update(j, (s[j].0, v))),
        pairs_map(s.update(j, (s[j].0, v))) =~= pairs_map(s).insert(s[j].0, v),
{
    let t = s.update(j, (s[j].0, v));
    assert forall|k: Seq<char>| #[trigger] pairs_map(t).contains_key(k) <==> pairs_map(s).insert(s[j].0, v).contains_key(k) by {
        lemma_pairs_map_dom(s, k);
        lemma_pairs_map_dom(t, k);
        if exists|i: int| 0 <= i < s.len() && s[i].0 == k {
            let i = choose|i: int| 0 <= i < s.len() && s[i].0 == k;
            assert(t[i].0 == k);
        }
        if exists|i: int| 0 <= i < t.len() && t[i].0 == k {
            let i = choose|i: int| 0 <= i < t.len() && t[i].0 == k;
            assert(s[i].0 == k);
        }
    }
    assert forall|k: Seq<char>| #[trigger] pairs_map(t).contains_key(k) implies pairs_map(t)[k] == pairs_map(s).insert(s[j].0, v)[k] by {
        lemma_pairs_map_dom(t, k);
        let i = choose|i: int| 0 <= i < t.len() && t[i].0 == k;
        lemma_pairs_map_value(t, i);
        if i != j {
            lemma_pairs_map_value(s, i);
        }
    }
}

pub proof fn lemma_pairs_map_remove<W>(s: Seq<(Seq<char>, W)>, j: int)
    requires
        keys_unique(s),
        0 <= j < s.len(),
    ensures
        keys_unique(s.remove(j)),
        pairs_map(s.remove(j)) =~= pairs_map(s).remove(s[j].0),
{
    let t = s.remove(j);
    assert forall|a: int, b: int| 0 <= a < b < t.len() implies t[a].0 != t[b].0 by {
        let a1 = if a < j { a } else { a + 1 };
        let b1 = if b < j { b } else { b + 1 };
        assert(t[a] == s[a1] && t[b] == s[b1]);
    }
    assert forall|k: Seq<char>| #[trigger] pairs_map(t).contains_key(k) <==> pairs_map(s).remove(s[j].0).contains_key(k) by {
        lemma_pairs_map_dom(s, k);
        lemma_pairs_map_dom(t, k);
        if exists|i: int| 0 <= i < s.len() && s[i].0 == k && k != s[j].0 {
            let i = choose|i: int| 0 <= i < s.len() && s[i].0 == k && k != s[j].0;
            if i < j {
                assert(t[i].0 == k);
            } else {
                assert(t[i - 1].0 == k);
            }
        }
        if exists|i: int| 0 <= i < t.len() && t[i].0 == k {
            let i = choose|i: int| 0 <= i < t.len() && t[i].0 == k;
            if i < j {
                assert(s[i].0 == k);
            } else {
                assert(s[i + 1].0 == k);
            }
        }
    }
    assert forall|k: Seq<char>| #[trigger] pairs_map(t).contains_key(k) implies pairs_map(t)[k] == pairs_map(s).remove(s[j].0)[k] by {
        lemma_pairs_map_dom(t, k);
        let i = choose|i: int| 0 <= i < t.len() && t[i].0 == k;
        lemma_pairs_map_value(t, i);
        if i < j {
            lemma_pairs_map_value(s, i);
        } else {
            lemma_pairs_map_value(s, i + 1);
        }
    }
}

pub proof fn lemma_pairs_map_push<W>(s: Seq<(Seq<char>, W)>, k: Seq<char>, v: W)
    requires
        keys_unique(s),
        !pairs_map(s).contains_key(k),
    ensures
        keys_unique(s.push((k, v))),
        pairs_map(s.push((k, v))) == pairs_map(s).insert(k, v),
{
    assert(s.push((k, v)).drop_last() =~= s);
    assert forall|i: int| 0 <= i < s.len() implies s[i].0 != k by {
        lemma_pairs_map_dom(s, k);
    }
}

/// A table keyed by strings, in insertion order. Its derived `==` compares
/// the entries in order.
#[derive(Debug, PartialEq, Eq)]
pub struct Table<V> {
    pub entries: Vec<(String, V)>,
}

impl<V: View> View for Table<V> {
    type V = Map<Seq<char>, V::V>;

    open spec fn view(&self) -> Map<Seq<char>, V::V> {
        pairs_map(entry_views(self.entries@))
    }
}

impl<V: View> Table<V> {
    /// No two entries share a key.
    pub open spec fn wf(&self) -> bool {
        keys_unique(entry_views(self.entries@))
    }

    /// The keys in insertion order.
    pub open spec fn key_seq(&self) -> Seq<Seq<char>> {
        self.entries@.map_values(|p: (String, V)| p.0@)
    }

    pub fn new() -> (r: Self)
        ensures
            r.wf(),
            r@ == Map::<Seq<char>, V::V>::empty(),
            r.entries@.len() == 0,
    {
        let r = Table { entries: Vec::new() };
        assert(entry_views(r.entries@) =~= Seq::empty());
        r
    }

    pub fn len(&self) -> (r: usize)
        ensures
            r == self.entries@.len(),
    {
        self.entries.len()
    }

    /// Where `key` stands among the entries.
    pub fn index_of(&self, key: &str) -> (r: Option<usize>)
        requires
            self.wf(),
        ensures
            r is None <==> !self@.contains_key(key@),
            r matches Some(i) ==> i < self.entries@.len() && self.entries@[i as int].0@ == key@
                && self@[key@] == self.entries@[i as int].1@,
    {
        let mut i: usize = 0;
        while i < self.entries.len()
            invariant
                self.wf(),
                i <= self.entries@.len(),
                forall|j: int| 0 <= j < i ==> self.entries@[j].0@ != key@,
            decreases self.entries@.len() - i,
        {
            if crate::order::str_eq(self.entries[i].0.as_str(), key) {
                proof {
                    assert(entry_views(self.entries@)[i as int].0 == key@);
                    lemma_pairs_map_value(entry_views(self.entries@), i as int);
                }
                return Some(i);
            }
            i = i + 1;
        }
        proof {
            lemma_pairs_map_dom(entry_views(self.entries@), key@);
            if self@.contains_key(key@) {
                let j = choose|j: int| 0 <= j < self.entries@.len() && entry_views(self.entries@)[j].0 == key@;
                assert(self.entries@[j].0@ == key@);
            }
        }
        None
    }

    pub fn get(&self, key: &str) -> (r: Option<&V>)
        requires
            self.wf(),
        ensures
            r is None <==> !self@.contains_key(key@),
            r matches Some(v) ==> v@ == self@[key@],
    {
        match self.index_of(key) {
            Some(i) => Some(&self.entries[i].1),
            None => None,
        }
    }

    /// Sets the value of `key`: in place where the key is present, else at the end.
    pub fn insert(&mut self, key: String, value: V)
        requires
            old(self).wf(),
        ensures
            final(self).wf(),
            final(self)@ == old(self)@.insert(key@, value@),
            old(self)@.contains_key(key@) ==> exists|i: int| 0 <= i < old(self).entries@.len() && final(self).entries@ == old(self).entries@.update(i, (key, value)),
            !old(self)@.contains_key(key@) ==> final(self).entries@ == old(self).entries@.push((key, value)),
    {
        match self.index_of(key.as_str()) {
            Some(i) => {
                proof {
                    lemma_pairs_map_update(entry_views(self.entries@), i as int, value@);
                }
                let ghost kv = (key, value);
                self.entries.set(i, (key, value));
                proof {
                    assert(self.entries@ == old(self).entries@.update(i as int, kv));
                    assert(entry_views(self.entries@) =~= entry_views(old(self).entries@).update(
                        i as int,
                        (entry_views(old(self).entries@)[i as int].0, value@),
                    ));
                }
            },
            None => {
                let ghost kv = key@;
                let ghost vv = value@;
                let ghost pair = (key, value);
                proof {
                    lemma_pairs_map_push(entry_views(self.entries@), kv, vv);
                }
                self.entries.push((key, value));
                assert(self.entries@ == old(self).entries@.push(pair));
                proof {
                    assert(entry_views(self.entries@) =~= entry_views(old(self).entries@).push((kv, vv)));
                }
            },
        }
    }

    /// Takes `key` out of the table, handing back its value.
    pub fn remove(&mut self, key: &str) -> (r: Option<V>)
        requires
            old(self).wf(),
        ensures
            final(self).wf(),
            final(self)@ == old(self)@.remove(key@),
            r is None <==> !old(self)@.contains_key(key@),
            r matches Some(v) ==> v@ == old(self)@[key@],
    {
        match self.index_of(key) {
            Some(i) => {
                proof {
                    lemma_pairs_map_remove(entry_views(self.entries@), i as int);
                }
                let (_, v) = self.entries.remove(i);
                proof {
                    assert(entry_views(self.entries@) =~= entry_views(old(self).entries@).remove(i as int));
                }
                Some(v)
            },
            None => {
                proof {
                    assert(old(self)@.remove(key@) =~= old(self)@);
                }
                None
            },
        }
    }
}

/// Every key of the table is one of its entries' keys, and the reverse.
pub proof fn lemma_table_keys<V: View>(t: &Table<V>, k: Seq<char>)
    requires
        t.wf(),
    ensures
        t@.contains_key(k) <==> exists|i: int| 0 <= i < t.entries@.len() && #[trigger] t.entries@[i].0@ == k,
{
    lemma_pairs_map_dom(entry_views(t.entries@), k);
    if t@.contains_key(k) {
        let i = choose|i: int| 0 <= i < t.entries@.len() && entry_views(t.entries@)[i].0 == k;
        assert(t.entries@[i].0@ == k);
    }
    if exists|i: int| 0 <= i < t.entries@.len() && #[trigger] t.entries@[i].0@ == k {
        let i = choose|i: int| 0 <= i < t.entries@.len() && #[trigger] t.entries@[i].0@ == k;
        assert(entry_views(t.entries@)[i].0 == k);
    }
}

/// The value of an entry is the table's value at its key.
pub proof fn lemma_table_entry<V: View>(t: &Table<V>, i: int)
    requires
        t.wf(),
        0 <= i < t.entries@.len(),
    ensures
        t@.contains_key(t.entries@[i].0@),
        t@[t.entries@[i].0@] == t.entries@[i].1@,
{
    lemma_pairs_map_value(entry_views(t.entries@), i);
}

} // verus!
