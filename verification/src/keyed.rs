//! A table of values under text keys, kept in insertion order, each key at most
//! once: the library's stand-in for the `HashMap<String, _>` tables.

use vstd::prelude::*;
use crate::text::same_text;

verus! {

/// The map that a sequence of key-value pairs describes, a later pair for a key
/// taking the place of an earlier one.
pub open spec fn map_of<V>(s: Seq<(Seq<char>, V)>) -> Map<Seq<char>, V>
    decreases s.len(),
{
    if s.len() == 0 {
        Map::empty()
    } else {
        map_of(s.drop_last()).insert(s.last().0, s.last().1)
    }
}

/// No key occurs twice in `s`.
pub open spec fn unique_keys<V>(s: Seq<(Seq<char>, V)>) -> bool {
    forall|i: int, j: int| 0 <= i < j < s.len() ==> s[i].0 != s[j].0
}

/// Whether `k` is the key of some pair of `s`.
pub open spec fn has_key<V>(s: Seq<(Seq<char>, V)>, k: Seq<char>) -> bool {
    exists|i: int| 0 <= i < s.len() && s[i].0 == k
}

pub proof fn lemma_map_of_dom<V>(s: Seq<(Seq<char>, V)>, k: Seq<char>)
    ensures
        map_of(s).dom().contains(k) == has_key(s, k),
    decreases s.len(),
{
    if s.len() > 0 {
        let front = s.drop_last();
        lemma_map_of_dom(front, k);
        if has_key(front, k) {
            let i = choose|i: int| 0 <= i < front.len() && front[i].0 == k;
            assert(s[i].0 == k);
        }
        if has_key(s, k) && k != s.last().0 {
            let i = choose|i: int| 0 <= i < s.len() && s[i].0 == k;
            assert(i != s.len() - 1);
            assert(front[i].0 == k);
        }
        if k == s.last().0 {
            assert(s[s.len() - 1].0 == k);
        }
    }
}

pub proof fn lemma_map_of_value<V>(s: Seq<(Seq<char>, V)>, i: int)
    requires
        unique_keys(s),
        0 <= i < s.len(),
    ensures
        map_of(s).dom().contains(s[i].0),
        map_of(s)[s[i].0] == s[i].1,
    decreases s.len(),
{
    let front = s.drop_last();
    if i < s.len() - 1 {
        assert(front[i] == s[i]);
        assert(s[i].0 != s[s.len() - 1].0);
        lemma_map_of_value(front, i);
    }
}

pub proof fn lemma_map_of_update<V>(s: Seq<(Seq<char>, V)>, i: int, v: V)
    requires
        unique_keys(s),
        0 <= i < s.len(),
    ensures
        unique_keys(s.update(i, (s[i].0, v))),
        map_of(s.update(i, (s[i].0, v))) == map_of(s).insert(s[i].0, v),
{
    let s2 = s.update(i, (s[i].0, v));
    assert forall|a: int, b: int| 0 <= a < b < s2.len() implies s2[a].0 != s2[b].0 by {
        assert(s2[a].0 == s[a].0);
        assert(s2[b].0 == s[b].0);
    }
    assert forall|k: Seq<char>| #[trigger] map_of(s2).dom().contains(k) == map_of(s).insert(
        s[i].0,
        v,
    ).dom().contains(k) by {
        lemma_map_of_dom(s2, k);
        lemma_map_of_dom(s, k);
        if has_key(s, k) {
            let j = choose|j: int| 0 <= j < s.len() && s[j].0 == k;
            assert(s2[j].0 == k);
        }
        if has_key(s2, k) {
            let j = choose|j: int| 0 <= j < s2.len() && s2[j].0 == k;
            assert(s[j].0 == k);
        }
    }
    assert forall|k: Seq<char>| #[trigger] map_of(s2).dom().contains(k) implies map_of(s2)[k]
        == map_of(s).insert(s[i].0, v)[k] by {
        lemma_map_of_dom(s2, k);
        let j = choose|j: int| 0 <= j < s2.len() && s2[j].0 == k;
        lemma_map_of_value(s2, j);
        if j != i {
            lemma_map_of_value(s, j);
        }
    }
    assert(map_of(s2) =~= map_of(s).insert(s[i].0, v));
}

pub proof fn lemma_map_of_remove<V>(s: Seq<(Seq<char>, V)>, i: int)
    requires
        unique_keys(s),
        0 <= i < s.len(),
    ensures
        unique_keys(s.remove(i)),
        map_of(s.remove(i)) == map_of(s).remove(s[i].0),
{
    let s2 = s.remove(i);
    assert forall|a: int, b: int| 0 <= a < b < s2.len() implies s2[a].0 != s2[b].0 by {
        let a0 = if a < i { a } else { a + 1 };
        let b0 = if b < i { b } else { b + 1 };
        assert(s2[a] == s[a0]);
        assert(s2[b] == s[b0]);
    }
    assert forall|k: Seq<char>| #[trigger] map_of(s2).dom().contains(k) == map_of(s).remove(
        s[i].0,
    ).dom().contains(k) by {
        lemma_map_of_dom(s2, k);
        lemma_map_of_dom(s, k);
        if has_key(s, k) && k != s[i].0 {
            let j = choose|j: int| 0 <= j < s.len() && s[j].0 == k;
            let j2 = if j < i { j } else { j - 1 };
            assert(s2[j2].0 == k);
        }
        if has_key(s2, k) {
            let j = choose|j: int| 0 <= j < s2.len() && s2[j].0 == k;
            let j0 = if j < i { j } else { j + 1 };
            assert(s[j0].0 == k);
        }
    }
    assert forall|k: Seq<char>| #[trigger] map_of(s2).dom().contains(k) implies map_of(s2)[k]
        == map_of(s).remove(s[i].0)[k] by {
        lemma_map_of_dom(s2, k);
        let j = choose|j: int| 0 <= j < s2.len() && s2[j].0 == k;
        let j0 = if j < i { j } else { j + 1 };
        lemma_map_of_value(s2, j);
        lemma_map_of_value(s, j0);
    }
    assert(map_of(s2) =~= map_of(s).remove(s[i].0));
}

/// With no key twice, the map of a sequence of pairs has one key per pair, and
/// each pair's key maps to its value.
pub proof fn lemma_map_of_listing<V>(s: Seq<(Seq<char>, V)>)
    requires
        unique_keys(s),
    ensures
        map_of(s).dom().finite(),
        map_of(s).dom().len() == s.len(),
        forall|i: int|
            0 <= i < s.len() ==> map_of(s).dom().contains(#[trigger] s[i].0) && map_of(s)[s[i].0]
                == s[i].1,
        forall|k: Seq<char>| #[trigger] map_of(s).dom().contains(k) ==> has_key(s, k),
    decreases s.len(),
{
    if s.len() > 0 {
        let front = s.drop_last();
        assert(unique_keys(front)) by {
            assert forall|i: int, j: int| 0 <= i < j < front.len() implies front[i].0
                != front[j].0 by {
                assert(front[i] == s[i] && front[j] == s[j]);
            }
        }
        lemma_map_of_listing(front);
        lemma_map_of_dom(front, s.last().0);
        assert(!has_key(front, s.last().0)) by {
            if has_key(front, s.last().0) {
                let i = choose|i: int| 0 <= i < front.len() && front[i].0 == s.last().0;
                assert(s[i].0 == s[s.len() - 1].0);
            }
        }
    }
    assert forall|i: int| 0 <= i < s.len() implies map_of(s).dom().contains(#[trigger] s[i].0)
        && map_of(s)[s[i].0] == s[i].1 by {
        lemma_map_of_value(s, i);
    }
    assert forall|k: Seq<char>| #[trigger] map_of(s).dom().contains(k) implies has_key(s, k) by {
        lemma_map_of_dom(s, k);
    }
}

/// Values under text keys, in the order in which their keys first came in.
pub struct KeyedTable<V> {
    entries: Vec<(String, V)>,
}

impl<V> KeyedTable<V> {
    /// The key-value pairs, in order.
    pub closed spec fn items(&self) -> Seq<(Seq<char>, V)> {
        self.entries@.map_values(|e: (String, V)| (e.0@, e.1))
    }

    /// No key occurs twice.
    pub open spec fn wf(&self) -> bool {
        unique_keys(self.items())
    }

    #[verifier::type_invariant]
    pub open spec fn keys_unique(self) -> bool {
        unique_keys(self.items())
    }

    /// The table as a map from keys to values.
    pub open spec fn view(&self) -> Map<Seq<char>, V> {
        map_of(self.items())
    }

    /// An empty table.
    pub fn new() -> (t: Self)
        ensures
            t.wf(),
            t.items() == Seq::<(Seq<char>, V)>::empty(),
    {
        let t = KeyedTable { entries: Vec::new() };
        assert(t.items() =~= Seq::<(Seq<char>, V)>::empty());
        t
    }

    /// The number of keys.
    pub fn len(&self) -> (n: usize)
        ensures
            n == self.items().len(),
            self.wf(),
    {
        proof {
            use_type_invariant(self);
        }
        self.entries.len()
    }

    /// The key at position `i`.
    pub fn key_at(&self, i: usize) -> (k: &String)
        requires
            i < self.items().len(),
        ensures
            k@ == self.items()[i as int].0,
    {
        &self.entries[i].0
    }

    /// The value at position `i`.
    pub fn value_at(&self, i: usize) -> (v: &V)
        requires
            i < self.items().len(),
        ensures
            *v == self.items()[i as int].1,
    {
        &self.entries[i].1
    }

    /// The position of `key`, if the table holds it.
    pub fn find(&self, key: &str) -> (r: Option<usize>)
        ensures
            match r {
                Some(i) => i < self.items().len() && self.items()[i as int].0 == key@,
                None => !has_key(self.items(), key@),
            },
    {
        let n = self.entries.len();
        for i in 0..n
            invariant
                n == self.items().len(),
                forall|j: int| 0 <= j < i ==> self.items()[j].0 != key@,
        {
            if same_text(self.entries[i].0.as_str(), key) {
                return Some(i);
            }
        }
        None
    }

    /// The value under `key`, if any.
    pub fn get(&self, key: &str) -> (r: Option<&V>)
        ensures
            r == (if self@.dom().contains(key@) {
                Some(&self@[key@])
            } else {
                None
            }),
    {
        proof {
            use_type_invariant(self);
            lemma_map_of_dom(self.items(), key@);
        }
        match self.find(key) {
            Some(i) => {
                proof {
                    lemma_map_of_value(self.items(), i as int);
                }
                Some(&self.entries[i].1)
            },
            None => None,
        }
    }

    /// Puts `value` under `key`: in the place of the old value where the key is
    /// held, at the end otherwise.
    pub fn insert(&mut self, key: String, value: V)
        ensures
            old(self).wf(),
            final(self).wf(),
            final(self)@ == old(self)@.insert(key@, value),
            has_key(old(self).items(), key@) ==> exists|i: int|
                0 <= i < old(self).items().len() && old(self).items()[i].0 == key@
                    && final(self).items() == old(self).items().update(i, (key@, value)),
            !has_key(old(self).items(), key@) ==> final(self).items() == old(self).items().push(
                (key@, value),
            ),
    {
        proof {
            use_type_invariant(&*self);
        }
        let ghost k = key@;
        let ghost s = self.items();
        let found = self.find(key.as_str());
        let mut entries: Vec<(String, V)> = Vec::new();
        std::mem::swap(&mut entries, &mut self.entries);
        match found {
            Some(i) => {
                entries.set(i, (key, value));
                proof {
                    let t = entries@.map_values(|e: (String, V)| (e.0@, e.1));
                    assert(t =~= s.update(i as int, (k, value)));
                    lemma_map_of_update(s, i as int, value);
                }
            },
            None => {
                entries.push((key, value));
                proof {
                    let t = entries@.map_values(|e: (String, V)| (e.0@, e.1));
                    assert(t =~= s.push((k, value)));
                    assert(t.drop_last() =~= s);
                    assert forall|a: int, b: int| 0 <= a < b < t.len() implies t[a].0 != t[b].0 by {
                        if b == s.len() {
                            assert(t[a] == s[a]);
                        } else {
                            assert(t[a] == s[a]);
                            assert(t[b] == s[b]);
                        }
                    }
                }
            },
        }
        self.entries = entries;
    }

    /// Takes `key` and its value out of the table, if it is there; the other
    /// pairs keep their order.
    pub fn remove(&mut self, key: &str) -> (r: Option<V>)
        ensures
            old(self).wf(),
            final(self).wf(),
            final(self)@ == old(self)@.remove(key@),
            r == (if old(self)@.dom().contains(key@) {
                Some(old(self)@[key@])
            } else {
                None
            }),
            match r {
                Some(_) => exists|i: int|
                    0 <= i < old(self).items().len() && old(self).items()[i].0 == key@
                        && final(self).items() == old(self).items().remove(i),
                None => final(self).items() == old(self).items(),
            },
    {
        proof {
            use_type_invariant(&*self);
            lemma_map_of_dom(self.items(), key@);
        }
        let ghost s = self.items();
        match self.find(key) {
            Some(i) => {
                let mut entries: Vec<(String, V)> = Vec::new();
                std::mem::swap(&mut entries, &mut self.entries);
                let e = entries.remove(i);
                proof {
                    let t = entries@.map_values(|e: (String, V)| (e.0@, e.1));
                    assert(t =~= s.remove(i as int));
                    lemma_map_of_remove(s, i as int);
                    lemma_map_of_value(s, i as int);
                }
                self.entries = entries;
                Some(e.1)
            },
            None => {
                proof {
                    assert(s == old(self).items());
                    assert(old(self)@.remove(key@) =~= old(self)@);
                }
                None
            },
        }
    }
}

} // verus!
