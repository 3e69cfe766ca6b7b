//! A map from variable names to values.
use vstd::prelude::*;
use crate::text::{chars_eq, chars_of};

verus! {

/// The map that a list of pairs describes; a later pair wins over an earlier
/// one with the same key.
pub open spec fn pairs_map(s: Seq<(Seq<char>, Seq<char>)>) -> Map<Seq<char>, Seq<char>>
    decreases s.len(),
{
    if s.len() == 0 {
        Map::empty()
    } else {
        pairs_map(s.drop_last()).insert(s.last().0, s.last().1)
    }
}

pub open spec fn pair_view(p: (String, String)) -> (Seq<char>, Seq<char>) {
    (p.0@, p.1@)
}

/// The keys of a list of pairs.
pub open spec fn pair_keys(s: Seq<(Seq<char>, Seq<char>)>) -> Seq<Seq<char>> {
    s.map_values(|p: (Seq<char>, Seq<char>)| p.0)
}

pub proof fn lemma_pairs_map_index(s: Seq<(Seq<char>, Seq<char>)>, i: int)
    requires
        pair_keys(s).no_duplicates(),
        0 <= i < s.len(),
    ensures
        pairs_map(s).contains_key(s[i].0),
        pairs_map(s)[s[i].0] == s[i].1,
    decreases s.len(),
{
    if i < s.len() - 1 {
        assert(pair_keys(s)[i] == s[i].0);
        assert(pair_keys(s)[s.len() - 1] == s.last().0);
        assert(pair_keys(s.drop_last()) =~= pair_keys(s).drop_last());
        lemma_pairs_map_index(s.drop_last(), i);
    }
}

pub proof fn lemma_pairs_map_dom(s: Seq<(Seq<char>, Seq<char>)>, k: Seq<char>)
    ensures
        pairs_map(s).contains_key(k) <==> pair_keys(s).contains(k),
    decreases s.len(),
{
    if s.len() > 0 {
        lemma_pairs_map_dom(s.drop_last(), k);
        let ks = pair_keys(s);
        let kd = pair_keys(s.drop_last());
        assert(kd =~= ks.drop_last());
        assert(ks =~= kd.push(s.last().0));
        if ks.contains(k) {
            let j = choose|j: int| 0 <= j < ks.len() && ks[j] == k;
            if j < ks.len() - 1 {
                assert(kd[j] == k);
            }
        }
        if kd.contains(k) {
            let j = choose|j: int| 0 <= j < kd.len() && kd[j] == k;
            assert(ks[j] == k);
        }
        if s.last().0 == k {
            assert(ks[ks.len() - 1] == k);
        }
    } else {
        assert(pair_keys(s) =~= Seq::<Seq<char>>::empty());
    }
}

pub proof fn lemma_pairs_map_update(
    s: Seq<(Seq<char>, Seq<char>)>,
    i: int,
    v: Seq<char>,
)
    requires
        pair_keys(s).no_duplicates(),
        0 <= i < s.len(),
    ensures
        pairs_map(s.update(i, (s[i].0, v))) == pairs_map(s).insert(s[i].0, v),
    decreases s.len(),
{
    let k = s[i].0;
    let u = s.update(i, (k, v));
    if i == s.len() - 1 {
        assert(u.drop_last() =~= s.drop_last());
        assert(pairs_map(u) =~= pairs_map(s).insert(k, v));
    } else {
        assert(pair_keys(s)[i] == k);
        assert(pair_keys(s)[s.len() - 1] == s.last().0);
        assert(s.last().0 != k);
        assert(pair_keys(s.drop_last()) =~= pair_keys(s).drop_last());
        lemma_pairs_map_update(s.drop_last(), i, v);
        assert(u.drop_last() =~= s.drop_last().update(i, (k, v)));
        assert(u.last() == s.last());
        assert(pairs_map(u) =~= pairs_map(s).insert(k, v));
    }
}

pub proof fn lemma_pairs_map_finite(s: Seq<(Seq<char>, Seq<char>)>)
    ensures
        pairs_map(s).dom().finite(),
    decreases s.len(),
{
    if s.len() > 0 {
        lemma_pairs_map_finite(s.drop_last());
    }
}

/// A map from names to values, with at most one value per name.
#[derive(Debug)]
pub struct ValueMap {
    entries: Vec<(String, String)>,
}

impl ValueMap {
    /// The pairs of the map, in insertion order.
    pub closed spec fn pairs(&self) -> Seq<(Seq<char>, Seq<char>)> {
        self.entries@.map_values(|p: (String, String)| pair_view(p))
    }

    /// The names of the pairs are distinct.
    #[verifier::type_invariant]
    pub closed spec fn inv(&self) -> bool {
        pair_keys(self.pairs()).no_duplicates()
    }

    /// The map as a mathematical map.
    pub closed spec fn view(&self) -> Map<Seq<char>, Seq<char>> {
        pairs_map(self.pairs())
    }

    /// The entries of the map, each key once, in insertion order.
    pub open spec fn entries_view(&self) -> Seq<(Seq<char>, Seq<char>)> {
        self.pairs()
    }

    /// Every key of the map occurs once among its pairs, and the pairs describe the map.
    pub proof fn lemma_pairs(&self)
        requires
            self.inv(),
        ensures
            pair_keys(self.pairs()).no_duplicates(),
            forall|i: int|
                0 <= i < self.pairs().len() ==> #[trigger] self.view().contains_key(self.pairs()[i].0)
                    && self.view()[self.pairs()[i].0] == self.pairs()[i].1,
            forall|k: Seq<char>| self.view().contains_key(k) <==> pair_keys(self.pairs()).contains(k),
            self.view().dom().finite(),
    {
        assert forall|i: int| 0 <= i < self.pairs().len() implies #[trigger] self.view().contains_key(
            self.pairs()[i].0,
        ) && self.view()[self.pairs()[i].0] == self.pairs()[i].1 by {
            lemma_pairs_map_index(self.pairs(), i);
        }
        assert forall|k: Seq<char>| self.view().contains_key(k) <==> pair_keys(
            self.pairs(),
        ).contains(k) by {
            lemma_pairs_map_dom(self.pairs(), k);
        }
        lemma_pairs_map_finite(self.pairs());
    }

    /// An empty map.
    pub fn new() -> (r: Self)
        ensures
            r.view() == Map::<Seq<char>, Seq<char>>::empty(),
            r.pairs().len() == 0,
    {
        let r = ValueMap { entries: Vec::new() };
        assert(r.pairs() =~= Seq::<(Seq<char>, Seq<char>)>::empty());
        r
    }

    /// The number of names in the map.
    pub fn len(&self) -> (r: usize)
        ensures
            r == self.pairs().len(),
    {
        self.entries.len()
    }

    /// The name of the `i`-th entry.
    pub fn key_at(&self, i: usize) -> (r: &String)
        requires
            i < self.pairs().len(),
        ensures
            r@ == self.pairs()[i as int].0,
    {
        &self.entries[i].0
    }

    /// The value of the `i`-th entry.
    pub fn value_at(&self, i: usize) -> (r: &String)
        requires
            i < self.pairs().len(),
        ensures
            r@ == self.pairs()[i as int].1,
    {
        &self.entries[i].1
    }

    /// Index of the entry for `key`, if there is one.
    fn find(&self, key: &[char]) -> (r: Option<usize>)
        ensures
            match r {
                Some(i) => i < self.pairs().len() && self.pairs()[i as int].0 == key@,
                None => !pair_keys(self.pairs()).contains(key@),
            },
    {
        let mut i: usize = 0;
        while i < self.entries.len()
            invariant
                i <= self.entries@.len(),
                forall|j: int| 0 <= j < i ==> #[trigger] self.pairs()[j].0 != key@,
            decreases self.entries@.len() - i,
        {
            let k = chars_of(self.entries[i].0.as_str());
            if chars_eq(&k, key) {
                return Some(i);
            }
            i = i + 1;
        }
        proof {
            if pair_keys(self.pairs()).contains(key@) {
                let j = choose|j: int| 0 <= j < pair_keys(self.pairs()).len() && pair_keys(self.pairs())[j] == key@;
                assert(self.pairs()[j].0 == key@);
            }
        }
        None
    }

    /// The value for `key`, if the map has one.
    pub fn get(&self, key: &str) -> (r: Option<&String>)
        ensures
            match r {
                Some(v) => self.view().contains_key(key@) && v@ == self.view()[key@],
                None => !self.view().contains_key(key@),
            },
    {
        proof {
            use_type_invariant(&*self);
            self.lemma_pairs();
        }
        let k = chars_of(key);
        match self.find(&k) {
            Some(i) => {
                assert(self.pairs()[i as int] == pair_view(self.entries@[i as int]));
                assert(self.view().contains_key(self.pairs()[i as int].0));
                Some(&self.entries[i].1)
            },
            None => None,
        }
    }

    /// Whether the map has a value for `key`.
    pub fn contains_key(&self, key: &str) -> (r: bool)
        ensures
            r == self.view().contains_key(key@),
    {
        self.get(key).is_some()
    }

    /// Sets the value for `key`; returns the value it replaced, if any.
    pub fn insert(&mut self, key: String, value: String) -> (r: Option<String>)
        ensures
            final(self).view() == old(self).view().insert(key@, value@),
            match r {
                Some(v) => old(self).view().contains_key(key@) && v@ == old(self).view()[key@],
                None => !old(self).view().contains_key(key@),
            },
    {
        proof {
            use_type_invariant(&*self);
            self.lemma_pairs();
        }
        let k = chars_of(key.as_str());
        let found = self.find(&k);
        let ghost old_pairs = self.pairs();
        match found {
            Some(i) => {
                let old_value = self.entries[i].1.clone();
                let mut entries: Vec<(String, String)> = Vec::new();
                std::mem::swap(&mut entries, &mut self.entries);
                let ghost kv = key@;
                let ghost vv = value@;
                entries.set(i, (key, value));
                proof {
                    let new_pairs = entries@.map_values(|p: (String, String)| pair_view(p));
                    assert(new_pairs =~= old_pairs.update(i as int, (old_pairs[i as int].0, vv)));
                    lemma_pairs_map_update(old_pairs, i as int, vv);
                    assert(pair_keys(new_pairs) =~= pair_keys(old_pairs));
                    lemma_pairs_map_index(old_pairs, i as int);
                }
                self.entries = entries;
                Some(old_value)
            },
            None => {
                let mut entries: Vec<(String, String)> = Vec::new();
                std::mem::swap(&mut entries, &mut self.entries);
                let ghost kv = key@;
                let ghost vv = value@;
                entries.push((key, value));
                proof {
                    let new_pairs = entries@.map_values(|p: (String, String)| pair_view(p));
                    assert(new_pairs =~= old_pairs.push((kv, vv)));
                    assert(new_pairs.drop_last() =~= old_pairs);
                    assert(pair_keys(new_pairs) =~= pair_keys(old_pairs).push(kv));
                    lemma_pairs_map_dom(old_pairs, kv);
                }
                self.entries = entries;
                None
            },
        }
    }
}

impl Clone for ValueMap {
    fn clone(&self) -> (r: Self)
        ensures
            r.view() == self.view(),
            r.pairs() == self.pairs(),
    {
        proof {
            use_type_invariant(self);
        }
        let mut entries: Vec<(String, String)> = Vec::new();
        let mut i: usize = 0;
        while i < self.entries.len()
            invariant
                i <= self.entries@.len(),
                entries@.map_values(|p: (String, String)| pair_view(p)) == self.pairs().take(i as int),
            decreases self.entries@.len() - i,
        {
            let k = self.entries[i].0.clone();
            let v = self.entries[i].1.clone();
            let ghost prev = entries@;
            entries.push((k, v));
            assert(self.pairs()[i as int] == pair_view(self.entries@[i as int]));
            assert(entries@ == prev.push((k, v)));
            assert(entries@.map_values(|p: (String, String)| pair_view(p)) =~= prev.map_values(|p: (String, String)| pair_view(p)).push(pair_view((k, v))));
            assert(entries@.map_values(|p: (String, String)| pair_view(p)) =~= self.pairs().take(i + 1));
            i = i + 1;
        }
        assert(self.pairs().take(i as int) =~= self.pairs());
        ValueMap { entries }
    }
}

} // verus!
