//! The extra request headers of a route: a small map from header name to
//! value in which no name occurs twice.
use crate::text::str_eq;
use vstd::prelude::*;

verus! {

/// Value that `pairs` gives for `key`.
pub open spec fn lookup(pairs: Seq<(Seq<char>, Seq<char>)>, key: Seq<char>) -> Option<Seq<char>>
    decreases pairs.len(),
{
    if pairs.len() == 0 {
        None
    } else if pairs.last().0 == key {
        Some(pairs.last().1)
    } else {
        lookup(pairs.drop_last(), key)
    }
}

pub open spec fn distinct_keys(pairs: Seq<(Seq<char>, Seq<char>)>) -> bool {
    forall|i: int, j: int| 0 <= i < j < pairs.len() ==> pairs[i].0 != pairs[j].0
}

/// Header name to value, each name once.
#[derive(Debug)]
pub struct RouteHeaders {
    entries: Vec<(String, String)>,
}

impl RouteHeaders {
    /// The (name, value) pairs, in the order in which they are forwarded.
    pub closed spec fn pairs(self) -> Seq<(Seq<char>, Seq<char>)> {
        self.entries@.map_values(|e: (String, String)| (e.0@, e.1@))
    }

    #[verifier::type_invariant]
    spec fn keys_distinct(self) -> bool {
        distinct_keys(self.pairs())
    }

    /// An empty map.
    pub fn new() -> (h: Self)
        ensures
            h.pairs() == Seq::<(Seq<char>, Seq<char>)>::empty(),
    {
        let h = RouteHeaders { entries: Vec::new() };
        assert(h.pairs() =~= Seq::<(Seq<char>, Seq<char>)>::empty());
        h
    }

    /// Number of names.
    pub fn len(&self) -> (n: usize)
        ensures
            n == self.pairs().len(),
    {
        self.entries.len()
    }

    /// The `i`-th (name, value) pair.
    pub fn entry(&self, i: usize) -> (e: (&String, &String))
        requires
            i < self.pairs().len(),
        ensures
            (e.0@, e.1@) == self.pairs()[i as int],
    {
        (&self.entries[i].0, &self.entries[i].1)
    }

    /// Position of `key`, if present.
    fn position(&self, key: &str) -> (r: Option<usize>)
        ensures
            match r {
                Some(i) => i < self.pairs().len() && self.pairs()[i as int].0 == key@,
                None => forall|i: int|
                    0 <= i < self.pairs().len() ==> self.pairs()[i].0 != key@,
            },
    {
        let mut i: usize = 0;
        while i < self.entries.len()
            invariant
                i <= self.entries.len(),
                self.pairs().len() == self.entries.len(),
                forall|j: int| 0 <= j < i ==> self.pairs()[j].0 != key@,
            decreases self.entries.len() - i,
        {
            if str_eq(self.entries[i].0.as_str(), key) {
                return Some(i);
            }
            i = i + 1;
        }
        None
    }

    /// The value stored under `key` (`HashMap::get`).
    pub fn get(&self, key: &str) -> (r: Option<&String>)
        ensures
            match r {
                Some(v) => lookup(self.pairs(), key@) == Some(v@),
                None => lookup(self.pairs(), key@) is None,
            },
    {
        proof {
            use_type_invariant(self);
        }
        match self.position(key) {
            Some(i) => {
                proof {
                    lemma_lookup_at(self.pairs(), i as int);
                }
                Some(&self.entries[i].1)
            },
            None => {
                proof {
                    lemma_lookup_absent(self.pairs(), key@);
                }
                None
            },
        }
    }

    /// Stores `value` under `key`, replacing an earlier value
    /// (`HashMap::insert`); returns the value replaced.
    pub fn insert(&mut self, key: String, value: String) -> (r: Option<String>)
        ensures
            forall|k: Seq<char>|
                lookup(final(self).pairs(), k) == if k == key@ {
                    Some(value@)
                } else {
                    lookup(old(self).pairs(), k)
                },
            match r {
                Some(v) => lookup(old(self).pairs(), key@) == Some(v@) && exists|i: int|
                    0 <= i < old(self).pairs().len() && (#[trigger] old(self).pairs()[i]).0 == key@
                        && final(self).pairs() == old(self).pairs().update(i, (key@, value@)),
                None => lookup(old(self).pairs(), key@) is None && final(self).pairs() == old(
                    self,
                ).pairs().push((key@, value@)),
            },
    {
        proof {
            use_type_invariant(&*self);
        }
        let ghost old_pairs = self.pairs();
        let pos = self.position(key.as_str());
        let mut entries: Vec<(String, String)> = Vec::new();
        std::mem::swap(&mut entries, &mut self.entries);
        assert(entries@.map_values(|e: (String, String)| (e.0@, e.1@)) == old_pairs);
        match pos {
            Some(i) => {
                let ghost kv = (key@, value@);
                let (_, old_value) = entries.remove(i);
                entries.insert(i, (key, value));
                let ghost new_pairs = entries@.map_values(|e: (String, String)| (e.0@, e.1@));
                assert(new_pairs =~= old_pairs.update(i as int, kv));
                proof {
                    lemma_lookup_at(old_pairs, i as int);
                    lemma_lookup_update(old_pairs, i as int, kv);
                    assert(distinct_keys(new_pairs));
                }
                self.entries = entries;
                Some(old_value)
            },
            None => {
                let ghost kv = (key@, value@);
                entries.push((key, value));
                let ghost new_pairs = entries@.map_values(|e: (String, String)| (e.0@, e.1@));
                assert(new_pairs =~= old_pairs.push(kv));
                proof {
                    lemma_lookup_absent(old_pairs, kv.0);
                    assert(new_pairs.drop_last() =~= old_pairs);
                    assert(distinct_keys(new_pairs));
                }
                self.entries = entries;
                None
            },
        }
    }
}

impl Clone for RouteHeaders {
    fn clone(&self) -> (h: Self)
        ensures
            h.pairs() == self.pairs(),
    {
        proof {
            use_type_invariant(self);
        }
        let mut entries: Vec<(String, String)> = Vec::new();
        let mut i: usize = 0;
        while i < self.entries.len()
            invariant
                i <= self.entries.len(),
                entries@.len() == i,
                forall|j: int|
                    0 <= j < i ==> (#[trigger] entries@[j]).0@ == self.entries@[j].0@
                        && entries@[j].1@ == self.entries@[j].1@,
            decreases self.entries.len() - i,
        {
            entries.push((self.entries[i].0.clone(), self.entries[i].1.clone()));
            i = i + 1;
        }
        assert(entries@.map_values(|e: (String, String)| (e.0@, e.1@)) =~= self.pairs());
        let h = RouteHeaders { entries };
        h
    }
}

impl Default for RouteHeaders {
    fn default() -> (h: Self)
        ensures
            h.pairs() == Seq::<(Seq<char>, Seq<char>)>::empty(),
    {
        RouteHeaders::new()
    }
}

/// With distinct names, the value stored at a position is what the lookup gives.
pub proof fn lemma_lookup_at(pairs: Seq<(Seq<char>, Seq<char>)>, i: int)
    requires
        distinct_keys(pairs),
        0 <= i < pairs.len(),
    ensures
        lookup(pairs, pairs[i].0) == Some(pairs[i].1),
    decreases pairs.len(),
{
    if i < pairs.len() - 1 {
        assert(pairs.last().0 != pairs[i].0);
        lemma_lookup_at(pairs.drop_last(), i);
    }
}

/// A name found nowhere has no value.
pub proof fn lemma_lookup_absent(pairs: Seq<(Seq<char>, Seq<char>)>, key: Seq<char>)
    requires
        forall|i: int| 0 <= i < pairs.len() ==> pairs[i].0 != key,
    ensures
        lookup(pairs, key) is None,
    decreases pairs.len(),
{
    if pairs.len() > 0 {
        assert(pairs.last().0 != key);
        lemma_lookup_absent(pairs.drop_last(), key);
    }
}

/// Replacing the pair at a position with one of the same name changes only
/// that name's value.
pub proof fn lemma_lookup_update(
    pairs: Seq<(Seq<char>, Seq<char>)>,
    i: int,
    kv: (Seq<char>, Seq<char>),
)
    requires
        distinct_keys(pairs),
        0 <= i < pairs.len(),
        pairs[i].0 == kv.0,
    ensures
        forall|k: Seq<char>|
            lookup(pairs.update(i, kv), k) == if k == kv.0 {
                Some(kv.1)
            } else {
                lookup(pairs, k)
            },
        distinct_keys(pairs.update(i, kv)),
    decreases pairs.len(),
{
    let q = pairs.update(i, kv);
    assert(distinct_keys(q)) by {
        assert forall|a: int, b: int| 0 <= a < b < q.len() implies q[a].0 != q[b].0 by {
            assert(q[a].0 == pairs[a].0);
            assert(q[b].0 == pairs[b].0);
        }
    }
    assert forall|k: Seq<char>|
        lookup(q, k) == if k == kv.0 {
            Some(kv.1)
        } else {
            lookup(pairs, k)
        } by {
        if k == kv.0 {
            lemma_lookup_at(q, i);
        } else {
            lemma_lookup_other(pairs, i, kv, k);
        }
    }
}

/// Replacing one pair leaves the lookup of every other name as it was.
pub proof fn lemma_lookup_other(
    pairs: Seq<(Seq<char>, Seq<char>)>,
    i: int,
    kv: (Seq<char>, Seq<char>),
    k: Seq<char>,
)
    requires
        0 <= i < pairs.len(),
        pairs[i].0 == kv.0,
        k != kv.0,
    ensures
        lookup(pairs.update(i, kv), k) == lookup(pairs, k),
    decreases pairs.len(),
{
    let q = pairs.update(i, kv);
    if i < pairs.len() - 1 {
        assert(q.drop_last() =~= pairs.drop_last().update(i, kv));
        lemma_lookup_other(pairs.drop_last(), i, kv, k);
    } else {
        assert(q.drop_last() =~= pairs.drop_last());
    }
}

} // verus!
