//! A keyed store backed by a vector of `(String, V)` pairs with unique
//! keys. Its model is a `Map<Seq<char>, V::V>` from key characters to
//! value views; the pair sequence itself stays visible so that callers
//! can also speak of the (insertion) order of the pairs.

use vstd::prelude::*;
use crate::text::str_eq;

verus! {

/// Unique keys: no two pairs share a key.
pub open spec fn unique_keys<V>(s: Seq<(String, V)>) -> bool {
    forall|i: int, j: int| 0 <= i < j < s.len() ==> s[i].0@ != s[j].0@
}

/// The map described by an association list; a later pair for the same
/// key wins, though under `unique_keys` that never arises.
pub open spec fn map_of<V: View>(s: Seq<(String, V)>) -> Map<Seq<char>, V::V>
    decreases s.len(),
{
    if s.len() == 0 {
        Map::empty()
    } else {
        map_of(s.drop_last()).insert(s.last().0@, s.last().1@)
    }
}

pub proof fn lemma_map_of_contains<V: View>(s: Seq<(String, V)>, k: Seq<char>)
    ensures
        map_of(s).contains_key(k) <==> exists|i: int| 0 <= i < s.len() && s[i].0@ == k,
    decreases s.len(),
{
    if s.len() > 0 {
        lemma_map_of_contains(s.drop_last(), k);
        if s.last().0@ == k {
            assert(s[s.len() - 1].0@ == k);
        } else if map_of(s).contains_key(k) {
            let i = choose|i: int| 0 <= i < s.drop_last().len() && s.drop_last()[i].0@ == k;
            assert(s[i].0@ == k);
        } else {
            assert forall|i: int| 0 <= i < s.len() implies s[i].0@ != k by {
                if i < s.len() - 1 {
                    assert(s.drop_last()[i].0@ == s[i].0@);
                }
            }
        }
    }
}

pub proof fn lemma_map_of_index<V: View>(s: Seq<(String, V)>, i: int)
    requires
        unique_keys(s),
        0 <= i < s.len(),
    ensures
        map_of(s).contains_key(s[i].0@),
        map_of(s)[s[i].0@] == s[i].1@,
    decreases s.len(),
{
    if i == s.len() - 1 {
        lemma_map_of_contains(s, s[i].0@);
    } else {
        assert(s.drop_last()[i] == s[i]);
        lemma_map_of_index(s.drop_last(), i);
        assert(s[i].0@ != s.last().0@);
    }
}

pub proof fn lemma_map_of_len<V: View>(s: Seq<(String, V)>)
    requires
        unique_keys(s),
    ensures
        map_of(s).dom().finite(),
        map_of(s).len() == s.len(),
    decreases s.len(),
{
    if s.len() > 0 {
        lemma_map_of_len(s.drop_last());
        lemma_map_of_contains(s.drop_last(), s.last().0@);
        assert forall|i: int| 0 <= i < s.drop_last().len() implies s.drop_last()[i].0@
            != s.last().0@ by {
            assert(s[i].0@ == s.drop_last()[i].0@);
            assert(s[i].0@ != s[s.len() - 1].0@);
        }
        assert(!map_of(s.drop_last()).contains_key(s.last().0@));
    }
}

pub proof fn lemma_map_of_update<V: View>(s: Seq<(String, V)>, i: int, p: (String, V))
    requires
        unique_keys(s),
        0 <= i < s.len(),
        p.0@ == s[i].0@,
    ensures
        map_of(s.update(i, p)) =~= map_of(s).insert(p.0@, p.1@),
    decreases s.len(),
{
    if i == s.len() - 1 {
        assert(s.update(i, p).drop_last() =~= s.drop_last());
    } else {
        assert(s.update(i, p).drop_last() =~= s.drop_last().update(i, p));
        assert(s.update(i, p).last() == s.last());
        lemma_map_of_update(s.drop_last(), i, p);
        assert(s[i].0@ != s.last().0@);
    }
}

pub proof fn lemma_map_of_remove<V: View>(s: Seq<(String, V)>, i: int)
    requires
        unique_keys(s),
        0 <= i < s.len(),
    ensures
        map_of(s.remove(i)) =~= map_of(s).remove(s[i].0@),
    decreases s.len(),
{
    if i == s.len() - 1 {
        assert(s.remove(i) =~= s.drop_last());
        lemma_map_of_contains(s.drop_last(), s[i].0@);
        assert forall|j: int| 0 <= j < s.drop_last().len() implies s.drop_last()[j].0@
            != s[i].0@ by {
            assert(s[j].0@ == s.drop_last()[j].0@);
        }
        assert(!map_of(s.drop_last()).contains_key(s[i].0@));
        assert(map_of(s.drop_last()).remove(s[i].0@) =~= map_of(s.drop_last()));
    } else {
        assert(s.remove(i).drop_last() =~= s.drop_last().remove(i));
        assert(s.remove(i).last() == s.last());
        lemma_map_of_remove(s.drop_last(), i);
        assert(s[i].0@ != s.last().0@);
        assert(s.drop_last()[i] == s[i]);
    }
}

/// A keyed store with unique `String` keys.
#[derive(Debug)]
pub struct KeyedVec<V> {
    pairs: Vec<(String, V)>,
}

impl<V: View> View for KeyedVec<V> {
    type V = Map<Seq<char>, V::V>;

    open spec fn view(&self) -> Map<Seq<char>, V::V> {
        map_of(self.pair_seq())
    }
}

impl<V: View> KeyedVec<V> {
    /// The stored pairs, in order.
    pub closed spec fn pair_seq(&self) -> Seq<(String, V)> {
        self.pairs@
    }

    /// Well-formed: keys are unique.
    pub open spec fn wf(&self) -> bool {
        unique_keys(self.pair_seq())
    }

    pub fn new() -> (r: KeyedVec<V>)
        ensures
            r.wf(),
            r.pair_seq() =~= Seq::<(String, V)>::empty(),
            r@ =~= Map::<Seq<char>, V::V>::empty(),
    {
        KeyedVec { pairs: Vec::new() }
    }

    /// The index of the pair holding `key`, if any.
    fn index_of(&self, key: &str) -> (r: Option<usize>)
        ensures
            match r {
                Some(i) => i < self.pair_seq().len() && self.pair_seq()[i as int].0@ == key@,
                None => forall|i: int|
                    0 <= i < self.pair_seq().len() ==> self.pair_seq()[i].0@ != key@,
            },
    {
        let n = self.pairs.len();
        let mut i: usize = 0;
        while i < n
            invariant
                n == self.pair_seq().len(),
                i <= n,
                forall|j: int| 0 <= j < i ==> self.pair_seq()[j].0@ != key@,
            decreases n - i,
        {
            if str_eq(self.pairs[i].0.as_str(), key) {
                return Some(i);
            }
            i = i + 1;
        }
        None
    }

    pub fn len(&self) -> (r: usize)
        ensures
            r == self.pair_seq().len(),
            self.wf() ==> r == self@.len(),
    {
        proof {
            if self.wf() {
                lemma_map_of_len(self.pair_seq());
            }
        }
        self.pairs.len()
    }

    pub fn is_empty(&self) -> (r: bool)
        ensures
            r == (self.pair_seq().len() == 0),
    {
        self.pairs.len() == 0
    }

    pub fn contains_key(&self, key: &str) -> (r: bool)
        ensures
            r == self@.contains_key(key@),
    {
        proof {
            lemma_map_of_contains(self.pair_seq(), key@);
        }
        match self.index_of(key) {
            Some(_) => true,
            None => false,
        }
    }

    pub fn get(&self, key: &str) -> (r: Option<&V>)
        requires
            self.wf(),
        ensures
            match r {
                Some(v) => self@.contains_key(key@) && v@ == self@[key@],
                None => !self@.contains_key(key@),
            },
    {
        proof {
            lemma_map_of_contains(self.pair_seq(), key@);
        }
        match self.index_of(key) {
            Some(i) => {
                proof {
                    lemma_map_of_index(self.pair_seq(), i as int);
                }
                Some(&self.pairs[i].1)
            },
            None => None,
        }
    }

    /// Inserts or overwrites; an existing pair keeps its place in the
    /// order, a new pair goes to the end.
    pub fn insert(&mut self, key: String, value: V)
        requires
            old(self).wf(),
        ensures
            final(self).wf(),
            final(self)@ =~= old(self)@.insert(key@, value@),
            old(self)@.contains_key(key@) ==> exists|i: int|
                0 <= i < old(self).pair_seq().len() && old(self).pair_seq()[i].0@ == key@
                    && final(self).pair_seq() =~= old(self).pair_seq().update(i, (key, value)),
            !old(self)@.contains_key(key@) ==> final(self).pair_seq() =~= old(
                self,
            ).pair_seq().push((key, value)),
    {
        proof {
            lemma_map_of_contains(self.pair_seq(), key@);
        }
        match self.index_of(key.as_str()) {
            Some(i) => {
                let ghost olds = self.pair_seq();
                let ghost gi = i as int;
                self.pairs[i] = (key, value);
                proof {
                    let p = self.pair_seq()[gi];
                    assert(self.pair_seq() =~= olds.update(gi, p));
                    lemma_map_of_update(olds, gi, p);
                    assert forall|a: int, b: int|
                        0 <= a < b < self.pair_seq().len() implies self.pair_seq()[a].0@
                        != self.pair_seq()[b].0@ by {
                        assert(olds[a].0@ != olds[b].0@);
                    }
                }
            },
            None => {
                let ghost olds = self.pair_seq();
                self.pairs.push((key, value));
                proof {
                    let p = self.pair_seq().last();
                    assert(self.pair_seq().drop_last() =~= olds);
                    assert(self.pair_seq() =~= olds.push(p));
                    assert forall|a: int, b: int|
                        0 <= a < b < self.pair_seq().len() implies self.pair_seq()[a].0@
                        != self.pair_seq()[b].0@ by {
                        if b < self.pair_seq().len() - 1 {
                            assert(olds[a].0@ != olds[b].0@);
                        }
                    }
                }
            },
        }
    }

    /// Removes the pair holding `key`, returning its value.
    pub fn remove(&mut self, key: &str) -> (r: Option<V>)
        requires
            old(self).wf(),
        ensures
            final(self).wf(),
            final(self)@ =~= old(self)@.remove(key@),
            match r {
                Some(v) => old(self)@.contains_key(key@) && v@ == old(self)@[key@] && exists|
                    i: int,
                |
                    0 <= i < old(self).pair_seq().len() && old(self).pair_seq()[i].0@ == key@
                        && final(self).pair_seq() =~= old(self).pair_seq().remove(i),
                None => !old(self)@.contains_key(key@) && final(self).pair_seq() =~= old(
                    self,
                ).pair_seq(),
            },
    {
        proof {
            lemma_map_of_contains(self.pair_seq(), key@);
        }
        match self.index_of(key) {
            Some(i) => {
                let ghost olds = self.pair_seq();
                let ghost gi = i as int;
                proof {
                    lemma_map_of_index(olds, gi);
                    lemma_map_of_remove(olds, gi);
                }
                let (_, v) = self.pairs.remove(i);
                proof {
                    assert(self.pair_seq() =~= olds.remove(gi));
                    assert forall|a: int, b: int|
                        0 <= a < b < self.pair_seq().len() implies self.pair_seq()[a].0@
                        != self.pair_seq()[b].0@ by {
                        let a0 = if a < gi {
                            a
                        } else {
                            a + 1
                        };
                        let b0 = if b < gi {
                            b
                        } else {
                            b + 1
                        };
                        assert(olds[a0].0@ != olds[b0].0@);
                    }
                }
                Some(v)
            },
            None => {
                proof {
                    assert(old(self)@.remove(key@) =~= old(self)@);
                }
                None
            },
        }
    }

    /// Drops every pair.
    pub fn clear(&mut self)
        ensures
            final(self).wf(),
            final(self).pair_seq() =~= Seq::<(String, V)>::empty(),
            final(self)@ =~= Map::<Seq<char>, V::V>::empty(),
    {
        self.pairs.clear();
    }

    /// A snapshot of the keys, in pair order.
    pub fn keys(&self) -> (r: Vec<String>)
        ensures
            r@.len() == self.pair_seq().len(),
            forall|i: int| 0 <= i < r@.len() ==> r@[i]@ == self.pair_seq()[i].0@,
    {
        let n = self.pairs.len();
        let mut r: Vec<String> = Vec::new();
        let mut i: usize = 0;
        while i < n
            invariant
                n == self.pair_seq().len(),
                i <= n,
                r@.len() == i,
                forall|j: int| 0 <= j < i ==> r@[j]@ == self.pair_seq()[j].0@,
            decreases n - i,
        {
            r.push(self.pairs[i].0.clone());
            i = i + 1;
        }
        r
    }

    /// The pair at position `i`.
    pub fn pair_at(&self, i: usize) -> (r: &(String, V))
        requires
            i < self.pair_seq().len(),
        ensures
            *r == self.pair_seq()[i as int],
    {
        &self.pairs[i]
    }
}

} // verus!
