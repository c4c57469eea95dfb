//! The generic time-to-live cache: a keyed store of timestamped entries
//! plus summary metadata, with staleness checks against a caller-visible
//! or wall-clock time. Persistence lives elsewhere; this type is pure
//! in-memory data.

use vstd::prelude::*;
use crate::age_of;
use crate::keyed::{KeyedVec, lemma_map_of_len};
use crate::text::str_eq;

verus! {

/// Tags attached to one entry: a string-to-string map.
pub type TagMap = KeyedVec<String>;

/// Summary of a cache: when it last changed and how many entries it
/// holds. Recomputed after every mutation.
#[derive(Debug)]
pub struct CacheMetadata {
    pub last_updated: u64,
    pub total_entries: usize,
}

/// One keyed payload with its write time and tags.
#[derive(Debug)]
pub struct CacheEntry<T> {
    pub data: T,
    pub timestamp: u64,
    pub metadata: TagMap,
}

/// The model of one entry: the payload's view, the write time, and the
/// tag map.
#[verifier::ext_equal]
pub struct EntryModel<D> {
    pub data: D,
    pub timestamp: u64,
    pub tags: Map<Seq<char>, Seq<char>>,
}

impl<T: View> View for CacheEntry<T> {
    type V = EntryModel<T::V>;

    open spec fn view(&self) -> EntryModel<T::V> {
        EntryModel { data: self.data@, timestamp: self.timestamp, tags: self.metadata@ }
    }
}

/// The model of a whole cache.
#[verifier::ext_equal]
pub struct CacheModel<D> {
    pub last_updated: u64,
    pub total_entries: usize,
    pub entries: Map<Seq<char>, EntryModel<D>>,
}

impl<D> CacheModel<D> {
    /// The cache as a whole is stale at time `now` when its age exceeds
    /// `max_age`; a `last_updated` in the future counts as age zero.
    pub open spec fn stale_at(self, now: u64, max_age: u64) -> bool {
        age_of(now, self.last_updated) > max_age
    }

    /// An entry is stale at time `now` when its own age exceeds
    /// `max_age`; a key never inserted is stale by definition.
    pub open spec fn entry_stale_at(self, key: Seq<char>, now: u64, max_age: u64) -> bool {
        if self.entries.contains_key(key) {
            age_of(now, self.entries[key].timestamp) > max_age
        } else {
            true
        }
    }
}

/// The model after inserting `data` under `key` with tags `tags` at
/// time `now`.
pub open spec fn inserted<D>(
    m: CacheModel<D>,
    key: Seq<char>,
    data: D,
    tags: Map<Seq<char>, Seq<char>>,
    now: u64,
) -> CacheModel<D> {
    let entries = m.entries.insert(key, EntryModel { data, timestamp: now, tags });
    CacheModel { last_updated: now, total_entries: entries.len() as usize, entries }
}

/// The model after removing `key` (a no-op on the entries if absent) at
/// time `now`.
pub open spec fn removed<D>(m: CacheModel<D>, key: Seq<char>, now: u64) -> CacheModel<D> {
    let entries = m.entries.remove(key);
    CacheModel { last_updated: now, total_entries: entries.len() as usize, entries }
}

/// The model after clearing every entry at time `now`.
pub open spec fn cleared<D>(m: CacheModel<D>, now: u64) -> CacheModel<D> {
    CacheModel { last_updated: now, total_entries: 0, entries: Map::empty() }
}

/// A keyed store of timestamped entries with summary metadata.
#[derive(Debug)]
pub struct Cache<T> {
    pub metadata: CacheMetadata,
    pub entries: KeyedVec<CacheEntry<T>>,
}

impl<T: View> View for Cache<T> {
    type V = CacheModel<T::V>;

    open spec fn view(&self) -> CacheModel<T::V> {
        CacheModel {
            last_updated: self.metadata.last_updated,
            total_entries: self.metadata.total_entries,
            entries: self.entries@,
        }
    }
}

impl<T: View> Cache<T> {
    /// Well-formed: unique entry keys, well-formed tag maps, and a
    /// summary count that equals the number of entries.
    pub open spec fn wf(&self) -> bool {
        &&& self.entries.wf()
        &&& self.metadata.total_entries == self.entries.pair_seq().len()
        &&& forall|i: int|
            0 <= i < self.entries.pair_seq().len()
                ==> (#[trigger] self.entries.pair_seq()[i]).1.metadata.wf()
    }

    /// An empty cache with `last_updated` and `total_entries` both zero.
    pub fn new() -> (r: Cache<T>)
        ensures
            r.wf(),
            r@.last_updated == 0,
            r@.total_entries == 0,
            r@.entries =~= Map::<Seq<char>, EntryModel<T::V>>::empty(),
            r.entries.pair_seq() =~= Seq::<(String, CacheEntry<T>)>::empty(),
    {
        Cache {
            metadata: CacheMetadata { last_updated: 0, total_entries: 0 },
            entries: KeyedVec::new(),
        }
    }

    /// Inserts `data` under `key` with tags `metadata`, stamping both
    /// the entry and the summary with the caller-supplied time `now`.
    /// Overwrites any entry already at `key`.
    pub fn insert_with_metadata_at(&mut self, key: String, data: T, metadata: TagMap, now: u64)
        requires
            old(self).wf(),
            metadata.wf(),
        ensures
            final(self).wf(),
            final(self)@ =~= inserted(old(self)@, key@, data@, metadata@, now),
    {
        let ghost olds = self.entries.pair_seq();
        let entry = CacheEntry { data, timestamp: now, metadata };
        self.entries.insert(key, entry);
        proof {
            assert forall|i: int| 0 <= i < self.entries.pair_seq().len() implies (
            #[trigger] self.entries.pair_seq()[i]).1.metadata.wf() by {
                if old(self)@.entries.contains_key(key@) {
                    let j = choose|j: int|
                        0 <= j < olds.len() && olds[j].0@ == key@ && self.entries.pair_seq()
                            =~= olds.update(j, (key, entry));
                    if i != j {
                        assert(self.entries.pair_seq()[i] == olds[i]);
                    }
                } else {
                    if i < olds.len() {
                        assert(self.entries.pair_seq()[i] == olds[i]);
                    }
                }
            }
        }
        self.metadata.last_updated = now;
        let n = self.entries.len();
        self.metadata.total_entries = n;
        proof {
            lemma_map_of_len(self.entries.pair_seq());
            assert(self@ =~= inserted(old(self)@, key@, entry.data@, entry.metadata@, now));
        }
    }

    /// `insert_with_metadata_at` stamped with the current wall-clock
    /// time.
    pub fn insert_with_metadata(&mut self, key: String, data: T, metadata: TagMap)
        requires
            old(self).wf(),
            metadata.wf(),
        ensures
            final(self).wf(),
            exists|now: u64| final(self)@ =~= inserted(old(self)@, key@, data@, metadata@, now),
    {
        let now = clock_seconds();
        let ghost k = key@;
        let ghost d = data@;
        let ghost t = metadata@;
        self.insert_with_metadata_at(key, data, metadata, now);
        proof {
            assert(self@ =~= inserted(old(self)@, k, d, t, now));
        }
    }

    /// Inserts with an empty tag map, stamped with the wall-clock time.
    pub fn insert(&mut self, key: String, data: T)
        requires
            old(self).wf(),
        ensures
            final(self).wf(),
            exists|now: u64|
                final(self)@ =~= inserted(
                    old(self)@,
                    key@,
                    data@,
                    Map::<Seq<char>, Seq<char>>::empty(),
                    now,
                ),
    {
        let tags = KeyedVec::<String>::new();
        let ghost tv = tags@;
        self.insert_with_metadata(key, data, tags);
        proof {
            assert(tv =~= Map::<Seq<char>, Seq<char>>::empty());
        }
    }

    /// The payload at `key`, or absent. A miss is a normal outcome, not
    /// a failure.
    pub fn get(&self, key: &str) -> (r: Option<&T>)
        requires
            self.wf(),
        ensures
            match r {
                Some(v) => self@.entries.contains_key(key@) && v@ == self@.entries[key@].data,
                None => !self@.entries.contains_key(key@),
            },
    {
        match self.entries.get(key) {
            Some(e) => Some(&e.data),
            None => None,
        }
    }

    /// The full entry at `key`, or absent.
    pub fn get_entry(&self, key: &str) -> (r: Option<&CacheEntry<T>>)
        requires
            self.wf(),
        ensures
            match r {
                Some(e) => self@.entries.contains_key(key@) && e@ == self@.entries[key@],
                None => !self@.entries.contains_key(key@),
            },
    {
        self.entries.get(key)
    }

    pub fn contains_key(&self, key: &str) -> (r: bool)
        ensures
            r == self@.entries.contains_key(key@),
    {
        self.entries.contains_key(key)
    }

    /// Removes and returns the entry at `key`; the summary is restamped
    /// with the caller-supplied time `now` whether or not a removal
    /// happened.
    pub fn remove_at(&mut self, key: &str, now: u64) -> (r: Option<CacheEntry<T>>)
        requires
            old(self).wf(),
        ensures
            final(self).wf(),
            final(self)@ =~= removed(old(self)@, key@, now),
            match r {
                Some(e) => old(self)@.entries.contains_key(key@) && e@ == old(
                    self,
                )@.entries[key@],
                None => !old(self)@.entries.contains_key(key@),
            },
    {
        let ghost olds = self.entries.pair_seq();
        let r = self.entries.remove(key);
        proof {
            assert forall|i: int| 0 <= i < self.entries.pair_seq().len() implies (
            #[trigger] self.entries.pair_seq()[i]).1.metadata.wf() by {
                if r is Some {
                    let j = choose|j: int|
                        0 <= j < olds.len() && olds[j].0@ == key@ && self.entries.pair_seq()
                            =~= olds.remove(j);
                    if i < j {
                        assert(self.entries.pair_seq()[i] == olds[i]);
                    } else {
                        assert(self.entries.pair_seq()[i] == olds[i + 1]);
                    }
                } else {
                    assert(self.entries.pair_seq()[i] == olds[i]);
                }
            }
        }
        self.metadata.last_updated = now;
        let n = self.entries.len();
        self.metadata.total_entries = n;
        proof {
            lemma_map_of_len(self.entries.pair_seq());
            assert(self@ =~= removed(old(self)@, key@, now));
        }
        r
    }

    /// `remove_at` stamped with the current wall-clock time.
    pub fn remove(&mut self, key: &str) -> (r: Option<CacheEntry<T>>)
        requires
            old(self).wf(),
        ensures
            final(self).wf(),
            exists|now: u64| final(self)@ =~= removed(old(self)@, key@, now),
            match r {
                Some(e) => old(self)@.entries.contains_key(key@) && e@ == old(
                    self,
                )@.entries[key@],
                None => !old(self)@.entries.contains_key(key@),
            },
    {
        let now = clock_seconds();
        let r = self.remove_at(key, now);
        proof {
            assert(self@ =~= removed(old(self)@, key@, now));
        }
        r
    }

    /// A snapshot of all keys, in stored order.
    pub fn keys(&self) -> (r: Vec<String>)
        ensures
            r@.len() == self.entries.pair_seq().len(),
            forall|i: int| 0 <= i < r@.len() ==> r@[i]@ == self.entries.pair_seq()[i].0@,
    {
        self.entries.keys()
    }

    pub fn len(&self) -> (r: usize)
        requires
            self.wf(),
        ensures
            r == self@.entries.len(),
            r == self@.total_entries,
    {
        self.entries.len()
    }

    pub fn is_empty(&self) -> (r: bool)
        requires
            self.wf(),
        ensures
            r == (self@.entries.len() == 0),
    {
        proof {
            lemma_map_of_len(self.entries.pair_seq());
        }
        self.entries.is_empty()
    }

    /// Empties the cache, restamping the summary with the
    /// caller-supplied time `now`.
    pub fn clear_at(&mut self, now: u64)
        ensures
            final(self).wf(),
            final(self)@ =~= cleared(old(self)@, now),
    {
        self.entries.clear();
        self.metadata.last_updated = now;
        self.metadata.total_entries = 0;
        proof {
            assert(self@ =~= cleared(old(self)@, now));
        }
    }

    /// `clear_at` stamped with the current wall-clock time.
    pub fn clear(&mut self)
        ensures
            final(self).wf(),
            exists|now: u64| final(self)@ =~= cleared(old(self)@, now),
    {
        let now = clock_seconds();
        self.clear_at(now);
        proof {
            assert(self@ =~= cleared(old(self)@, now));
        }
    }

    /// Whether the whole cache is stale at the caller-supplied time
    /// `now`.
    pub fn is_stale_at(&self, now: u64, max_age_seconds: u64) -> (r: bool)
        ensures
            r == self@.stale_at(now, max_age_seconds),
    {
        crate::age_between(now, self.metadata.last_updated) > max_age_seconds
    }

    /// `is_stale_at` against the current wall-clock time.
    pub fn is_stale(&self, max_age_seconds: u64) -> (r: bool)
        ensures
            exists|now: u64| r == self@.stale_at(now, max_age_seconds),
    {
        let now = clock_seconds();
        let r = self.is_stale_at(now, max_age_seconds);
        proof {
            assert(r == self@.stale_at(now, max_age_seconds));
        }
        r
    }

    /// Whether the entry at `key` is stale at the caller-supplied time
    /// `now`; a key never inserted is stale by definition.
    pub fn is_entry_stale_at(&self, key: &str, now: u64, max_age_seconds: u64) -> (r: bool)
        requires
            self.wf(),
        ensures
            r == self@.entry_stale_at(key@, now, max_age_seconds),
    {
        match self.entries.get(key) {
            Some(e) => crate::age_between(now, e.timestamp) > max_age_seconds,
            None => true,
        }
    }

    /// `is_entry_stale_at` against the current wall-clock time.
    pub fn is_entry_stale(&self, key: &str, max_age_seconds: u64) -> (r: bool)
        requires
            self.wf(),
        ensures
            exists|now: u64| r == self@.entry_stale_at(key@, now, max_age_seconds),
    {
        let now = clock_seconds();
        let r = self.is_entry_stale_at(key, now, max_age_seconds);
        proof {
            assert(r == self@.entry_stale_at(key@, now, max_age_seconds));
        }
        r
    }

    /// The pairs whose entry tags hold exactly `value` under `key`, in
    /// stored order; entries lacking the tag are excluded.
    pub fn filter_by_metadata<'a>(&'a self, key: &str, value: &str) -> (r: Vec<
        (&'a String, &'a T),
    >)
        requires
            self.wf(),
        ensures
            ({
                let f = tag_filtered(self.entries.pair_seq(), key@, value@);
                &&& r@.len() == f.len()
                &&& forall|i: int|
                    0 <= i < f.len() ==> r@[i].0@ == (#[trigger] f[i]).0@ && r@[i].1@
                        == f[i].1.data@
            }),
    {
        let n = self.entries.len();
        let mut r: Vec<(&'a String, &'a T)> = Vec::new();
        let mut i: usize = 0;
        while i < n
            invariant
                self.wf(),
                n == self.entries.pair_seq().len(),
                i <= n,
                ({
                    let f = tag_filtered(self.entries.pair_seq().take(i as int), key@, value@);
                    &&& r@.len() == f.len()
                    &&& forall|j: int|
                        0 <= j < f.len() ==> r@[j].0@ == (#[trigger] f[j]).0@ && r@[j].1@
                            == f[j].1.data@
                }),
            decreases n - i,
        {
            let ghost pre = self.entries.pair_seq().take(i as int);
            let p = self.entries.pair_at(i);
            let hit = match p.1.metadata.get(key) {
                Some(v) => str_eq(v.as_str(), value),
                None => false,
            };
            if hit {
                r.push((&p.0, &p.1.data));
            }
            proof {
                let s = self.entries.pair_seq();
                assert(s.take(i + 1).drop_last() =~= pre);
                assert(s.take(i + 1).last() == s[i as int]);
            }
            i = i + 1;
        }
        proof {
            assert(self.entries.pair_seq().take(n as int) =~= self.entries.pair_seq());
        }
        r
    }
}

/// The subsequence of `s` whose entries carry exactly the tag pair
/// `k -> v`.
pub open spec fn tag_filtered<T: View>(
    s: Seq<(String, CacheEntry<T>)>,
    k: Seq<char>,
    v: Seq<char>,
) -> Seq<(String, CacheEntry<T>)>
    decreases s.len(),
{
    if s.len() == 0 {
        Seq::empty()
    } else {
        let rest = tag_filtered(s.drop_last(), k, v);
        if s.last().1.metadata@.contains_key(k) && s.last().1.metadata@[k] == v {
            rest.push(s.last())
        } else {
            rest
        }
    }
}

/// Summary consistency: a well-formed cache reports exactly as many
/// entries as it holds, and every mutation above returns a well-formed
/// cache, so the summary count always matches the entry count after any
/// sequence of insert, remove and clear operations.
pub proof fn lemma_summary_consistent<T: View>(c: Cache<T>)
    requires
        c.wf(),
    ensures
        c@.total_entries == c@.entries.len(),
{
    lemma_map_of_len(c.entries.pair_seq());
}

/// A key never inserted is stale by definition, whatever the clock
/// and whatever the maximum age.
pub proof fn lemma_absent_key_stale<D>(m: CacheModel<D>, key: Seq<char>, now: u64, max_age: u64)
    requires
        !m.entries.contains_key(key),
    ensures
        m.entry_stale_at(key, now, max_age),
{
}

/// Staleness is monotonic in the clock: a cache stale at an earlier
/// time stays stale at any later time; it is fresh at any time not past
/// `last_updated + max_age` and stale at any time beyond it.
pub proof fn lemma_staleness_monotonic<D>(m: CacheModel<D>, max_age: u64, early: u64, late: u64)
    requires
        early <= late,
    ensures
        m.stale_at(early, max_age) ==> m.stale_at(late, max_age),
        early <= m.last_updated + max_age ==> !m.stale_at(early, max_age),
        late > m.last_updated + max_age ==> m.stale_at(late, max_age),
{
}

/// Immediately after any mutation stamped with time `now`, the cache is
/// not stale at `now`, whatever the maximum age.
pub proof fn lemma_fresh_after_mutation<D>(
    m: CacheModel<D>,
    key: Seq<char>,
    data: D,
    tags: Map<Seq<char>, Seq<char>>,
    now: u64,
    max_age: u64,
)
    ensures
        !inserted(m, key, data, tags, now).stale_at(now, max_age),
        !removed(m, key, now).stale_at(now, max_age),
        !cleared(m, now).stale_at(now, max_age),
{
}

/// Relies on `std::time::SystemTime::now`, read against
/// `std::time::UNIX_EPOCH` as whole seconds; a clock before the epoch
/// reads as zero. The result depends on the wall clock, so nothing is
/// assumed of it.
#[verifier::external_body]
pub(crate) fn clock_seconds() -> u64 {
    match std::time::SystemTime::now().duration_since(std::time::UNIX_EPOCH) {
        Ok(d) => d.as_secs(),
        Err(_) => 0,
    }
}

} // verus!
