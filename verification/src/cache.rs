//! A small least-recently-used cache keyed by strings, with a builder
//! for its time-to-live and capacity settings.

use vstd::prelude::*;
use crate::binio::str_eq;

verus! {

/// A bounded cache: at most `max_size` entries (when positive), oldest
/// evicted first.
pub struct LRUCache<V> {
    ttl: u32,
    max_size: u32,
    entries: Vec<(String, V)>,
}

impl<V> LRUCache<V> {
    /// The cached entries, oldest first.
    pub closed spec fn spec_entries(&self) -> Seq<(Seq<char>, V)> {
        Seq::new(self.entries@.len(), |i: int| (self.entries@[i].0@, self.entries@[i].1))
    }

    /// The configured time-to-live.
    pub closed spec fn spec_ttl(&self) -> u32 {
        self.ttl
    }

    /// The configured capacity; zero means unbounded.
    pub closed spec fn spec_max_size(&self) -> u32 {
        self.max_size
    }

    /// The first value cached under `key`, if any.
    pub fn get(&self, key: String) -> (r: Option<&V>)
        ensures
            r matches Some(v) ==> exists|i: int|
                0 <= i < self.spec_entries().len() && #[trigger] self.spec_entries()[i] == (
                key@,
                *v,
                ),
            r is None ==> forall|i: int|
                0 <= i < self.spec_entries().len() ==> (#[trigger] self.spec_entries()[i]).0
                    != key@,
    {
        let n = self.entries.len();
        let mut i: usize = 0;
        while i < n
            invariant
                0 <= i <= n,
                n == self.spec_entries().len(),
                forall|j: int| 0 <= j < i ==> (#[trigger] self.spec_entries()[j]).0 != key@,
            decreases n - i,
        {
            if str_eq(self.entries[i].0.as_str(), key.as_str()) {
                proof {
                    assert(self.spec_entries()[i as int] == (key@, self.entries@[i as int].1));
                }
                return Some(&self.entries[i].1);
            }
            i = i + 1;
        }
        None
    }

    /// Caches `val` under `key` at the newest position, evicting the
    /// oldest entry when the cache is full.
    pub fn save(&mut self, key: String, val: V)
        ensures
            final(self).spec_entries() == (
            if old(self).spec_max_size() > 0 && old(self).spec_entries().len() >= old(
                self,
            ).spec_max_size() && old(self).spec_entries().len() > 0 {
                old(self).spec_entries().drop_first()
            } else {
                old(self).spec_entries()
            }).push((key@, val)),
            final(self).spec_ttl() == old(self).spec_ttl(),
            final(self).spec_max_size() == old(self).spec_max_size(),
    {
        let ghost entries0 = self.spec_entries();
        if self.max_size > 0 && self.entries.len() >= self.max_size as usize
            && self.entries.len() > 0 {
            self.entries.remove(0);
            proof {
                assert(self.spec_entries() =~= entries0.drop_first());
            }
        }
        let ghost mid = self.spec_entries();
        self.entries.push((key, val));
        proof {
            assert(self.spec_entries() =~= mid.push(
                (self.entries@.last().0@, self.entries@.last().1),
            ));
        }
    }
}

/// Collects the settings an `LRUCache` is built with.
pub struct LRUCacheBuilder<V> {
    ttl: u32,
    max_size: u32,
    marker: core::marker::PhantomData<V>,
}

impl<V> LRUCacheBuilder<V> {
    /// The time-to-live collected so far.
    pub closed spec fn spec_ttl(&self) -> u32 {
        self.ttl
    }

    /// The capacity collected so far.
    pub closed spec fn spec_max_size(&self) -> u32 {
        self.max_size
    }

    /// A builder with every setting at zero.
    pub fn new() -> (r: LRUCacheBuilder<V>)
        ensures
            r.spec_ttl() == 0,
            r.spec_max_size() == 0,
    {
        LRUCacheBuilder { ttl: 0, max_size: 0, marker: core::marker::PhantomData }
    }

    /// Sets the time-to-live.
    pub fn with_ttl(self, ttl: u32) -> (r: LRUCacheBuilder<V>)
        ensures
            r.spec_ttl() == ttl,
            r.spec_max_size() == self.spec_max_size(),
    {
        LRUCacheBuilder { ttl, max_size: self.max_size, marker: core::marker::PhantomData }
    }

    /// Sets the capacity.
    pub fn with_max_size(self, max_size: u32) -> (r: LRUCacheBuilder<V>)
        ensures
            r.spec_ttl() == self.spec_ttl(),
            r.spec_max_size() == max_size,
    {
        LRUCacheBuilder { ttl: self.ttl, max_size, marker: core::marker::PhantomData }
    }

    /// An empty cache with the collected settings.
    pub fn build(self) -> (r: LRUCache<V>)
        ensures
            r.spec_ttl() == self.spec_ttl(),
            r.spec_max_size() == self.spec_max_size(),
            r.spec_entries().len() == 0,
    {
        let r = LRUCache { ttl: self.ttl, max_size: self.max_size, entries: Vec::new() };
        proof {
            assert(r.spec_entries() =~= Seq::<(Seq<char>, V)>::empty());
        }
        r
    }
}

impl<V> Default for LRUCacheBuilder<V> {
    /// A builder with every setting at zero.
    fn default() -> (r: LRUCacheBuilder<V>)
        ensures
            r.spec_ttl() == 0,
            r.spec_max_size() == 0,
    {
        LRUCacheBuilder::new()
    }
}

} // verus!
