//! The packets in reassembly, each under its key.

use crate::packet::FragmentCacheKey;
use crate::state::{FragmentCacheData, Reassembly};
use vstd::prelude::*;

verus! {

/// Number of seconds from the arrival of the first fragment of a packet, which
/// need not be the fragment with offset 0, after which the packet is given up.
pub const REASSEMBLY_TIMEOUT_SECONDS: u64 = 60;

/// What the caller has to do with the expiry timer of a packet.
///
/// A packet in reassembly has one timer, named by the packet's key. When it
/// fires, the caller hands the key to
/// [`IpLayerFragmentCache::handle_reassembly_timer`].
#[derive(Copy, Clone, Debug, PartialEq, Eq, Structural)]
pub enum TimerAction {
    /// Start the timer of `key`, to fire after `seconds` seconds.
    Schedule { key: FragmentCacheKey, seconds: u64 },
    /// Stop the timer of `key`, which is running.
    Cancel { key: FragmentCacheKey },
}

/// The packets of a cache are well formed: the addresses of each key are of
/// one IP version, and the state kept under it is a well-formed state of a
/// packet of that version.
pub open spec fn cache_wf(cache: Map<FragmentCacheKey, Reassembly>) -> bool {
    forall|key: FragmentCacheKey| #[trigger]
        cache.contains_key(key) ==> key.wf() && cache[key].wf(key.version())
}

/// The state kept under `key`, or that of a packet of which nothing has arrived.
pub open spec fn entry_or_fresh(
    cache: Map<FragmentCacheKey, Reassembly>,
    key: FragmentCacheKey,
) -> Reassembly {
    if cache.contains_key(key) {
        cache[key]
    } else {
        Reassembly::fresh()
    }
}

#[derive(Debug)]
struct CacheEntry {
    key: FragmentCacheKey,
    data: FragmentCacheData,
}

/// The packets in reassembly.
///
/// Every packet in the cache has an expiry timer running, and no other timer
/// runs: the operations that put a packet in or take one out say so in the
/// [`TimerAction`] they return.
#[derive(Debug)]
pub struct IpLayerFragmentCache {
    cache: Vec<CacheEntry>,
}

impl View for IpLayerFragmentCache {
    type V = Map<FragmentCacheKey, Reassembly>;

    closed spec fn view(&self) -> Map<FragmentCacheKey, Reassembly> {
        entries_map(self.cache@)
    }
}

spec fn holds(entries: Seq<CacheEntry>, key: FragmentCacheKey, i: int) -> bool {
    0 <= i < entries.len() && entries[i].key == key
}

spec fn entries_map(entries: Seq<CacheEntry>) -> Map<FragmentCacheKey, Reassembly> {
    Map::new(
        |key: FragmentCacheKey| exists|i: int| holds(entries, key, i),
        |key: FragmentCacheKey| entries[choose|i: int| holds(entries, key, i)].data@,
    )
}

spec fn entries_wf(entries: Seq<CacheEntry>) -> bool {
    &&& forall|i: int, j: int|
        0 <= i < j < entries.len() ==> (#[trigger] entries[i]).key != (#[trigger] entries[j]).key
    &&& forall|i: int|
        0 <= i < entries.len() ==> (#[trigger] entries[i]).key.wf() && entries[i].data.wf(
            entries[i].key.version(),
        )
}

proof fn lemma_entry_at(entries: Seq<CacheEntry>, i: int)
    requires
        entries_wf(entries),
        0 <= i < entries.len(),
    ensures
        entries_map(entries).contains_key(entries[i].key),
        entries_map(entries)[entries[i].key] == entries[i].data@,
{
    let key = entries[i].key;
    assert(holds(entries, key, i));
    let k = choose|k: int| holds(entries, key, k);
    assert(holds(entries, key, k));
    if k < i {
        assert(entries[k].key != entries[i].key);
    } else if i < k {
        assert(entries[i].key != entries[k].key);
    }
}

proof fn lemma_entries_map_wf(entries: Seq<CacheEntry>)
    requires
        entries_wf(entries),
    ensures
        cache_wf(entries_map(entries)),
{
    assert forall|key: FragmentCacheKey| #[trigger]
        entries_map(entries).contains_key(key) implies key.wf() && entries_map(entries)[key].wf(
        key.version(),
    ) by {
        let i = choose|i: int| holds(entries, key, i);
        lemma_entry_at(entries, i);
    }
}

proof fn lemma_entries_updated(entries: Seq<CacheEntry>, i: int, data: FragmentCacheData)
    requires
        entries_wf(entries),
        0 <= i < entries.len(),
    ensures
        entries_map(entries.update(i, CacheEntry { key: entries[i].key, data }))
            == entries_map(entries).insert(entries[i].key, data@),
        data.wf(entries[i].key.version()) ==> entries_wf(
            entries.update(i, CacheEntry { key: entries[i].key, data }),
        ),
{
    let key = entries[i].key;
    let next = entries.update(i, CacheEntry { key, data });
    assert forall|i: int, j: int| 0 <= i < j < next.len() implies (#[trigger] next[i]).key != (
    #[trigger] next[j]).key by {
        assert(entries[i].key != entries[j].key);
    }
    assert forall|other: FragmentCacheKey|
        entries_map(next).contains_key(other) <==> entries_map(entries).insert(
            key,
            data@,
        ).contains_key(other) by {
        if entries_map(next).contains_key(other) {
            let k = choose|k: int| holds(next, other, k);
            assert(holds(entries, other, k));
        }
        if entries_map(entries).contains_key(other) {
            let k = choose|k: int| holds(entries, other, k);
            assert(holds(next, other, k));
        }
        assert(holds(next, key, i));
    }
    assert forall|other: FragmentCacheKey|
        entries_map(next).contains_key(other) implies entries_map(next)[other] == entries_map(
        entries,
    ).insert(key, data@)[other] by {
        let k = choose|k: int| holds(next, other, k);
        assert(holds(next, other, k));
        if k < i {
            assert(entries[k].key != entries[i].key);
        } else if i < k {
            assert(entries[i].key != entries[k].key);
        }
        if other != key {
            assert(holds(entries, other, k));
            lemma_entry_at(entries, k);
        }
    }
    assert(entries_map(next) =~= entries_map(entries).insert(key, data@));
}

proof fn lemma_entries_pushed(entries: Seq<CacheEntry>, entry: CacheEntry)
    requires
        entries_wf(entries),
        !entries_map(entries).contains_key(entry.key),
        entry.key.wf(),
        entry.data.wf(entry.key.version()),
    ensures
        entries_map(entries.push(entry)) == entries_map(entries).insert(entry.key, entry.data@),
        entries_wf(entries.push(entry)),
{
    let next = entries.push(entry);
    assert forall|i: int, j: int| 0 <= i < j < next.len() implies (#[trigger] next[i]).key != (
    #[trigger] next[j]).key by {
        if j == entries.len() {
            assert(holds(entries, entries[i].key, i));
        } else {
            assert(entries[i].key != entries[j].key);
        }
    }
    assert(entries_wf(next));
    assert forall|other: FragmentCacheKey|
        entries_map(next).contains_key(other) <==> entries_map(entries).insert(
            entry.key,
            entry.data@,
        ).contains_key(other) by {
        if entries_map(next).contains_key(other) {
            let k = choose|k: int| holds(next, other, k);
            if k < entries.len() {
                assert(holds(entries, other, k));
            }
        }
        if entries_map(entries).contains_key(other) {
            let k = choose|k: int| holds(entries, other, k);
            assert(holds(next, other, k));
        }
        assert(holds(next, entry.key, entries.len() as int));
    }
    assert forall|other: FragmentCacheKey|
        entries_map(next).contains_key(other) implies entries_map(next)[other] == entries_map(
        entries,
    ).insert(entry.key, entry.data@)[other] by {
        let k = choose|k: int| holds(next, other, k);
        lemma_entry_at(next, k);
        if k < entries.len() {
            assert(holds(entries, other, k));
            lemma_entry_at(entries, k);
        }
    }
    assert(entries_map(next) =~= entries_map(entries).insert(entry.key, entry.data@));
}

proof fn lemma_entries_swap_removed(entries: Seq<CacheEntry>, i: int)
    requires
        entries_wf(entries),
        0 <= i < entries.len(),
    ensures
        entries_map(entries.update(i, entries.last()).drop_last()) == entries_map(entries).remove(
            entries[i].key,
        ),
        entries_wf(entries.update(i, entries.last()).drop_last()),
{
    let key = entries[i].key;
    let last = entries.len() - 1;
    let next = entries.update(i, entries.last()).drop_last();
    assert forall|a: int| 0 <= a < next.len() implies #[trigger] next[a] == entries[if a == i {
        last
    } else {
        a
    }] by {}
    assert forall|a: int, b: int| 0 <= a < b < next.len() implies (#[trigger] next[a]).key != (
    #[trigger] next[b]).key by {
        let a0 = if a == i {
            last
        } else {
            a
        };
        let b0 = if b == i {
            last
        } else {
            b
        };
        if a0 < b0 {
            assert(entries[a0].key != entries[b0].key);
        } else {
            assert(entries[b0].key != entries[a0].key);
        }
    }
    assert(entries_wf(next));
    assert forall|other: FragmentCacheKey|
        entries_map(next).contains_key(other) <==> entries_map(entries).remove(key).contains_key(
            other,
        ) by {
        if entries_map(next).contains_key(other) {
            let k = choose|k: int| holds(next, other, k);
            let k0 = if k == i {
                last
            } else {
                k
            };
            assert(holds(entries, other, k0));
            if k0 < i {
                assert(entries[k0].key != entries[i].key);
            } else {
                assert(entries[i].key != entries[k0].key);
            }
        }
        if entries_map(entries).remove(key).contains_key(other) {
            let k = choose|k: int| holds(entries, other, k);
            assert(holds(entries, other, k));
            if k == last {
                assert(holds(next, other, i));
            } else {
                assert(holds(next, other, k));
            }
        }
    }
    assert forall|other: FragmentCacheKey|
        entries_map(next).contains_key(other) implies entries_map(next)[other] == entries_map(
        entries,
    ).remove(key)[other] by {
        let k = choose|k: int| holds(next, other, k);
        lemma_entry_at(next, k);
        let k0 = if k == i {
            last
        } else {
            k
        };
        lemma_entry_at(entries, k0);
    }
    assert(entries_map(next) =~= entries_map(entries).remove(key));
}

impl IpLayerFragmentCache {
    /// The cache holds what its operations rely on: no key stands twice, and
    /// its packets are well formed, see [`cache_wf`].
    pub closed spec fn wf(&self) -> bool {
        entries_wf(self.cache@)
    }

    /// The packets of a well-formed cache are well formed.
    pub proof fn lemma_wf(&self)
        requires
            self.wf(),
        ensures
            cache_wf(self@),
    {
        lemma_entries_map_wf(self.cache@);
    }

    /// A cache without packets.
    pub fn new() -> (cache: IpLayerFragmentCache)
        ensures
            cache@ == Map::<FragmentCacheKey, Reassembly>::empty(),
            cache.wf(),
    {
        let cache = IpLayerFragmentCache { cache: Vec::new() };
        assert(cache@ =~= Map::<FragmentCacheKey, Reassembly>::empty());
        cache
    }

    fn position(&self, key: &FragmentCacheKey) -> (at: Option<usize>)
        requires
            self.wf(),
        ensures
            match at {
                Some(i) => holds(self.cache@, *key, i as int),
                None => !self@.contains_key(*key),
            },
    {
        let mut i: usize = 0;
        while i < self.cache.len()
            invariant
                i <= self.cache.len(),
                forall|j: int| 0 <= j < i ==> (#[trigger] self.cache@[j]).key != *key,
            decreases self.cache.len() - i,
        {
            if self.cache[i].key == *key {
                return Some(i);
            }
            i += 1;
        }
        proof {
            if self@.contains_key(*key) {
                let k = choose|k: int| holds(self.cache@, *key, k);
                assert(self.cache@[k].key == *key);
            }
        }
        None
    }

    /// Is a packet with this key in reassembly?
    pub fn contains_key(&self, key: &FragmentCacheKey) -> (found: bool)
        requires
            self.wf(),
        ensures
            found == self@.contains_key(*key),
    {
        match self.position(key) {
            Some(i) => {
                proof {
                    lemma_entry_at(self.cache@, i as int);
                }
                true
            },
            None => false,
        }
    }

    /// What is kept of the packet with this key.
    pub fn get(&self, key: &FragmentCacheKey) -> (found: Option<&FragmentCacheData>)
        requires
            self.wf(),
        ensures
            match found {
                Some(data) => self@.contains_key(*key) && data@ == self@[*key] && data.wf(
                    key.version(),
                ),
                None => !self@.contains_key(*key),
            },
    {
        match self.position(key) {
            Some(i) => {
                proof {
                    lemma_entry_at(self.cache@, i as int);
                }
                Some(&self.cache[i].data)
            },
            None => None,
        }
    }

    /// The length of the packet with this key, if it is complete: the number
    /// of bytes that a buffer must have for the packet to be reassembled
    /// into it.
    pub fn ready_len(&self, key: &FragmentCacheKey) -> (len: Option<usize>)
        requires
            self.wf(),
        ensures
            match len {
                Some(len) => self@.contains_key(*key) && self@[*key].is_complete() && len
                    == self@[*key].total_size,
                None => !(self@.contains_key(*key) && self@[*key].is_complete()),
            },
    {
        match self.get(key) {
            Some(data) => if data.missing_blocks.is_empty() {
                Some(data.total_size)
            } else {
                None
            },
            None => None,
        }
    }

    /// What is kept of the packet with this key, to be changed in place. A
    /// packet that is not in the cache yet is put in, with nothing arrived, and
    /// its expiry timer is to be started; the timer of a packet that was there
    /// is left alone.
    pub(crate) fn get_or_create(&mut self, key: &FragmentCacheKey) -> (found: (
        &mut FragmentCacheData,
        Option<TimerAction>,
    ))
        requires
            old(self).wf(),
            key.wf(),
        ensures
            found.0@ == entry_or_fresh(old(self)@, *key),
            found.0.wf(key.version()),
            found.1 == (if old(self)@.contains_key(*key) {
                None
            } else {
                Some(TimerAction::Schedule { key: *key, seconds: REASSEMBLY_TIMEOUT_SECONDS })
            }),
            final(self)@ == old(self)@.insert(*key, final(found.0)@),
            final(found.0).wf(key.version()) ==> final(self).wf(),
    {
        let (at, timer) = match self.position(key) {
            Some(i) => {
                proof {
                    lemma_entry_at(self.cache@, i as int);
                }
                (i, None)
            },
            None => {
                let data = FragmentCacheData::new();
                proof {
                    lemma_entries_pushed(self.cache@, CacheEntry { key: *key, data });
                }
                self.cache.push(CacheEntry { key: *key, data });
                proof {
                    lemma_entry_at(self.cache@, self.cache.len() - 1);
                }
                (
                    self.cache.len() - 1,
                    Some(TimerAction::Schedule { key: *key, seconds: REASSEMBLY_TIMEOUT_SECONDS }),
                )
            },
        };
        let ghost entries = self.cache@;
        assert(entries_map(entries) == old(self)@.insert(*key, entries[at as int].data@));
        assert forall|state: Reassembly|
            (#[trigger] entries_map(entries).insert(*key, state)) == old(self)@.insert(
                *key,
                state,
            ) by {
            assert(old(self)@.insert(*key, entries[at as int].data@).insert(*key, state)
                =~= old(self)@.insert(*key, state));
        }
        proof {
            assert forall|data: FragmentCacheData| true implies {
                &&& #[trigger] entries_map(
                    entries.update(at as int, CacheEntry { key: *key, data }),
                ) == entries_map(entries).insert(*key, data@)
                &&& data.wf(key.version()) ==> entries_wf(
                    entries.update(at as int, CacheEntry { key: *key, data }),
                )
            } by {
                lemma_entries_updated(entries, at as int, data);
            }
        }
        (&mut self.cache[at].data, timer)
    }

    /// Takes the packet with this key out of the cache. Its expiry timer is
    /// left alone: the caller sees to it.
    pub fn remove(&mut self, key: &FragmentCacheKey) -> (taken: Option<FragmentCacheData>)
        requires
            old(self).wf(),
        ensures
            final(self).wf(),
            final(self)@ == old(self)@.remove(*key),
            match taken {
                Some(data) => old(self)@.contains_key(*key) && data@ == old(self)@[*key]
                    && data.wf(key.version()),
                None => !old(self)@.contains_key(*key),
            },
    {
        match self.position(key) {
            Some(i) => {
                proof {
                    lemma_entry_at(self.cache@, i as int);
                    lemma_entries_swap_removed(self.cache@, i as int);
                }
                let entry = self.cache.swap_remove(i);
                Some(entry.data)
            },
            None => {
                assert(self@.remove(*key) =~= self@);
                None
            },
        }
    }

    /// The expiry timer of the packet with this key has fired: the packet
    /// is given up, and what has arrived of it is dropped.
    ///
    /// A timer runs only while its packet is in the cache, so one that fires
    /// finds its packet there.
    pub fn handle_reassembly_timer(&mut self, key: FragmentCacheKey)
        requires
            old(self).wf(),
            old(self)@.contains_key(key),
        ensures
            final(self).wf(),
            final(self)@ == old(self)@.remove(key),
    {
        let _ = self.remove(&key);
    }
}

} // verus!
