use vstd::prelude::*;

use crate::crypt::SqlCrypt;
use crate::crypt::spec_session;
use crate::crypt::to_owned_bytes;

verus! {

/// Capacity of the key-addressed session cache.
pub const CACHE_CAP: usize = 16;

/// What the cached keys look like after a key is asked for: the key moves to
/// the front (whether it was cached or freshly built), and at capacity the
/// least recently used key falls off the end.
pub open spec fn spec_cache_touch(keys: Seq<Seq<u8>>, k: Seq<u8>) -> Seq<Seq<u8>> {
    let moved = seq![k] + keys.remove_value(k);
    if moved.len() <= CACHE_CAP {
        moved
    } else {
        moved.take(CACHE_CAP as int)
    }
}

/// A bounded, key-addressed cache of ready-built cipher sessions, most
/// recently used first. A hit hands out a copy of the pristine stored
/// session, so every retrieval yields an independently stateful session;
/// a miss builds the tables once and stores them.
pub struct InstanceCache {
    entries: Vec<(Vec<u8>, SqlCrypt)>,
}

impl View for InstanceCache {
    type V = Seq<Seq<u8>>;

    /// The cached keys, most recently used first.
    closed spec fn view(&self) -> Seq<Seq<u8>> {
        Seq::new(self.entries@.len(), |i: int| self.entries@[i].0@)
    }
}

impl InstanceCache {
    /// Every entry holds the pristine session its key determines, keys are
    /// distinct, and the cache is within capacity.
    pub closed spec fn wf(self) -> bool {
        &&& self.entries@.len() <= CACHE_CAP
        &&& forall|i: int, j: int|
            0 <= i < j < self.entries@.len() ==> self.entries@[i].0@ != self.entries@[j].0@
        &&& forall|i: int|
            0 <= i < self.entries@.len() ==> (#[trigger] self.entries@[i]).1@ == spec_session(
                self.entries@[i].0@,
            )
    }

    /// An empty cache.
    pub fn new() -> (c: InstanceCache)
        ensures
            c.wf(),
            c@ == Seq::<Seq<u8>>::empty(),
    {
        let c = InstanceCache { entries: Vec::new() };
        proof {
            assert(c@ =~= Seq::<Seq<u8>>::empty());
        }
        c
    }

    /// How many keys are cached.
    pub fn len(&self) -> (n: usize)
        ensures
            n == self@.len(),
    {
        self.entries.len()
    }

    /// Looks the key up; on a hit, moves it to the front and hands out a copy
    /// of the stored pristine session, on a miss builds the session, caches
    /// it, and evicts the least recently used entry if at capacity. Either
    /// way the caller receives exactly the fresh session the key determines,
    /// with its own cursor and register.
    #[verifier::rlimit(100)]
    pub fn get_or_build(&mut self, key: &[u8]) -> (s: SqlCrypt)
        requires
            old(self).wf(),
        ensures
            final(self).wf(),
            s@ == spec_session(key@),
            s@.wf(),
            final(self)@ == spec_cache_touch(old(self)@, key@),
    {
        let n = self.entries.len();
        let mut i: usize = 0;
        while i < n
            invariant
                0 <= i <= n,
                *self == *old(self),
                old(self).wf(),
                n == self.entries@.len(),
                forall|k: int| 0 <= k < i ==> self.entries@[k].0@ != key@,
            decreases n - i,
        {
            if bytes_equal(&self.entries[i].0, key) {
                let ghost ov = self@;
                let ghost oldentries = self.entries@;
                let entry = self.entries.remove(i);
                let s = entry.1;
                self.entries.insert(0, entry);
                proof {
                    crate::laws::lemma_session_wf(key@);
                    assert(ov[i as int] == key@);
                    assert(ov.contains(key@));
                    ov.index_of_first_ensures(key@);
                    let idx = ov.index_of_first(key@).unwrap();
                    assert(idx == i as int);
                    assert(ov.remove_value(key@) == ov.remove(i as int));
                    assert(self.entries@ == oldentries.remove(i as int).insert(0, entry));
                    assert(self@ =~= seq![key@] + ov.remove(i as int));
                    assert((seq![key@] + ov.remove(i as int)).len() == ov.len());
                    assert(self@ == spec_cache_touch(ov, key@));
                    assert forall|a: int, b: int|
                        0 <= a < b < self.entries@.len() implies self.entries@[a].0@
                        != self.entries@[b].0@ by {
                        if a == 0 {
                            if b <= i as int {
                                assert(self.entries@[b] == oldentries[b - 1]);
                            } else {
                                assert(self.entries@[b] == oldentries[b]);
                            }
                        } else {
                            if a <= i as int {
                                assert(self.entries@[a] == oldentries[a - 1]);
                            } else {
                                assert(self.entries@[a] == oldentries[a]);
                            }
                            if b <= i as int {
                                assert(self.entries@[b] == oldentries[b - 1]);
                            } else {
                                assert(self.entries@[b] == oldentries[b]);
                            }
                        }
                    }
                    assert forall|a: int|
                        0 <= a < self.entries@.len() implies (#[trigger] self.entries@[a]).1@
                        == spec_session(self.entries@[a].0@) by {
                        if a == 0 {
                            assert(self.entries@[0] == oldentries[i as int]);
                        } else if a <= i as int {
                            assert(self.entries@[a] == oldentries[a - 1]);
                        } else {
                            assert(self.entries@[a] == oldentries[a]);
                        }
                    }
                }
                return s;
            }
            i = i + 1;
        }
        let s = SqlCrypt::from_key(key);
        let ghost ov = self@;
        proof {
            if ov.contains(key@) {
                let w = choose|w: int| 0 <= w < ov.len() && ov[w] == key@;
                assert(self.entries@[w].0@ == key@);
            }
            ov.index_of_first_ensures(key@);
            assert(ov.remove_value(key@) == ov);
        }
        let ghost before_evict = self.entries@;
        if self.entries.len() == CACHE_CAP {
            let _evicted = self.entries.pop();
        }
        let ghost kept = self.entries@;
        self.entries.insert(0, (to_owned_bytes(key), s));
        proof {
            assert(self.entries@ == kept.insert(0, (self.entries@[0].0, s)));
            assert(self.entries@[0].0@ == key@);
            if before_evict.len() == CACHE_CAP {
                assert(kept == before_evict.drop_last());
                assert(self@ =~= spec_cache_touch(ov, key@));
            } else {
                assert(kept == before_evict);
                assert(self@ =~= spec_cache_touch(ov, key@));
            }
            assert forall|a: int, b: int|
                0 <= a < b < self.entries@.len() implies self.entries@[a].0@
                != self.entries@[b].0@ by {
                if a == 0 {
                    assert(self.entries@[b] == kept[b - 1]);
                    assert(kept[b - 1].0@ == ov[b - 1]);
                } else {
                    assert(self.entries@[a] == kept[a - 1]);
                    assert(self.entries@[b] == kept[b - 1]);
                }
            }
            assert forall|a: int|
                0 <= a < self.entries@.len() implies (#[trigger] self.entries@[a]).1@
                == spec_session(self.entries@[a].0@) by {
                if a > 0 {
                    assert(self.entries@[a] == kept[a - 1]);
                }
            }
        }
        s
    }
}

/// Compares an owned key with a key slice, byte for byte.
fn bytes_equal(a: &Vec<u8>, b: &[u8]) -> (r: bool)
    ensures
        r == (a@ == b@),
{
    if a.len() != b.len() {
        return false;
    }
    let mut i: usize = 0;
    while i < a.len()
        invariant
            0 <= i <= a@.len(),
            a@.len() == b@.len(),
            forall|k: int| 0 <= k < i ==> a@[k] == b@[k],
        decreases a@.len() - i,
    {
        if a[i] != b[i] {
            return false;
        }
        i = i + 1;
    }
    proof {
        assert(a@ =~= b@);
    }
    true
}

} // verus!
