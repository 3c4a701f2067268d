//! The global registry of accepted new-money transaction IDs.
//!
//! A sharded set of 32-bit IDs, partitioned by `id mod N`. Its view is the
//! plain set of registered IDs; registration reports whether the ID was new.

use vstd::prelude::*;

verus! {

/// One shard: the IDs it owns, each at most once.
pub struct TxRegistryShard {
    pub ids: Vec<u32>,
}

pub open spec fn nodup_ids(s: Seq<u32>) -> bool {
    forall|i: int, j: int| 0 <= i < j < s.len() ==> s[i] != s[j]
}

impl TxRegistryShard {
    pub open spec fn view(&self) -> Seq<u32> {
        self.ids@
    }

    pub fn new() -> (s: TxRegistryShard)
        ensures
            s@ =~= Seq::<u32>::empty(),
    {
        TxRegistryShard { ids: Vec::new() }
    }

    fn position(&self, id: u32) -> (r: Option<usize>)
        ensures
            match r {
                Some(i) => i < self@.len() && self@[i as int] == id,
                None => !self@.contains(id),
            },
    {
        let n = self.ids.len();
        let mut i: usize = 0;
        while i < n
            invariant
                0 <= i <= n == self@.len(),
                forall|j: int| 0 <= j < i ==> self@[j] != id,
            decreases n - i,
        {
            if self.ids[i] == id {
                return Some(i);
            }
            i = i + 1;
        }
        None
    }

    /// Inserts `id`; reports true exactly when it was not yet present.
    pub fn register(&mut self, id: u32) -> (r: bool)
        requires
            nodup_ids(old(self)@),
        ensures
            nodup_ids(final(self)@),
            r == !old(self)@.contains(id),
            final(self)@.contains(id),
            forall|x: u32| #[trigger] final(self)@.contains(x) <==> old(self)@.contains(x) || x
                == id,
    {
        match self.position(id) {
            Some(i) => {
                proof {
                    assert(self@[i as int] == id);
                    assert(self@.contains(id));
                }
                false
            },
            None => {
                self.ids.push(id);
                proof {
                    let s0 = old(self)@;
                    assert(self@ =~= s0.push(id));
                    assert(self@[s0.len() as int] == id);
                    assert forall|x: u32| #[trigger] self@.contains(x) <==> s0.contains(x) || x
                        == id by {
                        if self@.contains(x) {
                            let k = choose|k: int| 0 <= k < self@.len() && self@[k] == x;
                            if k < s0.len() {
                                assert(s0[k] == x);
                            }
                        }
                        if s0.contains(x) {
                            let k = choose|k: int| 0 <= k < s0.len() && s0[k] == x;
                            assert(self@[k] == x);
                        }
                    }
                }
                true
            },
        }
    }

    /// Removes `id`; reports true exactly when it was present.
    pub fn unregister(&mut self, id: u32) -> (r: bool)
        requires
            nodup_ids(old(self)@),
        ensures
            nodup_ids(final(self)@),
            r == old(self)@.contains(id),
            forall|x: u32| #[trigger] final(self)@.contains(x) <==> old(self)@.contains(x) && x
                != id,
    {
        match self.position(id) {
            None => false,
            Some(i) => {
                self.ids.remove(i);
                proof {
                    let s0 = old(self)@;
                    assert(self@ =~= s0.remove(i as int));
                    assert forall|a: int, b: int| 0 <= a < b < self@.len() implies self@[a]
                        != self@[b] by {
                        let a0 = if a < i as int {
                            a
                        } else {
                            a + 1
                        };
                        let b0 = if b < i as int {
                            b
                        } else {
                            b + 1
                        };
                        assert(self@[a] == s0[a0] && self@[b] == s0[b0]);
                    }
                    assert forall|x: u32| #[trigger] self@.contains(x) <==> s0.contains(x) && x
                        != id by {
                        if self@.contains(x) {
                            let k = choose|k: int| 0 <= k < self@.len() && self@[k] == x;
                            let k0 = if k < i as int {
                                k
                            } else {
                                k + 1
                            };
                            assert(s0[k0] == x);
                            assert(s0[i as int] == id);
                        }
                        if s0.contains(x) && x != id {
                            let k0 = choose|k0: int| 0 <= k0 < s0.len() && s0[k0] == x;
                            if k0 < i as int {
                                assert(self@[k0] == x);
                            } else {
                                assert(k0 > i as int);
                                assert(self@[k0 - 1] == x);
                            }
                        }
                    }
                }
                true
            },
        }
    }
}

/// The sharded registry: IDs are routed to shard `id mod N`.
pub struct ShardedTxRegistry {
    pub shards: Vec<TxRegistryShard>,
}

impl ShardedTxRegistry {
    /// Structure: at least one shard, no duplicates within a shard, and
    /// every ID sits in the shard its remainder selects.
    pub open spec fn wf(&self) -> bool {
        &&& self.shards@.len() >= 1
        &&& (forall|i: int| 0 <= i < self.shards@.len() ==> nodup_ids((#[trigger] self.shards@[i])@))
        &&& (forall|i: int, k: int|
            0 <= i < self.shards@.len() && 0 <= k < self.shards@[i]@.len() ==> (#[trigger] self.shards@[i]@[k] as int)
                % (self.shards@.len() as int) == i)
    }

    /// The set of all registered IDs.
    pub open spec fn view(&self) -> Set<u32> {
        Set::new(
            |id: u32|
                exists|i: int| 0 <= i < self.shards@.len() && (#[trigger] self.shards@[i])@.contains(
                    id,
                ),
        )
    }

    pub fn new(num_shards: usize) -> (s: ShardedTxRegistry)
        requires
            num_shards >= 1,
        ensures
            s.wf(),
            s@ =~= Set::<u32>::empty(),
    {
        let mut shards: Vec<TxRegistryShard> = Vec::new();
        let mut i: usize = 0;
        while i < num_shards
            invariant
                0 <= i <= num_shards,
                shards@.len() == i,
                forall|j: int| 0 <= j < i ==> (#[trigger] shards@[j])@ =~= Seq::<u32>::empty(),
            decreases num_shards - i,
        {
            shards.push(TxRegistryShard::new());
            i = i + 1;
        }
        let s = ShardedTxRegistry { shards };
        proof {
            assert(s@ =~= Set::<u32>::empty());
        }
        s
    }

    /// Registers a new-money ID; true exactly when it was new. The set of
    /// registered IDs grows by exactly this ID.
    pub fn register(&mut self, id: u32) -> (r: bool)
        requires
            old(self).wf(),
        ensures
            final(self).wf(),
            r == !old(self)@.contains(id),
            final(self)@ == old(self)@.insert(id),
    {
        let n = self.shards.len();
        let si = (id as usize) % n;
        let ghost shards0 = self.shards@;
        let shard = vstd::std_specs::vec::vec_index_mut(&mut self.shards, si);
        let r = shard.register(id);
        proof {
            assert(self.shards@ =~= shards0.update(si as int, *shard));
            assert forall|i: int, k: int|
                0 <= i < self.shards@.len() && 0 <= k < self.shards@[i]@.len() implies (
            #[trigger] self.shards@[i]@[k] as int) % (self.shards@.len() as int) == i by {
                let x = self.shards@[i]@[k];
                if i == si as int {
                    assert(self.shards@[i]@.contains(x));
                    if x != id {
                        assert(shards0[i]@.contains(x));
                        let k0 = choose|k0: int| 0 <= k0 < shards0[i]@.len() && shards0[i]@[k0]
                            == x;
                        assert((shards0[i]@[k0] as int) % (shards0.len() as int) == i);
                    }
                } else {
                    assert(self.shards@[i] == shards0[i]);
                }
            }
            assert forall|x: u32| #[trigger] self@.contains(x) <==> (old(self)@.contains(x) || x
                == id) by {
                let m = shards0.len() as int;
                if self@.contains(x) {
                    let i = choose|i: int|
                        0 <= i < self.shards@.len() && (#[trigger] self.shards@[i])@.contains(x);
                    if i == si as int {
                        if x != id {
                            assert(shards0[i]@.contains(x));
                        }
                    } else {
                        assert(self.shards@[i] == shards0[i]);
                    }
                }
                if old(self)@.contains(x) {
                    let i = choose|i: int|
                        0 <= i < shards0.len() && (#[trigger] shards0[i])@.contains(x);
                    if i == si as int {
                        assert(self.shards@[i]@.contains(x));
                    } else {
                        assert(self.shards@[i] == shards0[i]);
                        assert(self.shards@[i]@.contains(x));
                    }
                }
                if x == id {
                    assert(self.shards@[si as int]@.contains(id));
                }
            }
            assert(final(self)@ =~= old(self)@.insert(id));
            if old(self)@.contains(id) {
                let i = choose|i: int|
                    0 <= i < shards0.len() && (#[trigger] shards0[i])@.contains(id);
                assert((shards0[i]@[choose|k: int|
                    0 <= k < shards0[i]@.len() && shards0[i]@[k] == id] as int) % (shards0.len()
                    as int) == i);
                assert(i == si as int);
                assert(shards0[si as int]@.contains(id));
            }
            if shards0[si as int]@.contains(id) {
                assert(old(self)@.contains(id));
            }
        }
        r
    }

    /// Unregisters an ID (compensation after a failed apply); true exactly
    /// when it was present. The set shrinks by exactly this ID.
    pub fn unregister(&mut self, id: u32) -> (r: bool)
        requires
            old(self).wf(),
        ensures
            final(self).wf(),
            r == old(self)@.contains(id),
            final(self)@ == old(self)@.remove(id),
    {
        let n = self.shards.len();
        let si = (id as usize) % n;
        let ghost shards0 = self.shards@;
        let shard = vstd::std_specs::vec::vec_index_mut(&mut self.shards, si);
        let r = shard.unregister(id);
        proof {
            assert(self.shards@ =~= shards0.update(si as int, *shard));
            assert forall|i: int, k: int|
                0 <= i < self.shards@.len() && 0 <= k < self.shards@[i]@.len() implies (
            #[trigger] self.shards@[i]@[k] as int) % (self.shards@.len() as int) == i by {
                let x = self.shards@[i]@[k];
                if i == si as int {
                    assert(self.shards@[i]@.contains(x));
                    if x != id {
                        assert(shards0[i]@.contains(x));
                        let k0 = choose|k0: int| 0 <= k0 < shards0[i]@.len() && shards0[i]@[k0]
                            == x;
                        assert((shards0[i]@[k0] as int) % (shards0.len() as int) == i);
                    }
                } else {
                    assert(self.shards@[i] == shards0[i]);
                }
            }
            assert forall|x: u32| #[trigger] self@.contains(x) <==> (old(self)@.contains(x) && x
                != id) by {
                if self@.contains(x) {
                    let i = choose|i: int|
                        0 <= i < self.shards@.len() && (#[trigger] self.shards@[i])@.contains(x);
                    if i == si as int {
                        assert(shards0[i]@.contains(x) && x != id);
                    } else {
                        assert(self.shards@[i] == shards0[i]);
                    }
                }
                if old(self)@.contains(x) && x != id {
                    let i = choose|i: int|
                        0 <= i < shards0.len() && (#[trigger] shards0[i])@.contains(x);
                    if i == si as int {
                        assert(self.shards@[i]@.contains(x));
                    } else {
                        assert(self.shards@[i] == shards0[i]);
                        assert(self.shards@[i]@.contains(x));
                    }
                }
            }
            assert(final(self)@ =~= old(self)@.remove(id));
            if old(self)@.contains(id) {
                let i = choose|i: int|
                    0 <= i < shards0.len() && (#[trigger] shards0[i])@.contains(id);
                assert((shards0[i]@[choose|k: int|
                    0 <= k < shards0[i]@.len() && shards0[i]@[k] == id] as int) % (shards0.len()
                    as int) == i);
                assert(i == si as int);
                assert(shards0[si as int]@.contains(id));
            }
            if shards0[si as int]@.contains(id) {
                assert(old(self)@.contains(id));
            }
        }
        r
    }
}

} // verus!
