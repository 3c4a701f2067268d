//! Routing of clients to per-account workers.
//!
//! Clients are partitioned into shards by `client mod N`; each shard owns
//! the workers of its clients and creates them lazily on first use. The
//! manager's view is the map from client ID to worker state; one submitted
//! record moves that map by exactly one worker transition.

use vstd::prelude::*;
use crate::account_worker::AccountWorker;
use crate::account_worker::WorkerModel;
use crate::account_worker::apply_spec;
use crate::account_worker::cold_local_to;
use crate::account_worker::hot_keys_bounded;
use crate::account_worker::store_wf;
use crate::account_worker::stored_lookup;
use crate::account_worker::worker_inv;
use crate::account_worker::lemma_worker_inv_cold_local;
use crate::account_worker::lemma_apply_keys_non_new;
use crate::account_worker::lemma_apply_spec_err;
use crate::account_worker::row_amount_ok;
use crate::account_worker::cold_write_failed;
use crate::errors::ProcessingError;
use crate::models::Account;
use crate::models::AccountModel;
use crate::models::TransactionRow;
use crate::models::account_wf;
use crate::models::is_new_money;
use crate::storage::TransactionStore;
use crate::storage::TxEntry;
use crate::storage::has_key;
use crate::storage::held_sum;
use crate::storage::dep_sum;
use crate::storage::value_of;
use crate::storage::lemma_client_sums_bound;

verus! {

/// One shard: the live workers of its clients.
pub struct Shard {
    pub workers: Vec<AccountWorker>,
}

/// Index of the worker owning client `c` at or after position `i`, or -1.
pub open spec fn wfind_from(s: Seq<AccountWorker>, c: u16, i: int) -> int
    decreases s.len() - i,
{
    if i < 0 || i >= s.len() {
        -1
    } else if s[i].account.client == c {
        i
    } else {
        wfind_from(s, c, i + 1)
    }
}

pub open spec fn wfind(s: Seq<AccountWorker>, c: u16) -> int {
    wfind_from(s, c, 0)
}

pub proof fn lemma_wfind_from(s: Seq<AccountWorker>, c: u16, i: int)
    requires
        0 <= i <= s.len(),
    ensures
        wfind_from(s, c, i) == -1 ==> forall|j: int|
            i <= j < s.len() ==> (#[trigger] s[j]).account.client != c,
        wfind_from(s, c, i) != -1 ==> i <= wfind_from(s, c, i) < s.len() && s[wfind_from(
            s,
            c,
            i,
        )].account.client == c && forall|j: int|
            i <= j < wfind_from(s, c, i) ==> (#[trigger] s[j]).account.client != c,
    decreases s.len() - i,
{
    if i < s.len() && s[i].account.client != c {
        lemma_wfind_from(s, c, i + 1);
    }
}

/// A worker position is stable under changes that keep every client field.
pub proof fn lemma_wfind_same_clients(s1: Seq<AccountWorker>, s2: Seq<AccountWorker>, c: u16)
    requires
        s1.len() == s2.len(),
        forall|j: int|
            0 <= j < s1.len() ==> (#[trigger] s1[j]).account.client == s2[j].account.client,
    ensures
        wfind(s1, c) == wfind(s2, c),
{
    lemma_wfind_aux(s1, s2, c, 0);
}

proof fn lemma_wfind_aux(s1: Seq<AccountWorker>, s2: Seq<AccountWorker>, c: u16, i: int)
    requires
        0 <= i <= s1.len(),
        s1.len() == s2.len(),
        forall|j: int|
            0 <= j < s1.len() ==> (#[trigger] s1[j]).account.client == s2[j].account.client,
    ensures
        wfind_from(s1, c, i) == wfind_from(s2, c, i),
    decreases s1.len() - i,
{
    if i < s1.len() && s1[i].account.client != c {
        lemma_wfind_aux(s1, s2, c, i + 1);
    }
}

/// Appending a worker of another client does not change a lookup.
pub proof fn lemma_wfind_push_other(s: Seq<AccountWorker>, w: AccountWorker, c: u16)
    requires
        w.account.client != c,
    ensures
        wfind(s.push(w), c) == wfind(s, c),
    decreases s.len(),
{
    lemma_wfind_push_aux(s, w, c, 0);
}

proof fn lemma_wfind_push_aux(s: Seq<AccountWorker>, w: AccountWorker, c: u16, i: int)
    requires
        w.account.client != c,
        0 <= i <= s.len(),
    ensures
        wfind_from(s.push(w), c, i) == wfind_from(s, c, i),
    decreases s.len() - i,
{
    let p = s.push(w);
    if i < s.len() {
        assert(p[i] == s[i]);
        if s[i].account.client != c {
            lemma_wfind_push_aux(s, w, c, i + 1);
        }
    } else {
        assert(p[i] == w);
        assert(wfind_from(p, c, i + 1) == -1);
    }
}

/// Appending a worker for the sought client finds it at the end.
pub proof fn lemma_wfind_push_self(s: Seq<AccountWorker>, w: AccountWorker, c: u16)
    requires
        w.account.client == c,
        wfind(s, c) == -1,
    ensures
        wfind(s.push(w), c) == s.len(),
{
    lemma_wfind_self_aux(s, w, c, 0);
}

proof fn lemma_wfind_self_aux(s: Seq<AccountWorker>, w: AccountWorker, c: u16, i: int)
    requires
        w.account.client == c,
        0 <= i <= s.len(),
        wfind_from(s, c, i) == -1,
    ensures
        wfind_from(s.push(w), c, i) == s.len(),
    decreases s.len() - i,
{
    let p = s.push(w);
    if i < s.len() {
        assert(p[i] == s[i]);
        lemma_wfind_self_aux(s, w, c, i + 1);
    } else {
        assert(p[i] == w);
    }
}

/// Finds the worker owning client `c` in a shard's list.
fn find_worker(workers: &Vec<AccountWorker>, c: u16) -> (r: Option<usize>)
    ensures
        match r {
            Some(i) => i < workers@.len() && wfind(workers@, c) == i,
            None => wfind(workers@, c) == -1,
        },
{
    let n = workers.len();
    let mut i: usize = 0;
    while i < n
        invariant
            0 <= i <= n == workers@.len(),
            wfind(workers@, c) == wfind_from(workers@, c, i as int),
        decreases n - i,
    {
        if workers[i].account.client == c {
            return Some(i);
        }
        i = i + 1;
    }
    None
}

/// The fresh worker a first record for a client creates.
pub open spec fn fresh_model(c: u16) -> WorkerModel {
    WorkerModel {
        account: AccountModel { client: c, available: 0, held: 0, locked: false },
        hot: Seq::empty(),
    }
}

/// One step of the worker map: route, create the worker if absent, apply.
pub open spec fn manager_step(
    ws: Map<u16, WorkerModel>,
    cold: Seq<TxEntry>,
    tx: TransactionRow,
    now: u64,
) -> (Map<u16, WorkerModel>, Seq<TxEntry>, Result<(), ProcessingError>) {
    let w0 = if ws.dom().contains(tx.client) {
        ws[tx.client]
    } else {
        fresh_model(tx.client)
    };
    let o = apply_spec(w0, cold, tx, now);
    (ws.insert(tx.client, o.0), o.1, o.2)
}

/// The escape from the model at the manager level: the worker was routed
/// (and created if absent) but a failed cold write-back rejected the record.
pub open spec fn manager_write_failed(
    ws0: Map<u16, WorkerModel>,
    cold0: Seq<TxEntry>,
    ws1: Map<u16, WorkerModel>,
    cold1: Seq<TxEntry>,
    tx: TransactionRow,
    r: Result<(), ProcessingError>,
) -> bool {
    let w0 = if ws0.dom().contains(tx.client) {
        ws0[tx.client]
    } else {
        fresh_model(tx.client)
    };
    &&& (tx.tx_type == crate::models::TransactionType::Dispute || tx.tx_type
        == crate::models::TransactionType::Resolve)
    &&& ws1 == ws0.insert(tx.client, w0)
    &&& cold1 == cold0
    &&& r == Err::<(), ProcessingError>(ProcessingError::TransactionNotFound)
}

/// Manages the shards; the unit the engine routes records through.
pub struct ShardManager {
    pub shards: Vec<Shard>,
}

impl ShardManager {
    pub open spec fn worker_at(&self, i: int, j: int) -> WorkerModel {
        self.shards@[i].workers@[j]@
    }

    /// Structure and state invariant, relative to the cold tier: at least
    /// one shard; every worker sits in the shard its client selects; one
    /// worker per client; every worker invariant holds; and no transaction
    /// is stored in two workers' hot histories.
    pub open spec fn wf(&self, cold: Seq<TxEntry>) -> bool {
        let n = self.shards@.len() as int;
        &&& n >= 1
        &&& (forall|i: int, j: int|
            0 <= i < n && 0 <= j < self.shards@[i].workers@.len() ==> ((
            #[trigger] self.shards@[i].workers@[j]).account.client as int) % n == i)
        &&& (forall|i: int, j1: int, j2: int|
            0 <= i < n && 0 <= j1 < j2 < self.shards@[i].workers@.len() ==> (
            #[trigger] self.shards@[i].workers@[j1]).account.client != (
            #[trigger] self.shards@[i].workers@[j2]).account.client)
        &&& (forall|i: int, j: int|
            0 <= i < n && 0 <= j < self.shards@[i].workers@.len() ==> worker_inv(
                #[trigger] self.worker_at(i, j),
                cold,
            ))
        &&& (forall|i1: int, j1: int, i2: int, j2: int, k: int|
            0 <= i1 < n && 0 <= j1 < self.shards@[i1].workers@.len() && 0 <= i2 < n && 0 <= j2
                < self.shards@[i2].workers@.len() && !(i1 == i2 && j1 == j2) && 0 <= k
                < self.worker_at(i1, j1).hot.len() ==> !has_key(
                #[trigger] self.worker_at(i2, j2).hot,
                (#[trigger] self.worker_at(i1, j1).hot[k]).0,
            ))
    }

    /// Whether a worker for client `c` exists.
    pub open spec fn has_worker(&self, c: u16) -> bool {
        let n = self.shards@.len() as int;
        n >= 1 && wfind(self.shards@[(c as int) % n].workers@, c) != -1
    }

    /// The model of client `c`'s worker.
    pub open spec fn worker_model(&self, c: u16) -> WorkerModel {
        let n = self.shards@.len() as int;
        let s = self.shards@[(c as int) % n].workers@;
        s[wfind(s, c)]@
    }

    /// The worker map this manager represents.
    pub open spec fn view(&self) -> Map<u16, WorkerModel> {
        Map::new(|c: u16| self.has_worker(c), |c: u16| self.worker_model(c))
    }

    /// Some transaction ID is stored somewhere: in the cold tier or in any
    /// worker's hot history.
    pub open spec fn id_stored(&self, cold: Seq<TxEntry>, id: u32) -> bool {
        ||| has_key(cold, id)
        ||| exists|i: int, j: int|
            0 <= i < self.shards@.len() && 0 <= j < self.shards@[i].workers@.len() && has_key(
                (#[trigger] self.worker_at(i, j)).hot,
                id,
            )
    }

    /// A manager with `num_shards` empty shards.
    pub fn new(num_shards: usize) -> (m: ShardManager)
        requires
            num_shards >= 1,
        ensures
            forall|cold: Seq<TxEntry>| #[trigger] m.wf(cold),
            m@ =~= Map::<u16, WorkerModel>::empty(),
            m.shards@.len() == num_shards,
            forall|i: int| 0 <= i < num_shards ==> (#[trigger] m.shards@[i]).workers@.len() == 0,
    {
        let mut shards: Vec<Shard> = Vec::new();
        let mut i: usize = 0;
        while i < num_shards
            invariant
                0 <= i <= num_shards,
                shards@.len() == i,
                forall|j: int| 0 <= j < i ==> (#[trigger] shards@[j]).workers@.len() == 0,
            decreases num_shards - i,
        {
            shards.push(Shard { workers: Vec::new() });
            i = i + 1;
        }
        let m = ShardManager { shards };
        proof {
            assert forall|cold: Seq<TxEntry>| #[trigger] m.wf(cold) by {
                assert(m.shards@.len() >= 1);
            }
            assert(m@ =~= Map::<u16, WorkerModel>::empty());
        }
        m
    }

    /// Routes one record to its client's worker, creating the worker on
    /// first use, and applies it.
    ///
    /// The worker map moves by exactly [`manager_step`], except that a
    /// failed cold write-back rejects the record with the worker routed but
    /// nothing else changed.
    #[verifier::rlimit(100)]
    pub fn process<S: TransactionStore>(&mut self, cold: &mut S, tx: TransactionRow, now: u64)
        -> (r: Result<(), ProcessingError>)
        requires
            old(self).wf(old(cold).entries()),
            store_wf(old(cold).entries()),
            row_amount_ok(tx),
            is_new_money(tx.tx_type) ==> !old(self).id_stored(old(cold).entries(), tx.tx),
            !old(self).has_worker(tx.client) ==> held_sum(old(cold).entries(), tx.client) == 0,
        ensures
            final(self).wf(final(cold).entries()),
            store_wf(final(cold).entries()),
            final(cold).may_fail_writes() == old(cold).may_fail_writes(),
            final(self).shards@.len() == old(self).shards@.len(),
            cold_local_to(tx.client, old(cold).entries(), final(cold).entries()),
            forall|id: u32|
                #[trigger] final(self).id_stored(final(cold).entries(), id) ==> old(
                    self,
                ).id_stored(old(cold).entries(), id) || id == tx.tx,
            !is_new_money(tx.tx_type) ==> (forall|id: u32|
                #[trigger] final(self).id_stored(final(cold).entries(), id) ==> old(
                    self,
                ).id_stored(old(cold).entries(), id)),
            is_new_money(tx.tx_type) && r is Err ==> !final(self).id_stored(
                final(cold).entries(),
                tx.tx,
            ),
            final(self)@.dom() =~= old(self)@.dom().insert(tx.client),
            ({
                let o = manager_step(old(self)@, old(cold).entries(), tx, now);
                (final(self)@ == o.0 && final(cold).entries() == o.1 && r == o.2)
                    || (manager_write_failed(
                    old(self)@,
                    old(cold).entries(),
                    final(self)@,
                    final(cold).entries(),
                    tx,
                    r,
                ) && old(cold).may_fail_writes())
            }),
    {
        let ghost self0 = *self;
        let ghost cold0 = cold.entries();
        let c = tx.client;
        let n = self.shards.len();
        let si = (c as usize) % n;
        let ghost w0m = if self0@.dom().contains(c) {
            self0@[c]
        } else {
            fresh_model(c)
        };
        let shard = vstd::std_specs::vec::vec_index_mut(&mut self.shards, si);
        let ghost workers0 = shard.workers@;
        let found = find_worker(&shard.workers, c);
        let wi: usize = match found {
            Some(i) => i,
            None => {
                let w = AccountWorker::new(c);
                shard.workers.push(w);
                shard.workers.len() - 1
            },
        };
        let ghost workers_a = shard.workers@;
        proof {
            // the routed worker models w0m and satisfies its invariant
            match found {
                Some(i) => {
                    lemma_wfind_from(workers0, c, 0);
                    assert(self0.has_worker(c));
                    assert(workers_a == workers0);
                    assert(self0.worker_at(si as int, wi as int) == workers_a[wi as int]@);
                    assert(worker_inv(self0.worker_at(si as int, wi as int), cold0));
                    assert(workers_a[wi as int]@ == w0m);
                },
                None => {
                    assert(!self0.has_worker(c));
                    assert(workers_a == workers0.push(workers_a[wi as int]));
                    assert(workers_a[wi as int]@ =~= fresh_model(c));
                    lemma_client_sums_bound(cold0, c);
                    assert(worker_inv(fresh_model(c), cold0));
                },
            }
            assert(worker_inv(workers_a[wi as int]@, cold0));
            if is_new_money(tx.tx_type) {
                // freshness for this worker follows from global freshness
                if has_key(workers_a[wi as int]@.hot, tx.tx) {
                    assert(self0.worker_at(si as int, wi as int) == workers_a[wi as int]@
                        || workers_a[wi as int]@.hot.len() == 0);
                    assert(false);
                }
                if has_key(cold0, tx.tx) {
                    assert(false);
                }
            }
        }
        let worker = vstd::std_specs::vec::vec_index_mut(&mut shard.workers, wi);
        let r = worker.process_transaction(cold, tx, now);
        proof {
            let wv1 = *worker;
            let workers_b = workers_a.update(wi as int, wv1);
            assert(shard.workers@ == workers_b);
            let shards1 = self0.shards@.update(si as int, *shard);
            assert(self.shards@ == shards1);
            let cold1 = cold.entries();
            let w1m = wv1@;
            let no = self.shards@.len() as int;
            assert(no == n as int);

            // clients are unchanged position by position
            assert(forall|j: int|
                0 <= j < workers_a.len() ==> (#[trigger] workers_b[j]).account.client
                    == workers_a[j].account.client);
            assert(wv1.account.client == c);

            // the view moved by exactly one worker entry
            assert forall|c2: u16| true implies (#[trigger] self.has_worker(c2) == (
                self0.has_worker(c2) || c2 == c)) && (self.has_worker(c2) && c2 != c
                ==> self.worker_model(c2) == self0.worker_model(c2)) by {
                let si2 = (c2 as int) % no;
                if si2 != si as int {
                    assert(self.shards@[si2] == self0.shards@[si2]);
                } else {
                    lemma_wfind_same_clients(workers_b, workers_a, c2);
                    match found {
                        Some(i) => {
                            assert(workers_a == workers0);
                        },
                        None => {
                            if c2 != c {
                                lemma_wfind_push_other(workers0, workers_a[wi as int], c2);
                            } else {
                                lemma_wfind_push_self(workers0, workers_a[wi as int], c2);
                            }
                        },
                    }
                    if c2 != c && wfind(workers0, c2) != -1 {
                        lemma_wfind_from(workers0, c2, 0);
                        let j = wfind(workers0, c2);
                        assert(workers_b[j] == workers0[j]);
                    }
                    if c2 == c {
                        match found {
                            Some(i) => {
                                lemma_wfind_same_clients(workers_b, workers0, c);
                            },
                            None => {
                            },
                        }
                        assert(wfind(workers_b, c) == wi as int);
                    }
                }
            }
            assert(self.has_worker(c) && self.worker_model(c) == w1m) by {
                lemma_wfind_same_clients(workers_b, workers_a, c);
                match found {
                    Some(i) => {},
                    None => {
                        lemma_wfind_push_self(workers0, workers_a[wi as int], c);
                    },
                }
                assert(workers_b[wi as int] == wv1);
            }
            assert(final(self)@ =~= self0@.insert(c, w1m));

            // well-formedness of the whole manager afterwards
            assert forall|i: int, j: int|
                0 <= i < no && 0 <= j < self.shards@[i].workers@.len() implies worker_inv(
                #[trigger] self.worker_at(i, j),
                cold1,
            ) by {
                if i == si as int && j == wi as int {
                    assert(self.worker_at(i, j) == w1m);
                } else {
                    let wother = self.worker_at(i, j);
                    if i == si as int {
                        assert(wother == workers_a[j]@);
                        if j < workers0.len() {
                            assert(wother == self0.worker_at(i, j));
                            assert(worker_inv(wother, cold0));
                        } else {
                            assert(false);
                        }
                    } else {
                        assert(wother == self0.worker_at(i, j));
                        assert(worker_inv(wother, cold0));
                    }
                    assert(wother.account.client != c) by {
                        if i == si as int {
                            assert(workers_a[j].account.client != c) by {
                                match found {
                                    Some(k) => {
                                        lemma_wfind_from(workers0, c, 0);
                                        if workers0[j].account.client == c && j != wi as int {
                                            assert(false);
                                        }
                                    },
                                    None => {
                                        lemma_wfind_from(workers0, c, 0);
                                    },
                                }
                            }
                        } else {
                            assert(((wother.account.client as int) % no) == i);
                            if wother.account.client == c {
                                assert(false);
                            }
                        }
                    }
                    lemma_worker_inv_cold_local(wother, c, cold0, cold1);
                }
            }
            // hot histories stay pairwise disjoint
            assert forall|i1: int, j1: int, i2: int, j2: int, k: int|
                0 <= i1 < no && 0 <= j1 < self.shards@[i1].workers@.len() && 0 <= i2 < no && 0 <= j2
                    < self.shards@[i2].workers@.len() && !(i1 == i2 && j1 == j2) && 0 <= k
                    < self.worker_at(i1, j1).hot.len() implies !has_key(
                #[trigger] self.worker_at(i2, j2).hot,
                (#[trigger] self.worker_at(i1, j1).hot[k]).0,
            ) by {
                let a = self.worker_at(i1, j1);
                let b = self.worker_at(i2, j2);
                let id = a.hot[k].0;
                // relate each position to the old state
                let a_old = if i1 == si as int && j1 == wi as int {
                    w0m
                } else {
                    self0.worker_at(i1, j1)
                };
                let b_old = if i2 == si as int && j2 == wi as int {
                    w0m
                } else {
                    self0.worker_at(i2, j2)
                };
                if !(i1 == si as int && j1 == wi as int) {
                    assert(a == a_old || (i1 == si as int && j1 >= workers0.len()));
                }
                if !(i2 == si as int && j2 == wi as int) {
                    assert(b == b_old || (i2 == si as int && j2 >= workers0.len()));
                }
                if i1 == si as int && j1 == wi as int {
                    // the touched worker gained at most tx.tx
                    assert(a == w1m);
                    assert(has_key(a.hot, id)) by {
                        crate::storage::lemma_find_key_from(a.hot, id, 0);
                    }
                    assert(hot_keys_bounded(w0m.hot, w1m.hot, tx.tx));
                    assert(has_key(w0m.hot, id) || id == tx.tx);
                    if has_key(w0m.hot, id) {
                        crate::storage::lemma_find_key_from(w0m.hot, id, 0);
                        let kk = crate::storage::find_key(w0m.hot, id);
                        match found {
                            Some(_) => {
                                assert(w0m == self0.worker_at(si as int, wi as int));
                                assert(!has_key(b_old.hot, id));
                            },
                            None => {
                                assert(w0m.hot.len() == 0);
                                assert(false);
                            },
                        }
                    } else {
                        assert(id == tx.tx);
                        if is_new_money(tx.tx_type) {
                            if has_key(b_old.hot, id) {
                                assert(self0.id_stored(cold0, id));
                                assert(false);
                            }
                        } else {
                            let o = apply_spec(w0m, cold0, tx, now);
                            lemma_apply_keys_non_new(w0m, cold0, tx, now);
                            if w1m == o.0 {
                                assert(has_key(o.0.hot, id));
                                assert(false);
                            } else {
                                assert(cold_write_failed(
                                    w0m,
                                    cold0,
                                    w1m,
                                    cold.entries(),
                                    tx,
                                    r,
                                ));
                                assert(w1m == w0m);
                                assert(false);
                            }
                        }
                    }
                    assert(b == b_old);
                    assert(!has_key(b.hot, id));
                } else if i2 == si as int && j2 == wi as int {
                    // the other direction: the touched worker's keys
                    assert(a == a_old);
                    assert(has_key(a_old.hot, id)) by {
                        assert(a.hot[k].0 == id && 0 <= k < a.hot.len());
                        crate::storage::lemma_find_key_from(a.hot, id, 0);
                    }
                    assert(b == w1m);
                    assert(hot_keys_bounded(w0m.hot, w1m.hot, tx.tx));
                    if has_key(b.hot, id) {
                        assert(has_key(w1m.hot, id));
                        assert(has_key(w0m.hot, id) || id == tx.tx);
                        if has_key(w0m.hot, id) {
                            match found {
                                Some(_) => {
                                    assert(w0m == self0.worker_at(si as int, wi as int));
                                    assert(false);
                                },
                                None => {
                                    assert(w0m.hot.len() == 0);
                                    assert(false);
                                },
                            }
                        } else {
                            assert(id == tx.tx);
                            if is_new_money(tx.tx_type) {
                                assert(self0.id_stored(cold0, id));
                                assert(false);
                            } else {
                                lemma_apply_keys_non_new(w0m, cold0, tx, now);
                                assert(false);
                            }
                        }
                    }
                } else {
                    assert(a == a_old && b == b_old);
                    assert(!has_key(b.hot, id));
                }
            }
            // shard placement and per-shard uniqueness are untouched
            assert forall|i: int, j: int|
                0 <= i < no && 0 <= j < self.shards@[i].workers@.len() implies ((
            #[trigger] self.shards@[i].workers@[j]).account.client as int) % no == i by {
                if i == si as int {
                    assert(self.shards@[i].workers@ == workers_b);
                    assert(workers_b[j].account.client == workers_a[j].account.client);
                    match found {
                        Some(_) => {
                            assert(workers_a[j] == workers0[j]);
                        },
                        None => {
                            if j < workers0.len() {
                                assert(workers_a[j] == workers0[j]);
                            } else {
                                assert(workers_a[j].account.client == c);
                            }
                        },
                    }
                } else {
                    assert(self.shards@[i] == self0.shards@[i]);
                }
            }
            assert forall|i: int, j1: int, j2: int|
                0 <= i < no && 0 <= j1 < j2 < self.shards@[i].workers@.len() implies (
            #[trigger] self.shards@[i].workers@[j1]).account.client != (
            #[trigger] self.shards@[i].workers@[j2]).account.client by {
                if i == si as int {
                    assert(self.shards@[i].workers@ == workers_b);
                    assert(workers_b[j1].account.client == workers_a[j1].account.client);
                    assert(workers_b[j2].account.client == workers_a[j2].account.client);
                    match found {
                        Some(_) => {
                            assert(workers_a[j1] == workers0[j1]);
                            assert(workers_a[j2] == workers0[j2]);
                        },
                        None => {
                            lemma_wfind_from(workers0, c, 0);
                            if j2 == workers0.len() as int {
                                assert(workers_a[j1] == workers0[j1]);
                                assert(workers_a[j2].account.client == c);
                            } else {
                                assert(workers_a[j1] == workers0[j1]);
                                assert(workers_a[j2] == workers0[j2]);
                            }
                        },
                    }
                } else {
                    assert(self.shards@[i] == self0.shards@[i]);
                }
            }
            // no transaction ID appeared from nowhere
            assert forall|id: u32| #[trigger] self.id_stored(cold1, id) implies self0.id_stored(
                cold0,
                id,
            ) || id == tx.tx by {
                if has_key(cold1, id) {
                    assert(has_key(cold0, id));
                } else {
                    let (i, j) = choose|i: int, j: int|
                        0 <= i < self.shards@.len() && 0 <= j < self.shards@[i].workers@.len()
                            && has_key((#[trigger] self.worker_at(i, j)).hot, id);
                    if i == si as int && j == wi as int {
                        assert(has_key(w0m.hot, id) || id == tx.tx);
                        if has_key(w0m.hot, id) {
                            match found {
                                Some(_) => {
                                    assert(self0.id_stored(cold0, id));
                                },
                                None => {
                                    assert(w0m.hot.len() == 0);
                                },
                            }
                        }
                    } else if i == si as int && j >= workers0.len() && !(j == wi as int) {
                        assert(false);
                    } else {
                        assert(self.worker_at(i, j) == self0.worker_at(i, j));
                        assert(self0.id_stored(cold0, id));
                    }
                }
            }
            assert(self@.dom() =~= self0@.dom().insert(c));
            if !is_new_money(tx.tx_type) {
                assert forall|id: u32| #[trigger] self.id_stored(cold.entries(), id) implies
                    self0.id_stored(cold0, id) by {
                    if !self0.id_stored(cold0, id) {
                        assert(id == tx.tx);
                        if has_key(cold.entries(), id) {
                            assert(has_key(cold0, id));
                            assert(false);
                        } else {
                            let (i, j) = choose|i: int, j: int|
                                0 <= i < self.shards@.len() && 0 <= j
                                    < self.shards@[i].workers@.len() && has_key(
                                    (#[trigger] self.worker_at(i, j)).hot,
                                    id,
                                );
                            if i == si as int && j == wi as int {
                                let o = apply_spec(w0m, cold0, tx, now);
                                lemma_apply_keys_non_new(w0m, cold0, tx, now);
                                if w1m == o.0 {
                                    assert(has_key(w0m.hot, id));
                                } else {
                                    assert(cold_write_failed(
                                        w0m,
                                        cold0,
                                        w1m,
                                        cold.entries(),
                                        tx,
                                        r,
                                    ));
                                    assert(has_key(w0m.hot, id));
                                }
                                match found {
                                    Some(_) => {
                                        assert(w0m == self0.worker_at(si as int, wi as int));
                                        assert(self0.id_stored(cold0, id));
                                        assert(false);
                                    },
                                    None => {
                                        assert(w0m.hot.len() == 0);
                                        assert(false);
                                    },
                                }
                            } else if i == si as int && j >= workers0.len() {
                                assert(false);
                            } else {
                                assert(self.worker_at(i, j) == self0.worker_at(i, j));
                                assert(self0.id_stored(cold0, id));
                                assert(false);
                            }
                        }
                    }
                }
            }
            if is_new_money(tx.tx_type) && r is Err {
                let o = apply_spec(w0m, cold0, tx, now);
                assert(w1m == o.0 && cold.entries() == o.1 && r == o.2) by {
                    if !(w1m == o.0 && cold.entries() == o.1 && r == o.2) {
                        assert(cold_write_failed(w0m, cold0, w1m, cold.entries(), tx, r));
                        assert(false);
                    }
                }
                lemma_apply_spec_err(w0m, cold0, tx, now);
                assert(w1m == w0m && cold.entries() == cold0);
                if self.id_stored(cold.entries(), tx.tx) {
                    if has_key(cold.entries(), tx.tx) {
                        assert(has_key(cold0, tx.tx));
                        assert(self0.id_stored(cold0, tx.tx));
                        assert(false);
                    } else {
                        let (i, j) = choose|i: int, j: int|
                            0 <= i < self.shards@.len() && 0 <= j < self.shards@[i].workers@.len()
                                && has_key((#[trigger] self.worker_at(i, j)).hot, tx.tx);
                        if i == si as int && j == wi as int {
                            assert(has_key(w0m.hot, tx.tx));
                            match found {
                                Some(_) => {
                                    assert(w0m == self0.worker_at(si as int, wi as int));
                                    assert(self0.id_stored(cold0, tx.tx));
                                    assert(false);
                                },
                                None => {
                                    assert(w0m.hot.len() == 0);
                                    assert(false);
                                },
                            }
                        } else if i == si as int && j >= workers0.len() {
                            assert(false);
                        } else {
                            assert(self.worker_at(i, j) == self0.worker_at(i, j));
                            assert(self0.id_stored(cold0, tx.tx));
                            assert(false);
                        }
                    }
                    assert(false);
                }
            }
        }
        r
    }

    /// The snapshot of one client's account, if a worker exists. No worker
    /// is created.
    pub fn get_account<S: TransactionStore>(&self, cold: &S, client_id: u16) -> (r: Option<
        Account,
    >)
        requires
            self.wf(cold.entries()),
            store_wf(cold.entries()),
        ensures
            match r {
                Some(a) => self@.dom().contains(client_id) && a@ == self@[client_id].account
                    && account_wf(a),
                None => !self@.dom().contains(client_id),
            },
    {
        let n = self.shards.len();
        let si = (client_id as usize) % n;
        let shard = &self.shards[si];
        match find_worker(&shard.workers, client_id) {
            Some(wi) => {
                proof {
                    lemma_wfind_from(shard.workers@, client_id, 0);
                    assert(self.worker_at(si as int, wi as int) == shard.workers@[wi as int]@);
                    assert(worker_inv(self.worker_at(si as int, wi as int), cold.entries()));
                }
                let a = shard.workers[wi].get_state(cold);
                proof {
                    assert(self.has_worker(client_id));
                    assert(self.worker_model(client_id) == shard.workers@[wi as int]@);
                }
                Some(a)
            },
            None => {
                proof {
                    assert(!self.has_worker(client_id));
                }
                None
            },
        }
    }

    /// Migrates one client's aged hot transactions to the cold tier. A
    /// client without a worker has nothing to migrate.
    #[verifier::rlimit(100)]
    pub fn migrate_client<S: TransactionStore>(
        &mut self,
        cold: &mut S,
        client_id: u16,
        cutoff: u64,
    )
        requires
            old(self).wf(old(cold).entries()),
            store_wf(old(cold).entries()),
        ensures
            final(self).wf(final(cold).entries()),
            store_wf(final(cold).entries()),
            final(cold).may_fail_writes() == old(cold).may_fail_writes(),
            final(self).shards@.len() == old(self).shards@.len(),
            final(self)@.dom() =~= old(self)@.dom(),
            forall|c2: u16|
                #[trigger] old(self)@.dom().contains(c2) && c2 != client_id ==> final(self)@[c2]
                    == old(self)@[c2],
            old(self)@.dom().contains(client_id) ==> final(self)@[client_id].account == old(
                self,
            )@[client_id].account,
            forall|id: u32|
                #[trigger] final(self).id_stored(final(cold).entries(), id) == old(
                    self,
                ).id_stored(old(cold).entries(), id),
            forall|c2: u16|
                c2 != client_id ==> held_sum(final(cold).entries(), c2) == held_sum(
                    old(cold).entries(),
                    c2,
                ) && dep_sum(final(cold).entries(), c2) == dep_sum(old(cold).entries(), c2),
            !old(self).has_worker(client_id) ==> final(cold).entries() == old(cold).entries(),
            old(self)@.dom().contains(client_id) ==> (forall|id: u32|
                #[trigger] stored_lookup(
                    final(self)@[client_id].hot,
                    final(cold).entries(),
                    id,
                ) == stored_lookup(old(self)@[client_id].hot, old(cold).entries(), id)),
            old(self)@.dom().contains(client_id) ==> (forall|id: u32|
                has_key(old(self)@[client_id].hot, id) && (#[trigger] value_of(
                    old(self)@[client_id].hot,
                    id,
                )).created_at >= cutoff ==> has_key(final(self)@[client_id].hot, id)),
            old(self)@.dom().contains(client_id) && !old(cold).may_fail_writes() ==> (forall|j: int|
                0 <= j < final(self)@[client_id].hot.len()
                    ==> (#[trigger] final(self)@[client_id].hot[j]).1.created_at >= cutoff),
    {
        let ghost self0 = *self;
        let ghost cold0 = cold.entries();
        let c = client_id;
        let n = self.shards.len();
        let si = (c as usize) % n;
        let found = find_worker(&self.shards[si].workers, c);
        match found {
            None => {
                proof {
                    assert(!self0.has_worker(c));
                }
            },
            Some(wi) => {
                let shard = vstd::std_specs::vec::vec_index_mut(&mut self.shards, si);
                let ghost workers0 = shard.workers@;
                proof {
                    lemma_wfind_from(workers0, c, 0);
                    assert(self0.worker_at(si as int, wi as int) == workers0[wi as int]@);
                    assert(worker_inv(self0.worker_at(si as int, wi as int), cold0));
                }
                let ghost w0m = workers0[wi as int]@;
                let worker = vstd::std_specs::vec::vec_index_mut(&mut shard.workers, wi);
                let _ = worker.migrate_old_transactions(cold, cutoff);
                proof {
                    let wv1 = *worker;
                    let workers_b = workers0.update(wi as int, wv1);
                    assert(shard.workers@ == workers_b);
                    assert(self.shards@ == self0.shards@.update(si as int, *shard));
                    let cold1 = cold.entries();
                    let w1m = wv1@;
                    let no = self.shards@.len() as int;
                    assert(w1m.account == w0m.account);
                    assert(wv1.account.client == c);
                    assert(forall|j: int|
                        0 <= j < workers_b.len() ==> (#[trigger] workers_b[j]).account.client
                            == workers0[j].account.client);
                    // the worker map is unchanged off this client
                    assert forall|c2: u16| true implies (#[trigger] self.has_worker(c2)
                        == self0.has_worker(c2)) && (self.has_worker(c2) && c2 != c
                        ==> self.worker_model(c2) == self0.worker_model(c2)) && (
                    self.has_worker(c2) && c2 == c ==> self.worker_model(c2) == w1m) by {
                        let si2 = (c2 as int) % no;
                        if si2 != si as int {
                            assert(self.shards@[si2] == self0.shards@[si2]);
                        } else {
                            lemma_wfind_same_clients(workers_b, workers0, c2);
                            if c2 != c && wfind(workers0, c2) != -1 {
                                lemma_wfind_from(workers0, c2, 0);
                                let j = wfind(workers0, c2);
                                assert(workers_b[j] == workers0[j]);
                            }
                            if c2 == c {
                                assert(wfind(workers_b, c) == wi as int);
                            }
                        }
                    }
                    assert(self@.dom() =~= self0@.dom());
                    // every other worker keeps its invariant against the new tier
                    assert forall|i: int, j: int|
                        0 <= i < no && 0 <= j < self.shards@[i].workers@.len() implies worker_inv(
                        #[trigger] self.worker_at(i, j),
                        cold1,
                    ) by {
                        if i == si as int && j == wi as int {
                            assert(self.worker_at(i, j) == w1m);
                        } else {
                            let wother = self.worker_at(i, j);
                            assert(wother == self0.worker_at(i, j));
                            assert(worker_inv(wother, cold0));
                            assert(wother.account.client != c) by {
                                if i == si as int {
                                    lemma_wfind_from(workers0, c, 0);
                                    if workers0[j].account.client == c && j != wi as int {
                                        assert(false);
                                    }
                                } else {
                                    assert(((wother.account.client as int) % no) == i);
                                    if wother.account.client == c {
                                        assert(false);
                                    }
                                }
                            }
                            assert(held_sum(cold1, wother.account.client) == held_sum(
                                cold0,
                                wother.account.client,
                            ));
                            assert(dep_sum(cold1, wother.account.client) == dep_sum(
                                cold0,
                                wother.account.client,
                            ));
                            assert forall|k: int| 0 <= k < wother.hot.len() implies !has_key(
                                cold1,
                                (#[trigger] wother.hot[k]).0,
                            ) by {
                                let x = wother.hot[k].0;
                                if has_key(cold1, x) {
                                    assert(has_key(cold0, x) || has_key(w0m.hot, x));
                                }
                            }
                        }
                    }
                    // hot histories stay pairwise disjoint: the touched one shrank
                    assert forall|i1: int, j1: int, i2: int, j2: int, k: int|
                        0 <= i1 < no && 0 <= j1 < self.shards@[i1].workers@.len() && 0 <= i2 < no
                            && 0 <= j2 < self.shards@[i2].workers@.len() && !(i1 == i2 && j1 == j2)
                            && 0 <= k < self.worker_at(i1, j1).hot.len() implies !has_key(
                        #[trigger] self.worker_at(i2, j2).hot,
                        (#[trigger] self.worker_at(i1, j1).hot[k]).0,
                    ) by {
                        let a = self.worker_at(i1, j1);
                        let b = self.worker_at(i2, j2);
                        let id = a.hot[k].0;
                        assert(has_key(a.hot, id)) by {
                            crate::storage::lemma_find_key_from(a.hot, id, 0);
                        }
                        if i1 == si as int && j1 == wi as int {
                            assert(has_key(w0m.hot, id));
                            crate::storage::lemma_find_key_from(w0m.hot, id, 0);
                            let kk = crate::storage::find_key(w0m.hot, id);
                            assert(b == self0.worker_at(i2, j2));
                            assert(!has_key(b.hot, id));
                        } else if i2 == si as int && j2 == wi as int {
                            assert(a == self0.worker_at(i1, j1));
                            if has_key(b.hot, id) {
                                assert(has_key(w0m.hot, id));
                                assert(false);
                            }
                        } else {
                            assert(a == self0.worker_at(i1, j1));
                            assert(b == self0.worker_at(i2, j2));
                        }
                    }
                    // placement and per-shard uniqueness are untouched
                    assert forall|i: int, j: int|
                        0 <= i < no && 0 <= j < self.shards@[i].workers@.len() implies ((
                    #[trigger] self.shards@[i].workers@[j]).account.client as int) % no == i by {
                        if i == si as int {
                            assert(self.shards@[i].workers@ == workers_b);
                            assert(workers_b[j].account.client == workers0[j].account.client);
                        } else {
                            assert(self.shards@[i] == self0.shards@[i]);
                        }
                    }
                    assert forall|i: int, j1: int, j2: int|
                        0 <= i < no && 0 <= j1 < j2 < self.shards@[i].workers@.len() implies (
                    #[trigger] self.shards@[i].workers@[j1]).account.client != (
                    #[trigger] self.shards@[i].workers@[j2]).account.client by {
                        if i == si as int {
                            assert(self.shards@[i].workers@ == workers_b);
                            assert(workers_b[j1].account.client == workers0[j1].account.client);
                            assert(workers_b[j2].account.client == workers0[j2].account.client);
                        } else {
                            assert(self.shards@[i] == self0.shards@[i]);
                        }
                    }
                    // the stored transactions are the same set, only re-tiered
                    assert forall|id: u32| true implies #[trigger] self.id_stored(cold1, id)
                        == self0.id_stored(cold0, id) by {
                        if self.id_stored(cold1, id) {
                            if has_key(cold1, id) {
                                assert(has_key(cold0, id) || has_key(w0m.hot, id));
                                if has_key(w0m.hot, id) {
                                    assert(self0.id_stored(cold0, id));
                                }
                            } else {
                                let (i, j) = choose|i: int, j: int|
                                    0 <= i < self.shards@.len() && 0 <= j
                                        < self.shards@[i].workers@.len() && has_key(
                                        (#[trigger] self.worker_at(i, j)).hot,
                                        id,
                                    );
                                if i == si as int && j == wi as int {
                                    assert(has_key(w0m.hot, id));
                                    assert(self0.id_stored(cold0, id));
                                } else {
                                    assert(self.worker_at(i, j) == self0.worker_at(i, j));
                                    assert(self0.id_stored(cold0, id));
                                }
                            }
                        }
                        if self0.id_stored(cold0, id) {
                            if has_key(cold0, id) {
                                assert(has_key(cold1, id));
                            } else {
                                let (i, j) = choose|i: int, j: int|
                                    0 <= i < self0.shards@.len() && 0 <= j
                                        < self0.shards@[i].workers@.len() && has_key(
                                        (#[trigger] self0.worker_at(i, j)).hot,
                                        id,
                                    );
                                if i == si as int && j == wi as int {
                                    assert(crate::account_worker::stored_lookup(
                                        w0m.hot,
                                        cold0,
                                        id,
                                    ) is Some);
                                    assert(crate::account_worker::stored_lookup(
                                        w1m.hot,
                                        cold1,
                                        id,
                                    ) is Some);
                                    if !has_key(w1m.hot, id) && !has_key(cold1, id) {
                                        assert(false);
                                    }
                                    if has_key(w1m.hot, id) {
                                        assert(self.worker_at(si as int, wi as int) == w1m);
                                        assert(has_key(
                                            self.worker_at(si as int, wi as int).hot,
                                            id,
                                        ));
                                        assert((si as int) < self.shards@.len());
                                        assert((wi as int) < self.shards@[
                                            si as int].workers@.len());
                                    }
                                    assert(self.id_stored(cold1, id));
                                } else {
                                    assert(self.worker_at(i, j) == self0.worker_at(i, j));
                                    assert(has_key(self.worker_at(i, j).hot, id));
                                    assert(0 <= i < self.shards@.len() && 0 <= j < self.shards@[
                                        i].workers@.len());
                                    assert(self.id_stored(cold1, id));
                                }
                            }
                        }
                    }
                }
            },
        }
    }

    /// Snapshots of every live account, one per client, in shard order.
    pub fn get_all_accounts<S: TransactionStore>(&self, cold: &S) -> (r: Vec<Account>)
        requires
            self.wf(cold.entries()),
            store_wf(cold.entries()),
        ensures
            forall|k: int|
                0 <= k < r@.len() ==> account_wf(#[trigger] r@[k]) && self@.dom().contains(
                    r@[k].client,
                ) && r@[k]@ == self@[r@[k].client].account,
            forall|c: u16|
                #[trigger] self@.dom().contains(c) ==> exists|k: int|
                    0 <= k < r@.len() && r@[k].client == c,
            forall|k1: int, k2: int| 0 <= k1 < k2 < r@.len() ==> r@[k1].client != r@[k2].client,
    {
        let ghost cold_entries = cold.entries();
        let n = self.shards.len();
        let mut out: Vec<Account> = Vec::new();
        let mut i: usize = 0;
        while i < n
            invariant
                0 <= i <= n == self.shards@.len(),
                self.wf(cold_entries),
                store_wf(cold_entries),
                cold_entries == cold.entries(),
                out@.len() == count_upto(self.shards@, i as int),
                forall|i2: int, j2: int|
                    0 <= i2 < i && 0 <= j2 < self.shards@[i2].workers@.len() ==> row_matches(
                        out@,
                        count_upto(self.shards@, i2) + j2,
                        #[trigger] self.worker_at(i2, j2),
                    ),
            decreases n - i,
        {
            let shard = &self.shards[i];
            let m = shard.workers.len();
            let mut j: usize = 0;
            while j < m
                invariant
                    0 <= i < n == self.shards@.len(),
                    0 <= j <= m == self.shards@[i as int].workers@.len(),
                    self.wf(cold_entries),
                    store_wf(cold_entries),
                    cold_entries == cold.entries(),
                    shard == &self.shards@[i as int],
                    out@.len() == count_upto(self.shards@, i as int) + j,
                    forall|i2: int, j2: int|
                        0 <= i2 < i && 0 <= j2 < self.shards@[i2].workers@.len() ==> row_matches(
                            out@,
                            count_upto(self.shards@, i2) + j2,
                            #[trigger] self.worker_at(i2, j2),
                        ),
                    forall|j2: int|
                        0 <= j2 < j ==> row_matches(
                            out@,
                            count_upto(self.shards@, i as int) + j2,
                            #[trigger] self.worker_at(i as int, j2),
                        ),
                decreases m - j,
            {
                proof {
                    assert(self.worker_at(i as int, j as int) == shard.workers@[j as int]@);
                    assert(worker_inv(self.worker_at(i as int, j as int), cold_entries));
                }
                let a = shard.workers[j].get_state(cold);
                let ghost prev = out@;
                out.push(a);
                proof {
                    let cu = count_upto(self.shards@, i as int);
                    assert(out@ =~= prev.push(a));
                    assert(out@[prev.len() as int] == a);
                    assert(a@ == self.worker_at(i as int, j as int).account);
                    assert forall|j2: int| 0 <= j2 < j + 1 implies row_matches(
                        out@,
                        cu + j2,
                        #[trigger] self.worker_at(i as int, j2),
                    ) by {
                        if j2 < j {
                            assert(row_matches(prev, cu + j2, self.worker_at(i as int, j2)));
                            assert(out@[cu + j2] == prev[cu + j2]);
                        } else {
                            assert(out@[cu + j2] == a);
                        }
                    }
                    assert forall|i2: int, j2: int|
                        0 <= i2 < i && 0 <= j2 < self.shards@[i2].workers@.len() implies row_matches(
                        out@,
                        count_upto(self.shards@, i2) + j2,
                        #[trigger] self.worker_at(i2, j2),
                    ) by {
                        let k = count_upto(self.shards@, i2) + j2;
                        assert(row_matches(prev, k, self.worker_at(i2, j2)));
                        lemma_count_upto_mono(self.shards@, 0, i2);
                        lemma_count_upto_mono(self.shards@, i2 + 1, i as int);
                        assert(0 <= k < prev.len());
                        assert(out@[k] == prev[k]);
                    }
                }
                j = j + 1;
            }
            proof {
                assert(count_upto(self.shards@, i as int + 1) == count_upto(self.shards@, i as int)
                    + self.shards@[i as int].workers@.len());
                assert forall|i2: int, j2: int|
                    0 <= i2 < i + 1 && 0 <= j2 < self.shards@[i2].workers@.len() implies row_matches(
                    out@,
                    count_upto(self.shards@, i2) + j2,
                    #[trigger] self.worker_at(i2, j2),
                ) by {
                    if i2 == i as int {
                        assert(row_matches(
                            out@,
                            count_upto(self.shards@, i as int) + j2,
                            self.worker_at(i as int, j2),
                        ));
                    } else {
                        assert(row_matches(
                            out@,
                            count_upto(self.shards@, i2) + j2,
                            self.worker_at(i2, j2),
                        ));
                    }
                }
            }
            i = i + 1;
        }
        proof {
            let shards = self.shards@;
            let total = out@.len() as int;
            // every row is one worker's snapshot, under its own client
            assert forall|k: int| 0 <= k < total implies account_wf(#[trigger] out@[k])
                && self@.dom().contains(out@[k].client) && out@[k]@ == self@[out@[k].client].account by {
                let (i2, j2) = lemma_flat_inverse(shards, k, n as int);
                assert(row_matches(out@, k, self.worker_at(i2, j2)));
                assert(out@[k]@ == self.worker_at(i2, j2).account);
                let c = out@[k].client;
                assert(shards[i2].workers@[j2].account.client == c);
                assert(((c as int) % (n as int)) == i2);
                let ws = shards[i2].workers@;
                lemma_wfind_from(ws, c, 0);
                if wfind(ws, c) == -1 {
                    assert(false);
                }
                let jf = wfind(ws, c);
                if jf != j2 {
                    assert(ws[jf].account.client == c);
                    assert(false);
                }
                assert(self.has_worker(c));
                assert(self.worker_model(c) == self.worker_at(i2, j2));
            }
            assert forall|c: u16| #[trigger] self@.dom().contains(c) implies exists|k: int|
                0 <= k < out@.len() && out@[k].client == c by {
                let i2 = (c as int) % (n as int);
                let ws = shards[i2].workers@;
                let j2 = wfind(ws, c);
                lemma_wfind_from(ws, c, 0);
                assert(0 <= j2 < ws.len() && ws[j2].account.client == c);
                let k = count_upto(shards, i2) + j2;
                lemma_count_upto_mono(shards, 0, i2);
                lemma_count_upto_mono(shards, i2 + 1, n as int);
                assert(row_matches(out@, k, self.worker_at(i2, j2)));
                assert(0 <= k < out@.len());
                assert(out@[k].client == c);
            }
            assert forall|k1: int, k2: int| 0 <= k1 < k2 < total implies (
            #[trigger] out@[k1]).client != (#[trigger] out@[k2]).client by {
                let (i1, j1) = lemma_flat_inverse(shards, k1, n as int);
                let (i2, j2) = lemma_flat_inverse(shards, k2, n as int);
                assert(row_matches(out@, k1, self.worker_at(i1, j1)));
                assert(row_matches(out@, k2, self.worker_at(i2, j2)));
                if i1 == i2 {
                    assert(j1 != j2) by {
                        if j1 == j2 {
                            assert(k1 == k2);
                        }
                    }
                    assert(shards[i1].workers@[j1].account.client
                        != shards[i2].workers@[j2].account.client);
                } else {
                    if shards[i1].workers@[j1].account.client
                        == shards[i2].workers@[j2].account.client {
                        assert(((shards[i1].workers@[j1].account.client as int) % (n as int))
                            == i1);
                        assert(((shards[i2].workers@[j2].account.client as int) % (n as int))
                            == i2);
                        assert(false);
                    }
                }
                assert(out@[k1].client == shards[i1].workers@[j1].account.client);
                assert(out@[k2].client == shards[i2].workers@[j2].account.client);
            }
        }
        out
    }
}

/// Row `k` of a snapshot equals worker `w`'s account and is well formed.
pub open spec fn row_matches(rows: Seq<Account>, k: int, w: WorkerModel) -> bool {
    &&& 0 <= k < rows.len()
    &&& rows[k]@ == w.account
    &&& account_wf(rows[k])
}

/// Number of workers in the shards before index `i`.
pub open spec fn count_upto(shards: Seq<Shard>, i: int) -> int
    decreases i,
{
    if i <= 0 {
        0
    } else {
        count_upto(shards, i - 1) + shards[i - 1].workers@.len()
    }
}

/// The worker count only grows with the shard prefix.
pub proof fn lemma_count_upto_mono(shards: Seq<Shard>, i: int, j: int)
    requires
        0 <= i <= j,
    ensures
        count_upto(shards, i) <= count_upto(shards, j),
    decreases j - i,
{
    if i < j {
        lemma_count_upto_mono(shards, i, j - 1);
    }
}

/// Every position below the total count belongs to exactly one worker.
pub proof fn lemma_flat_inverse(shards: Seq<Shard>, k: int, i: int) -> (r: (int, int))
    requires
        0 <= i <= shards.len(),
        0 <= k < count_upto(shards, i),
    ensures
        0 <= r.0 < i,
        0 <= r.1 < shards[r.0].workers@.len(),
        k == count_upto(shards, r.0) + r.1,
    decreases i,
{
    if k >= count_upto(shards, i - 1) {
        (i - 1, k - count_upto(shards, i - 1))
    } else {
        lemma_flat_inverse(shards, k, i - 1)
    }
}

} // verus!