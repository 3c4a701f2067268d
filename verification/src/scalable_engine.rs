//! The engine façade: registry gate, worker apply, event-log append.
//!
//! One submitted record runs the protocol: new-money records first claim
//! their globally unique ID in the registry; the record is then applied by
//! its client's worker; a failed apply releases the ID again
//! (compensation); a successful apply is appended to the event log. The
//! whole transition is the spec function [`engine_step`].

use vstd::prelude::*;
use crate::account_worker::row_amount_ok;
use crate::account_worker::store_wf;
use crate::account_worker::stored_lookup;
use crate::storage::value_of;
use crate::errors::ProcessingError;
use crate::event_store::EventStore;
use crate::models::Account;
use crate::models::TransactionRow;
use crate::models::TransactionType;
use crate::models::account_wf;
use crate::models::is_new_money;
use crate::shard_manager::ShardManager;
use crate::account_worker::WorkerModel;
use crate::shard_manager::fresh_model;
use crate::shard_manager::manager_step;
use crate::shard_manager::manager_write_failed;
use crate::storage::TransactionStore;
use crate::storage::TxEntry;
use crate::storage::held_sum;
use crate::storage::has_key;
use crate::tx_registry::ShardedTxRegistry;

verus! {

/// Mathematical state of the whole engine.
#[verifier::ext_equal]
pub struct EngineModel {
    /// Per-client worker states.
    pub workers: Map<u16, WorkerModel>,
    /// The shared cold tier.
    pub cold: Seq<TxEntry>,
    /// Accepted new-money transaction IDs.
    pub registry: Set<u32>,
    /// Accepted records, in order.
    pub log: Seq<TransactionRow>,
}

/// The submit protocol on the model: duplicate gate, apply, compensation,
/// log append.
pub open spec fn engine_step(m: EngineModel, tx: TransactionRow, now: u64) -> (
    EngineModel,
    Result<(), ProcessingError>,
) {
    if is_new_money(tx.tx_type) && m.registry.contains(tx.tx) {
        (m, Err(ProcessingError::DuplicateTransaction))
    } else {
        let o = manager_step(m.workers, m.cold, tx, now);
        match o.2 {
            Err(e) => (
                EngineModel { workers: o.0, cold: o.1, registry: m.registry, log: m.log },
                Err(e),
            ),
            Ok(()) => (
                EngineModel {
                    workers: o.0,
                    cold: o.1,
                    registry: if is_new_money(tx.tx_type) {
                        m.registry.insert(tx.tx)
                    } else {
                        m.registry
                    },
                    log: m.log.push(tx),
                },
                Ok(()),
            ),
        }
    }
}

/// The replay transition: records from the log are re-registered and
/// re-applied, errors ignored, nothing appended. A new-money record whose
/// ID is somehow already present is skipped.
pub open spec fn replay_step(m: EngineModel, tx: TransactionRow, now: u64) -> EngineModel {
    let reg1 = if is_new_money(tx.tx_type) {
        m.registry.insert(tx.tx)
    } else {
        m.registry
    };
    if is_new_money(tx.tx_type) && m.registry.contains(tx.tx) {
        EngineModel { registry: reg1, ..m }
    } else {
        let o = manager_step(m.workers, m.cold, tx, now);
        EngineModel { workers: o.0, cold: o.1, registry: reg1, log: m.log }
    }
}

/// Replay of a whole record sequence.
pub open spec fn replay_run(m: EngineModel, txs: Seq<TransactionRow>, now: u64) -> EngineModel
    decreases txs.len(),
{
    if txs.len() == 0 {
        m
    } else {
        replay_step(replay_run(m, txs.drop_last(), now), txs.last(), now)
    }
}

/// The state an executable replay reaches, given which records' cold
/// write-backs failed: the exact replay, except that a failed dispute or
/// resolve write-back leaves that record without effect.
pub open spec fn replay_trace(
    m: EngineModel,
    txs: Seq<TransactionRow>,
    fails: Seq<bool>,
    now: u64,
) -> EngineModel
    decreases txs.len(),
{
    if txs.len() == 0 {
        m
    } else {
        let prev = replay_trace(m, txs.drop_last(), fails.drop_last(), now);
        if fails.len() == txs.len() && fails.last() {
            replay_write_failed_step(prev, txs.last())
        } else {
            replay_step(prev, txs.last(), now)
        }
    }
}

/// With no failed write-backs, the trace is the exact replay.
pub proof fn lemma_replay_trace_exact(
    m: EngineModel,
    txs: Seq<TransactionRow>,
    fails: Seq<bool>,
    now: u64,
)
    requires
        fails.len() == txs.len(),
        forall|k: int| 0 <= k < fails.len() ==> !fails[k],
    ensures
        replay_trace(m, txs, fails, now) == replay_run(m, txs, now),
    decreases txs.len(),
{
    if txs.len() > 0 {
        assert(forall|k: int| 0 <= k < fails.drop_last().len() ==> !fails.drop_last()[k]);
        lemma_replay_trace_exact(m, txs.drop_last(), fails.drop_last(), now);
        assert(!fails.last());
    }
}

/// The state after a record whose cold write-back failed: the worker is
/// still routed (and created if absent) and a new-money ID still
/// registered, but nothing else changed.
pub open spec fn replay_write_failed_step(m: EngineModel, tx: TransactionRow) -> EngineModel {
    let w0 = if m.workers.dom().contains(tx.client) {
        m.workers[tx.client]
    } else {
        fresh_model(tx.client)
    };
    EngineModel { workers: m.workers.insert(tx.client, w0), ..m }
}

/// A transaction ID stored anywhere in a model: in the cold tier or in
/// some worker's hot history.
pub open spec fn mid_stored(m: EngineModel, id: u32) -> bool {
    ||| has_key(m.cold, id)
    ||| exists|c: u16| #[trigger] m.workers.dom().contains(c) && has_key(m.workers[c].hot, id)
}

/// The engine state after a submit whose cold write-back failed.
pub open spec fn engine_write_failed(
    m0: EngineModel,
    m1: EngineModel,
    tx: TransactionRow,
    r: Result<(), ProcessingError>,
) -> bool {
    &&& (tx.tx_type == TransactionType::Dispute || tx.tx_type == TransactionType::Resolve)
    &&& m1 == replay_write_failed_step(m0, tx)
    &&& r == Err::<(), ProcessingError>(ProcessingError::TransactionNotFound)
}

/// The engine: event log, shard manager, TX-ID registry, cold tier, and a
/// logical clock for creation timestamps.
pub struct ScalableEngine<S: TransactionStore> {
    pub event_store: EventStore,
    pub shard_manager: ShardManager,
    pub tx_registry: ShardedTxRegistry,
    pub cold: S,
    pub clock: u64,
}

impl<S: TransactionStore> ScalableEngine<S> {
    pub open spec fn view(&self) -> EngineModel {
        EngineModel {
            workers: self.shard_manager@,
            cold: self.cold.entries(),
            registry: self.tx_registry@,
            log: self.event_store@,
        }
    }

    /// The engine invariant: every structural and balance invariant of the
    /// parts; the registry knows every stored transaction ID; and a client
    /// without a worker holds nothing in the cold tier.
    pub open spec fn inv(&self) -> bool {
        &&& self.shard_manager.wf(self.cold.entries())
        &&& store_wf(self.cold.entries())
        &&& self.tx_registry.wf()
        &&& (forall|id: u32|
            #[trigger] self.shard_manager.id_stored(self.cold.entries(), id)
                ==> self.tx_registry@.contains(id))
        &&& (forall|c: u16|
            !(#[trigger] self.shard_manager.has_worker(c)) ==> held_sum(self.cold.entries(), c)
                == 0)
    }

    /// A fresh engine: empty log, empty registry, no workers, and an empty
    /// cold tier.
    pub fn new(num_shards: usize, cold: S) -> (e: ScalableEngine<S>)
        requires
            num_shards >= 1,
            cold.entries() =~= Seq::<TxEntry>::empty(),
        ensures
            e.inv(),
            e@.workers =~= Map::<u16, WorkerModel>::empty(),
            e@.cold =~= Seq::<TxEntry>::empty(),
            e@.registry =~= Set::<u32>::empty(),
            e@.log =~= Seq::<TransactionRow>::empty(),
            e.clock == 0,
    {
        let e = ScalableEngine {
            event_store: EventStore::new(),
            shard_manager: ShardManager::new(num_shards),
            tx_registry: ShardedTxRegistry::new(num_shards),
            cold,
            clock: 0,
        };
        proof {
            assert forall|c: u16| !(#[trigger] e.shard_manager.has_worker(c)) implies held_sum(
                e.cold.entries(),
                c,
            ) == 0 by {
                crate::storage::lemma_client_sums_bound(e.cold.entries(), c);
            }
            assert forall|id: u32|
                #[trigger] e.shard_manager.id_stored(e.cold.entries(), id) implies
                e.tx_registry@.contains(id) by {
                crate::storage::lemma_find_key_from(e.cold.entries(), id, 0);
                if e.shard_manager.id_stored(e.cold.entries(), id) {
                    let (i, j) = choose|i: int, j: int|
                        0 <= i < e.shard_manager.shards@.len() && 0 <= j
                            < e.shard_manager.shards@[i].workers@.len() && has_key(
                            (#[trigger] e.shard_manager.worker_at(i, j)).hot,
                            id,
                        );
                    assert(false);
                }
            }
        }
        e
    }

    /// Sets the logical clock used as the creation time of stored
    /// transactions.
    pub fn set_clock(&mut self, now: u64)
        requires
            old(self).inv(),
        ensures
            final(self).inv(),
            final(self)@ == old(self)@,
            final(self).clock == now,
    {
        self.clock = now;
    }

    /// Submits one record: the engine's sole write entry point.
    ///
    /// The outcome is exactly [`engine_step`] of the previous state, except
    /// that a failed cold write-back rejects the record with only the
    /// worker routing visible.
    pub fn process(&mut self, tx: TransactionRow) -> (r: Result<(), ProcessingError>)
        requires
            old(self).inv(),
            row_amount_ok(tx),
        ensures
            final(self).inv(),
            final(self).clock == old(self).clock,
            final(self).cold.may_fail_writes() == old(self).cold.may_fail_writes(),
            ({
                let o = engine_step(old(self)@, tx, old(self).clock);
                (final(self)@ == o.0 && r == o.1) || (engine_write_failed(
                    old(self)@,
                    final(self)@,
                    tx,
                    r,
                ) && old(self).cold.may_fail_writes())
            }),
    {
        let ghost m0 = self@;
        let is_new = match tx.tx_type {
            TransactionType::Deposit => true,
            TransactionType::Withdrawal => true,
            _ => false,
        };
        proof {
            assert(is_new == is_new_money(tx.tx_type));
        }
        if is_new {
            let fresh = self.tx_registry.register(tx.tx);
            if !fresh {
                proof {
                    assert(self.tx_registry@ =~= m0.registry);
                    assert(self@ =~= m0);
                }
                return Err(ProcessingError::DuplicateTransaction);
            }
        }
        let ghost reg1 = self.tx_registry@;
        proof {
            if is_new {
                // a fresh ID is stored nowhere
                assert(!m0.registry.contains(tx.tx));
                if self.shard_manager.id_stored(self.cold.entries(), tx.tx) {
                    assert(false);
                }
            }
        }
        let r = self.shard_manager.process(&mut self.cold, tx, self.clock);
        let ghost o = manager_step(m0.workers, m0.cold, tx, self.clock);
        match r {
            Err(e) => {
                if is_new {
                    self.tx_registry.unregister(tx.tx);
                    proof {
                        assert(self.tx_registry@ =~= m0.registry);
                    }
                }
                proof {
                    Self::lemma_after_process(*old(self), *self, tx);
                }
                Err(e)
            },
            Ok(()) => {
                self.event_store.append(&tx);
                proof {
                    Self::lemma_after_process(*old(self), *self, tx);
                }
                Ok(())
            },
        }
    }

    /// Rebuilds worker state from a previously written log (cold start).
    ///
    /// Every record is re-registered and re-applied through the normal
    /// path, without re-appending; application errors are ignored. A
    /// new-money record whose ID is already registered is skipped. The
    /// ghost result tells which records were lost to a failed cold
    /// write-back; with none, the state is the exact replay.
    pub fn rebuild_from_events(&mut self, events: &Vec<TransactionRow>) -> (fl: Ghost<Seq<bool>>)
        requires
            old(self).inv(),
            forall|k: int| 0 <= k < events@.len() ==> row_amount_ok(#[trigger] events@[k]),
        ensures
            final(self).inv(),
            final(self).clock == old(self).clock,
            final(self)@.log == old(self)@.log,
            final(self).cold.may_fail_writes() == old(self).cold.may_fail_writes(),
            fl@.len() == events@.len(),
            forall|k: int|
                0 <= k < fl@.len() && fl@[k] ==> (#[trigger] events@[k]).tx_type
                    == TransactionType::Dispute || events@[k].tx_type == TransactionType::Resolve,
            final(self)@ == replay_trace(old(self)@, events@, fl@, old(self).clock),
            !old(self).cold.may_fail_writes() ==> final(self)@ == replay_run(
                old(self)@,
                events@,
                old(self).clock,
            ),
    {
        let n = events.len();
        let mut i: usize = 0;
        let ghost mut fl: Seq<bool> = Seq::empty();
        proof {
            assert(events@.take(0) =~= Seq::<TransactionRow>::empty());
            assert(fl.take(0) =~= Seq::<bool>::empty());
        }
        while i < n
            invariant
                0 <= i <= n == events@.len(),
                self.inv(),
                self.clock == old(self).clock,
                self@.log == old(self)@.log,
                forall|k: int| 0 <= k < events@.len() ==> row_amount_ok(#[trigger] events@[k]),
                self.cold.may_fail_writes() == old(self).cold.may_fail_writes(),
                fl.len() == i,
                forall|k: int|
                    0 <= k < fl.len() && fl[k] ==> (#[trigger] events@[k]).tx_type
                        == TransactionType::Dispute || events@[k].tx_type
                        == TransactionType::Resolve,
                !old(self).cold.may_fail_writes() ==> (forall|k: int| 0 <= k < fl.len() ==> !fl[k]),
                self@ == replay_trace(old(self)@, events@.take(i as int), fl, old(self).clock),
            decreases n - i,
        {
            let tx = events[i];
            let ghost mid = self@;
            let ghost pre_self = *self;
            let is_new = match tx.tx_type {
                TransactionType::Deposit => true,
                TransactionType::Withdrawal => true,
                _ => false,
            };
            proof {
                assert(is_new == is_new_money(tx.tx_type));
                assert(row_amount_ok(events@[i as int]));
            }
            if is_new {
                let fresh = self.tx_registry.register(tx.tx);
                if fresh {
                    proof {
                        if self.shard_manager.id_stored(self.cold.entries(), tx.tx) {
                            assert(mid.registry.contains(tx.tx));
                            assert(false);
                        }
                    }
                    let _ = self.shard_manager.process(&mut self.cold, tx, self.clock);
                    proof {
                        Self::lemma_after_process(pre_self, *self, tx);
                        assert(self@ =~= replay_step(mid, tx, old(self).clock));
                        Self::lemma_trace_snoc(*old(self), events@, i as int, mid, tx, *self, fl, false);
                        fl = fl.push(false);
                    }
                } else {
                    proof {
                        assert(self.tx_registry@ =~= mid.registry.insert(tx.tx));
                        assert(self@ =~= replay_step(mid, tx, old(self).clock));
                        Self::lemma_trace_snoc(*old(self), events@, i as int, mid, tx, *self, fl, false);
                        fl = fl.push(false);
                    }
                }
            } else {
                let r = self.shard_manager.process(&mut self.cold, tx, self.clock);
                proof {
                    Self::lemma_after_process(pre_self, *self, tx);
                    let o = manager_step(mid.workers, mid.cold, tx, old(self).clock);
                    if self.shard_manager@ == o.0 && self.cold.entries() == o.1 {
                        assert(self@ =~= replay_step(mid, tx, old(self).clock));
                        Self::lemma_trace_snoc(*old(self), events@, i as int, mid, tx, *self, fl, false);
                        fl = fl.push(false);
                    } else {
                        assert(manager_write_failed(
                            mid.workers,
                            mid.cold,
                            self.shard_manager@,
                            self.cold.entries(),
                            tx,
                            r,
                        ));
                        assert(self@ =~= replay_write_failed_step(mid, tx));
                        Self::lemma_trace_snoc(*old(self), events@, i as int, mid, tx, *self, fl, true);
                        fl = fl.push(true);
                    }
                }
            }
            i = i + 1;
        }
        proof {
            assert(events@.take(n as int) =~= events@);
            if !old(self).cold.may_fail_writes() {
                lemma_replay_trace_exact(old(self)@, events@, fl, old(self).clock);
            }
        }
        Ghost(fl)
    }

    /// One replay step extends the trace.
    proof fn lemma_trace_snoc(
        start: ScalableEngine<S>,
        events: Seq<TransactionRow>,
        i: int,
        mid: EngineModel,
        tx: TransactionRow,
        post: ScalableEngine<S>,
        fl: Seq<bool>,
        failed: bool,
    )
        requires
            0 <= i < events.len(),
            tx == events[i],
            fl.len() == i,
            mid == replay_trace(start@, events.take(i), fl, start.clock),
            !failed ==> post@ == replay_step(mid, tx, start.clock),
            failed ==> post@ == replay_write_failed_step(mid, tx),
        ensures
            post@ == replay_trace(start@, events.take(i + 1), fl.push(failed), start.clock),
    {
        let txs = events.take(i + 1);
        let fl2 = fl.push(failed);
        assert(txs.drop_last() =~= events.take(i));
        assert(fl2.drop_last() =~= fl);
        assert(txs.last() == tx);
        assert(fl2.last() == failed);
        assert(fl2.len() == txs.len());
    }

    /// Moves one client's transactions older than `cutoff` into the cold
    /// tier. Balances, the registry, and the log are untouched; lookups see
    /// the same history.
    pub fn migrate(&mut self, client_id: u16, cutoff: u64)
        requires
            old(self).inv(),
        ensures
            final(self).inv(),
            final(self).clock == old(self).clock,
            final(self).cold.may_fail_writes() == old(self).cold.may_fail_writes(),
            final(self)@.registry == old(self)@.registry,
            final(self)@.log == old(self)@.log,
            final(self)@.workers.dom() =~= old(self)@.workers.dom(),
            forall|c2: u16|
                #[trigger] old(self)@.workers.dom().contains(c2) ==> final(self)@.workers[
                    c2
                ].account == old(self)@.workers[c2].account,
            old(self)@.workers.dom().contains(client_id) ==> (forall|id: u32|
                #[trigger] stored_lookup(
                    final(self)@.workers[client_id].hot,
                    final(self)@.cold,
                    id,
                ) == stored_lookup(old(self)@.workers[client_id].hot, old(self)@.cold, id)),
            old(self)@.workers.dom().contains(client_id) ==> (forall|id: u32|
                has_key(old(self)@.workers[client_id].hot, id) && (#[trigger] value_of(
                    old(self)@.workers[client_id].hot,
                    id,
                )).created_at >= cutoff ==> has_key(final(self)@.workers[client_id].hot, id)),
            old(self)@.workers.dom().contains(client_id) && !old(self).cold.may_fail_writes()
                ==> (forall|j: int|
                0 <= j < final(self)@.workers[client_id].hot.len()
                    ==> (#[trigger] final(self)@.workers[client_id].hot[j]).1.created_at
                    >= cutoff),
    {
        self.shard_manager.migrate_client(&mut self.cold, client_id, cutoff);
        proof {
            assert forall|id: u32|
                #[trigger] self.shard_manager.id_stored(self.cold.entries(), id) implies
                self.tx_registry@.contains(id) by {
                assert(old(self).shard_manager.id_stored(old(self).cold.entries(), id));
            }
            assert forall|c2: u16|
                !(#[trigger] self.shard_manager.has_worker(c2)) implies held_sum(
                self.cold.entries(),
                c2,
            ) == 0 by {
                assert(self.shard_manager@.dom().contains(c2) == self.shard_manager.has_worker(
                    c2,
                ));
                assert(!old(self).shard_manager.has_worker(c2));
                if c2 != client_id {
                    assert(held_sum(self.cold.entries(), c2) == held_sum(
                        old(self).cold.entries(),
                        c2,
                    ));
                } else {
                    assert(self.cold.entries() == old(self).cold.entries());
                }
            }
            assert forall|c2: u16|
                #[trigger] old(self)@.workers.dom().contains(c2) implies self@.workers[c2].account
                == old(self)@.workers[c2].account by {
                if c2 != client_id {
                    assert(self.shard_manager@[c2] == old(self).shard_manager@[c2]);
                }
            }
        }
    }

    /// Snapshots of every live account, one per client.
    pub fn get_accounts(&self) -> (r: Vec<Account>)
        requires
            self.inv(),
        ensures
            forall|k: int|
                0 <= k < r@.len() ==> account_wf(#[trigger] r@[k]) && self@.workers.dom().contains(
                    r@[k].client,
                ) && r@[k]@ == self@.workers[r@[k].client].account,
            forall|c: u16|
                #[trigger] self@.workers.dom().contains(c) ==> exists|k: int|
                    0 <= k < r@.len() && r@[k].client == c,
            forall|k1: int, k2: int| 0 <= k1 < k2 < r@.len() ==> r@[k1].client != r@[k2].client,
    {
        self.shard_manager.get_all_accounts(&self.cold)
    }

    /// The snapshot of one client, if that client has ever been seen.
    pub fn get_account(&self, client_id: u16) -> (r: Option<Account>)
        requires
            self.inv(),
        ensures
            match r {
                Some(a) => self@.workers.dom().contains(client_id) && a@
                    == self@.workers[client_id].account && account_wf(a),
                None => !self@.workers.dom().contains(client_id),
            },
    {
        self.shard_manager.get_account(&self.cold, client_id)
    }

    /// Re-establishes the engine invariant after a routed apply, whether
    /// from a live submit or from replay: the registry must still cover
    /// every stored transaction ID.
    proof fn lemma_after_process(
        pre: ScalableEngine<S>,
        post: ScalableEngine<S>,
        tx: TransactionRow,
    )
        requires
            pre.inv(),
            post.shard_manager.wf(post.cold.entries()),
            store_wf(post.cold.entries()),
            post.tx_registry.wf(),
            crate::account_worker::cold_local_to(tx.client, pre.cold.entries(), post.cold.entries()),
            forall|id: u32|
                #[trigger] post.shard_manager.id_stored(post.cold.entries(), id)
                    ==> pre.shard_manager.id_stored(pre.cold.entries(), id) || id == tx.tx,
            !is_new_money(tx.tx_type) ==> (forall|id: u32|
                #[trigger] post.shard_manager.id_stored(post.cold.entries(), id)
                    ==> pre.shard_manager.id_stored(pre.cold.entries(), id)),
            forall|x: u32| pre.tx_registry@.contains(x) ==> post.tx_registry@.contains(x),
            is_new_money(tx.tx_type) && post.shard_manager.id_stored(
                post.cold.entries(),
                tx.tx,
            ) ==> post.tx_registry@.contains(tx.tx),
            post.shard_manager@.dom() =~= pre.shard_manager@.dom().insert(tx.client),
        ensures
            post.inv(),
    {
        assert forall|id: u32|
            #[trigger] post.shard_manager.id_stored(post.cold.entries(), id) implies
            post.tx_registry@.contains(id) by {
            if pre.shard_manager.id_stored(pre.cold.entries(), id) {
                assert(pre.tx_registry@.contains(id));
            } else {
                assert(id == tx.tx);
                if !is_new_money(tx.tx_type) {
                    assert(false);
                }
            }
        }
        assert forall|c: u16| !(#[trigger] post.shard_manager.has_worker(c)) implies held_sum(
            post.cold.entries(),
            c,
        ) == 0 by {
            assert(post.shard_manager@.dom().contains(c) == post.shard_manager.has_worker(c));
            assert(!pre.shard_manager.has_worker(c));
            assert(c != tx.client);
            assert(held_sum(post.cold.entries(), c) == held_sum(pre.cold.entries(), c));
        }
    }
}

} // verus!
