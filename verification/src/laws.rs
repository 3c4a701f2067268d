//! The library's laws: properties that relate several operations, stated
//! over the mathematical models and proved once and for all.

use vstd::prelude::*;
use crate::account_worker::WorkerModel;
use crate::account_worker::apply_spec;
use crate::account_worker::chargeback_spec;
use crate::account_worker::dispute_spec;
use crate::account_worker::resolve_spec;
use crate::account_worker::store_wf;
use crate::account_worker::stored_lookup;
use crate::account_worker::worker_inv;
use crate::models::TransactionRow;
use crate::models::TransactionType;
use crate::models::is_new_money;
use crate::storage::StoredTransaction;
use crate::storage::TxEntry;
use crate::storage::find_key;
use crate::storage::has_key;
use crate::storage::lemma_find_key_from;
use crate::storage::value_of;
use crate::scalable_engine::EngineModel;
use crate::scalable_engine::engine_step;
use crate::scalable_engine::replay_run;
use crate::scalable_engine::replay_step;
use crate::codec::initial_model;
use crate::shard_manager::fresh_model;
use crate::shard_manager::manager_step;

verus! {

/// A successful dispute on a deposit of amount `a` moves exactly `a` from
/// available to held: available falls by `a` (and may go negative), held
/// rises by `a`, and the total is unchanged.
pub proof fn lemma_dispute_moves_amount(w: WorkerModel, cold: Seq<TxEntry>, tx: TransactionRow)
    requires
        dispute_spec(w, cold, tx).2 is Ok,
    ensures
        ({
            let w1 = dispute_spec(w, cold, tx).0;
            let a = stored_lookup(w.hot, cold, tx.tx).unwrap().amount;
            &&& w1.account.available == w.account.available - a
            &&& w1.account.held == w.account.held + a
            &&& w1.account.available + w1.account.held == w.account.available + w.account.held
            &&& w1.account.locked == w.account.locked
        }),
{
}

/// A successful chargeback on transaction T locks the account, removes T
/// from the history entirely, and lowers held by exactly T's held amount.
pub proof fn lemma_chargeback_outcome(w: WorkerModel, cold: Seq<TxEntry>, tx: TransactionRow)
    requires
        worker_inv(w, cold),
        store_wf(cold),
        chargeback_spec(w, cold, tx).2 is Ok,
    ensures
        ({
            let (w1, cold1, _) = chargeback_spec(w, cold, tx);
            let st = stored_lookup(w.hot, cold, tx.tx).unwrap();
            &&& w1.account.locked
            &&& stored_lookup(w1.hot, cold1, tx.tx) is None
            &&& w1.account.held == w.account.held - st.held_amount.unwrap()
            &&& w1.account.available == w.account.available
        }),
{
    let (w1, cold1, _) = chargeback_spec(w, cold, tx);
    let st = stored_lookup(w.hot, cold, tx.tx).unwrap();
    assert(st.disputed);
    if has_key(w.hot, tx.tx) {
        let i = find_key(w.hot, tx.tx);
        lemma_find_key_from(w.hot, tx.tx, 0);
        // the entry leaves the hot tier, and the cold tier never had it
        assert(w1.hot == w.hot.remove(i));
        assert(!has_key(cold, tx.tx));
        assert forall|j: int| 0 <= j < w1.hot.len() implies (#[trigger] w1.hot[j]).0 != tx.tx by {
            let j0 = if j < i {
                j
            } else {
                j + 1
            };
            assert(w1.hot[j] == w.hot[j0]);
        }
        lemma_find_key_from(w1.hot, tx.tx, 0);
        if find_key(w1.hot, tx.tx) != -1 {
            assert(false);
        }
    } else {
        let i = find_key(cold, tx.tx);
        lemma_find_key_from(cold, tx.tx, 0);
        assert(cold1 == cold.remove(i));
        assert forall|j: int| 0 <= j < cold1.len() implies (#[trigger] cold1[j]).0 != tx.tx by {
            let j0 = if j < i {
                j
            } else {
                j + 1
            };
            assert(cold1[j] == cold[j0]);
            if j0 != i && cold[j0].0 == tx.tx {
                assert(false);
            }
        }
        lemma_find_key_from(cold1, tx.tx, 0);
        if find_key(cold1, tx.tx) != -1 {
            assert(false);
        }
    }
}

/// Resolve undoes dispute: disputing an active deposit and then resolving
/// it returns the account and the whole history to their former state.
pub proof fn lemma_dispute_resolve_round_trip(
    w: WorkerModel,
    cold: Seq<TxEntry>,
    tx: TransactionRow,
)
    requires
        worker_inv(w, cold),
        store_wf(cold),
        tx.client == w.account.client,
        dispute_spec(w, cold, tx).2 is Ok,
    ensures
        ({
            let (w1, cold1, _) = dispute_spec(w, cold, tx);
            let rtx = TransactionRow { tx_type: TransactionType::Resolve, ..tx };
            let (w2, cold2, r2) = resolve_spec(w1, cold1, rtx);
            &&& r2 is Ok
            &&& w2 == w
            &&& cold2 == cold
        }),
{
    let (w1, cold1, _) = dispute_spec(w, cold, tx);
    let rtx = TransactionRow { tx_type: TransactionType::Resolve, ..tx };
    let st = stored_lookup(w.hot, cold, tx.tx).unwrap();
    let st2 = StoredTransaction { disputed: true, held_amount: Some(st.amount), ..st };
    let st3 = StoredTransaction { disputed: false, held_amount: None, ..st2 };
    if has_key(w.hot, tx.tx) {
        let i = find_key(w.hot, tx.tx);
        lemma_find_key_from(w.hot, tx.tx, 0);
        assert(w.hot[i] == (tx.tx, st));
        assert(w1.hot == w.hot.update(i, (tx.tx, st2)));
        lemma_find_key_update(w.hot, i, (tx.tx, st2));
        assert(find_key(w1.hot, tx.tx) == i);
        assert(value_of(w1.hot, tx.tx) == st2);
        assert(has_key(w1.hot, tx.tx));
        let (w2, cold2, r2) = resolve_spec(w1, cold1, rtx);
        assert(w2.hot == w1.hot.update(i, (tx.tx, st3)));
        assert(st3 == st);
        assert(w2.hot =~= w.hot);
        assert(w2.account =~= w.account);
        assert(w2 =~= w);
    } else {
        let i = find_key(cold, tx.tx);
        lemma_find_key_from(cold, tx.tx, 0);
        assert(cold[i] == (tx.tx, st));
        assert(cold1 == cold.update(i, (tx.tx, st2)));
        lemma_find_key_update(cold, i, (tx.tx, st2));
        assert(find_key(cold1, tx.tx) == i);
        assert(value_of(cold1, tx.tx) == st2);
        assert(!has_key(w1.hot, tx.tx)) by {
            assert(w1.hot == w.hot);
        }
        assert(has_key(cold1, tx.tx));
        let (w2, cold2, r2) = resolve_spec(w1, cold1, rtx);
        assert(cold2 == cold1.update(i, (tx.tx, st3)));
        assert(st3 == st);
        assert(cold2 =~= cold);
        assert(w2.account =~= w.account);
        assert(w2 =~= w);
    }
}

/// An in-place update with the same key is found at the same position.
proof fn lemma_find_key_update(s: Seq<TxEntry>, i: int, e: TxEntry)
    requires
        0 <= i < s.len(),
        e.0 == s[i].0,
    ensures
        find_key(s.update(i, e), e.0) == find_key(s, e.0),
    decreases s.len(),
{
    lemma_find_key_pointwise(s, s.update(i, e), e.0, 0);
}

/// Key lookups agree on sequences with pointwise equal keys.
proof fn lemma_find_key_pointwise(s1: Seq<TxEntry>, s2: Seq<TxEntry>, id: u32, i: int)
    requires
        0 <= i <= s1.len(),
        s1.len() == s2.len(),
        forall|j: int| 0 <= j < s1.len() ==> (#[trigger] s1[j]).0 == s2[j].0,
    ensures
        crate::storage::find_key_from(s1, id, i) == crate::storage::find_key_from(s2, id, i),
    decreases s1.len() - i,
{
    if i < s1.len() && s1[i].0 != id {
        lemma_find_key_pointwise(s1, s2, id, i + 1);
    }
}

/// The engine state after a whole record sequence, submitted in order.
pub open spec fn engine_run(m: EngineModel, txs: Seq<TransactionRow>, now: u64) -> EngineModel
    decreases txs.len(),
{
    if txs.len() == 0 {
        m
    } else {
        engine_step(engine_run(m, txs.drop_last(), now), txs.last(), now).0
    }
}

/// Every record of the sequence was accepted.
pub open spec fn all_accepted(m: EngineModel, txs: Seq<TransactionRow>, now: u64) -> bool
    decreases txs.len(),
{
    if txs.len() == 0 {
        true
    } else {
        all_accepted(m, txs.drop_last(), now) && engine_step(
            engine_run(m, txs.drop_last(), now),
            txs.last(),
            now,
        ).1 is Ok
    }
}

/// An accepted new-money record leaves its ID in the registry.
pub proof fn lemma_accepted_new_money_registered(m: EngineModel, tx: TransactionRow, now: u64)
    requires
        is_new_money(tx.tx_type),
        engine_step(m, tx, now).1 is Ok,
    ensures
        engine_step(m, tx, now).0.registry.contains(tx.tx),
{
}

/// No submission ever removes a previously registered ID: once accepted,
/// an ID is known for good.
pub proof fn lemma_registry_monotone(m: EngineModel, tx: TransactionRow, now: u64, id: u32)
    requires
        m.registry.contains(id),
    ensures
        engine_step(m, tx, now).0.registry.contains(id),
{
}

/// A run prefix extends by one step.
pub proof fn lemma_run_snoc(m: EngineModel, txs: Seq<TransactionRow>, now: u64, j: int)
    requires
        0 <= j < txs.len(),
    ensures
        engine_run(m, txs.take(j + 1), now) == engine_step(
            engine_run(m, txs.take(j), now),
            txs[j],
            now,
        ).0,
{
    assert(txs.take(j + 1).drop_last() =~= txs.take(j));
    assert(txs.take(j + 1).last() == txs[j]);
}

/// The ID of a new-money record accepted anywhere in a run is still in the
/// registry when the run ends: the registry keeps accepted IDs until
/// process exit.
pub proof fn theorem_new_money_ids_kept(
    m: EngineModel,
    txs: Seq<TransactionRow>,
    now: u64,
    k: int,
)
    requires
        0 <= k < txs.len(),
        is_new_money(txs[k].tx_type),
        engine_step(engine_run(m, txs.take(k), now), txs[k], now).1 is Ok,
    ensures
        engine_run(m, txs, now).registry.contains(txs[k].tx),
{
    lemma_accepted_new_money_registered(engine_run(m, txs.take(k), now), txs[k], now);
    lemma_run_snoc(m, txs, now, k);
    lemma_registry_kept_from(m, txs, now, k + 1, txs[k].tx);
    assert(txs.take(txs.len() as int) =~= txs);
}

proof fn lemma_registry_kept_from(
    m: EngineModel,
    txs: Seq<TransactionRow>,
    now: u64,
    j: int,
    id: u32,
)
    requires
        0 <= j <= txs.len(),
        engine_run(m, txs.take(j), now).registry.contains(id),
    ensures
        engine_run(m, txs.take(txs.len() as int), now).registry.contains(id),
    decreases txs.len() - j,
{
    if j < txs.len() {
        lemma_registry_monotone(engine_run(m, txs.take(j), now), txs[j], now, id);
        lemma_run_snoc(m, txs, now, j);
        lemma_registry_kept_from(m, txs, now, j + 1, id);
    }
}

/// Replay determinism: a fresh engine that accepted a record sequence logs
/// exactly that sequence, and replaying the log into a fresh engine
/// reproduces the workers, the cold tier, and the registry exactly.
pub proof fn theorem_replay_determinism(txs: Seq<TransactionRow>, now: u64)
    requires
        all_accepted(initial_model(), txs, now),
    ensures
        engine_run(initial_model(), txs, now).log == txs,
        ({
            let live = engine_run(initial_model(), txs, now);
            let rep = replay_run(initial_model(), live.log, now);
            &&& rep.workers == live.workers
            &&& rep.cold == live.cold
            &&& rep.registry == live.registry
        }),
    decreases txs.len(),
{
    if txs.len() == 0 {
        assert(engine_run(initial_model(), txs, now).log =~= txs);
    } else {
        let d = txs.drop_last();
        let tx = txs.last();
        theorem_replay_determinism(d, now);
        let pre = engine_run(initial_model(), d, now);
        let rep_pre = replay_run(initial_model(), d, now);
        assert(engine_step(pre, tx, now).1 is Ok);
        assert(!(is_new_money(tx.tx_type) && pre.registry.contains(tx.tx)));
        let live = engine_run(initial_model(), txs, now);
        assert(live == engine_step(pre, tx, now).0);
        assert(live.log =~= txs) by {
            assert(pre.log.push(tx) =~= txs);
        }
        let rep = replay_run(initial_model(), live.log, now);
        assert(live.log.drop_last() =~= d);
        assert(rep == replay_step(replay_run(initial_model(), d, now), tx, now));
        assert(manager_step(rep_pre.workers, rep_pre.cold, tx, now) == manager_step(
            pre.workers,
            pre.cold,
            tx,
            now,
        ));
    }
}

/// One sequential step of a single client's records: the registry gate,
/// the worker transition, and compensation, with nothing else around it.
pub open spec fn client_step(
    w: WorkerModel,
    cold: Seq<TxEntry>,
    reg: Set<u32>,
    tx: TransactionRow,
    now: u64,
) -> (WorkerModel, Seq<TxEntry>, Set<u32>) {
    if is_new_money(tx.tx_type) && reg.contains(tx.tx) {
        (w, cold, reg)
    } else {
        let o = apply_spec(w, cold, tx, now);
        (
            o.0,
            o.1,
            if o.2 is Ok && is_new_money(tx.tx_type) {
                reg.insert(tx.tx)
            } else {
                reg
            },
        )
    }
}

/// Sequential application of one client's records, in submission order.
pub open spec fn client_run(
    w: WorkerModel,
    cold: Seq<TxEntry>,
    reg: Set<u32>,
    txs: Seq<TransactionRow>,
    now: u64,
) -> (WorkerModel, Seq<TxEntry>, Set<u32>)
    decreases txs.len(),
{
    if txs.len() == 0 {
        (w, cold, reg)
    } else {
        let p = client_run(w, cold, reg, txs.drop_last(), now);
        client_step(p.0, p.1, p.2, txs.last(), now)
    }
}

/// Ordering: records of a single client, submitted serialized in order
/// `T1, ..., Tn`, leave exactly the state of their plain sequential
/// application, and no other client ever appears.
pub proof fn theorem_single_client_ordering(txs: Seq<TransactionRow>, c: u16, now: u64)
    requires
        forall|k: int| 0 <= k < txs.len() ==> (#[trigger] txs[k]).client == c,
    ensures
        ({
            let m = engine_run(initial_model(), txs, now);
            let r = client_run(fresh_model(c), Seq::empty(), Set::empty(), txs, now);
            &&& m.cold == r.1
            &&& m.registry == r.2
            &&& (forall|c2: u16| m.workers.dom().contains(c2) ==> c2 == c)
            &&& (m.workers.dom().contains(c) ==> m.workers[c] == r.0)
            &&& (!m.workers.dom().contains(c) ==> r.0 == fresh_model(c))
        }),
    decreases txs.len(),
{
    if txs.len() > 0 {
        let d = txs.drop_last();
        let tx = txs.last();
        assert(forall|k: int| 0 <= k < d.len() ==> (#[trigger] d[k]).client == c);
        theorem_single_client_ordering(d, c, now);
        let m = engine_run(initial_model(), d, now);
        let r = client_run(fresh_model(c), Seq::empty(), Set::empty(), d, now);
        assert(tx.client == c);
        let w0 = if m.workers.dom().contains(c) {
            m.workers[c]
        } else {
            fresh_model(c)
        };
        assert(w0 == r.0);
        if is_new_money(tx.tx_type) && m.registry.contains(tx.tx) {
            assert(engine_step(m, tx, now).0 == m);
        } else {
            let o = apply_spec(w0, cold_of(m), tx, now);
            let m1 = engine_step(m, tx, now).0;
            assert(m1.workers == m.workers.insert(c, o.0));
            assert(forall|c2: u16| m1.workers.dom().contains(c2) ==> c2 == c);
        }
    }
}

/// In every engine state the invariant allows, every live account holds a
/// non-negative held balance, and its total is the exact sum of available
/// and held funds as the snapshot renders it.
pub proof fn theorem_held_never_negative<S: crate::storage::TransactionStore>(
    e: &crate::scalable_engine::ScalableEngine<S>,
    c: u16,
)
    requires
        e.inv(),
        e@.workers.dom().contains(c),
    ensures
        e@.workers[c].account.held >= 0,
        !e@.workers[c].account.locked ==> e@.workers[c].account.available
            >= -e@.workers[c].account.held,
{
    let m = &e.shard_manager;
    let n = m.shards@.len() as int;
    let si = (c as int) % n;
    let ws = m.shards@[si].workers@;
    let j = crate::shard_manager::wfind(ws, c);
    crate::shard_manager::lemma_wfind_from(ws, c, 0);
    assert(worker_inv(m.worker_at(si, j), e.cold.entries()));
    assert(e@.workers[c] == m.worker_at(si, j));
}

/// The cold tier of a model, spelled as a helper for readability.
pub open spec fn cold_of(m: EngineModel) -> Seq<TxEntry> {
    m.cold
}


} // verus!
