//! The per-account worker: serial owner of one account's balances and its
//! hot transaction history.
//!
//! Every operation is specified against a mathematical model
//! ([`WorkerModel`], [`apply_spec`]) and proved to preserve the account
//! invariants: `held` is never negative, `total = available + held` is
//! bounded by the stored deposits, and a locked account never changes.

use vstd::prelude::*;
use crate::amount::MAX_AMOUNT_UNITS;
use crate::errors::ProcessingError;
use crate::models::Account;
use crate::models::account_wf;
use crate::models::AccountModel;
use crate::models::TransactionRow;
use crate::models::TransactionType;
use crate::models::is_new_money;
use crate::storage::StoredTransaction;
use crate::storage::TransactionStore;
use crate::storage::TxEntry;
use crate::storage::dep_sum;
use crate::storage::dep_weight;
use crate::storage::entries_wf;
use crate::storage::find_key;
use crate::storage::has_key;
use crate::storage::held_sum;
use crate::storage::held_weight;
use crate::storage::lemma_client_sums_bound;
use crate::storage::lemma_find_key_from;
use crate::storage::lemma_nodup_insert;
use crate::storage::lemma_nodup_remove;
use crate::storage::lemma_keys_remove;
use crate::storage::lemma_keys_update;
use crate::storage::lemma_keys_push;
use crate::storage::lemma_find_key_push;
use crate::storage::lemma_find_key_remove_other;
use crate::storage::lemma_wsum_push;
use crate::storage::lemma_wsum_remove;
use crate::storage::lemma_wsum_lower_one;
use crate::storage::lemma_wsum_bound_nonneg;
use crate::storage::lemma_wsum_update;
use crate::storage::nodup_keys;
use crate::storage::stored_wf;
use crate::storage::value_of;
use crate::storage::TxTable;

verus! {

/// A well-formed store seq: unique keys, well-formed entries.
pub open spec fn store_wf(s: Seq<TxEntry>) -> bool {
    nodup_keys(s) && entries_wf(s)
}

/// Mathematical state of one worker: the account and the hot history.
#[verifier::ext_equal]
pub struct WorkerModel {
    pub account: AccountModel,
    pub hot: Seq<TxEntry>,
}

/// The worker invariant, relative to the shared cold tier.
///
/// The balances are tied to the stored history: `held` equals the sum of
/// the currently disputed amounts of this client, and `available + held`
/// never exceeds the sum of this client's stored deposits.
pub open spec fn worker_inv(w: WorkerModel, cold: Seq<TxEntry>) -> bool {
    let c = w.account.client;
    &&& nodup_keys(w.hot)
    &&& entries_wf(w.hot)
    &&& (forall|i: int| 0 <= i < w.hot.len() ==> (#[trigger] w.hot[i]).1.client == c)
    &&& (forall|i: int| 0 <= i < w.hot.len() ==> !has_key(cold, (#[trigger] w.hot[i]).0))
    &&& w.account.held == held_sum(w.hot, c) + held_sum(cold, c)
    &&& w.account.held >= 0
    &&& w.account.available + w.account.held <= dep_sum(w.hot, c) + dep_sum(cold, c)
    &&& (!w.account.locked ==> w.account.available >= -w.account.held)
    &&& w.account.available >= -w.account.held - MAX_AMOUNT_UNITS
}

/// Validation of the amount field of a new-money record.
pub open spec fn validate_amount_spec(amount: Option<i64>) -> Result<i64, ProcessingError> {
    match amount {
        None => Err(ProcessingError::MissingAmount),
        Some(a) => if a <= 0 {
            Err(ProcessingError::InvalidAmount)
        } else {
            Ok(a)
        },
    }
}

/// Lookup across the tiers: the hot history first, then the cold store.
pub open spec fn stored_lookup(hot: Seq<TxEntry>, cold: Seq<TxEntry>, id: u32) -> Option<
    StoredTransaction,
> {
    if has_key(hot, id) {
        Some(value_of(hot, id))
    } else if has_key(cold, id) {
        Some(value_of(cold, id))
    } else {
        None
    }
}

/// Writes `st` back to whichever tier the entry keyed `id` was found in.
pub open spec fn write_back(hot: Seq<TxEntry>, cold: Seq<TxEntry>, id: u32, st: StoredTransaction)
    -> (Seq<TxEntry>, Seq<TxEntry>) {
    if has_key(hot, id) {
        (hot.update(find_key(hot, id), (id, st)), cold)
    } else {
        (hot, cold.update(find_key(cold, id), (id, st)))
    }
}

/// Removes the entry keyed `id` from whichever tier holds it.
pub open spec fn remove_stored(hot: Seq<TxEntry>, cold: Seq<TxEntry>, id: u32) -> (
    Seq<TxEntry>,
    Seq<TxEntry>,
) {
    if has_key(hot, id) {
        (hot.remove(find_key(hot, id)), cold)
    } else if has_key(cold, id) {
        (hot, cold.remove(find_key(cold, id)))
    } else {
        (hot, cold)
    }
}

pub open spec fn deposit_spec(w: WorkerModel, cold: Seq<TxEntry>, tx: TransactionRow, now: u64)
    -> (WorkerModel, Seq<TxEntry>, Result<(), ProcessingError>) {
    match validate_amount_spec(tx.amount) {
        Err(e) => (w, cold, Err(e)),
        Ok(a) => {
            if w.account.locked {
                (w, cold, Err(ProcessingError::AccountLocked))
            } else {
                let st = StoredTransaction {
                    client: w.account.client,
                    tx_type: TransactionType::Deposit,
                    amount: a,
                    disputed: false,
                    held_amount: None,
                    created_at: now,
                };
                let account = AccountModel { available: w.account.available + a, ..w.account };
                (WorkerModel { account, hot: w.hot.push((tx.tx, st)) }, cold, Ok(()))
            }
        },
    }
}

pub open spec fn withdrawal_spec(w: WorkerModel, cold: Seq<TxEntry>, tx: TransactionRow, now: u64)
    -> (WorkerModel, Seq<TxEntry>, Result<(), ProcessingError>) {
    match validate_amount_spec(tx.amount) {
        Err(e) => (w, cold, Err(e)),
        Ok(a) => {
            if w.account.locked {
                (w, cold, Err(ProcessingError::AccountLocked))
            } else if w.account.available < a {
                (w, cold, Err(ProcessingError::InsufficientFunds))
            } else {
                let st = StoredTransaction {
                    client: w.account.client,
                    tx_type: TransactionType::Withdrawal,
                    amount: a,
                    disputed: false,
                    held_amount: None,
                    created_at: now,
                };
                let account = AccountModel { available: w.account.available - a, ..w.account };
                (WorkerModel { account, hot: w.hot.push((tx.tx, st)) }, cold, Ok(()))
            }
        },
    }
}

pub open spec fn dispute_spec(w: WorkerModel, cold: Seq<TxEntry>, tx: TransactionRow) -> (
    WorkerModel,
    Seq<TxEntry>,
    Result<(), ProcessingError>,
) {
    if w.account.locked {
        (w, cold, Err(ProcessingError::AccountLocked))
    } else {
        match stored_lookup(w.hot, cold, tx.tx) {
            None => (w, cold, Err(ProcessingError::TransactionNotFound)),
            Some(st) => {
                if st.client != w.account.client {
                    (w, cold, Err(ProcessingError::ClientMismatch))
                } else if st.tx_type != TransactionType::Deposit {
                    (w, cold, Err(ProcessingError::TransactionNotFound))
                } else if st.disputed {
                    (w, cold, Err(ProcessingError::AlreadyDisputed))
                } else {
                    let st2 = StoredTransaction {
                        disputed: true,
                        held_amount: Some(st.amount),
                        ..st
                    };
                    let (hot2, cold2) = write_back(w.hot, cold, tx.tx, st2);
                    let account = AccountModel {
                        available: w.account.available - st.amount,
                        held: w.account.held + st.amount,
                        ..w.account
                    };
                    (WorkerModel { account, hot: hot2 }, cold2, Ok(()))
                }
            },
        }
    }
}

pub open spec fn resolve_spec(w: WorkerModel, cold: Seq<TxEntry>, tx: TransactionRow) -> (
    WorkerModel,
    Seq<TxEntry>,
    Result<(), ProcessingError>,
) {
    if w.account.locked {
        (w, cold, Err(ProcessingError::AccountLocked))
    } else {
        match stored_lookup(w.hot, cold, tx.tx) {
            None => (w, cold, Err(ProcessingError::TransactionNotFound)),
            Some(st) => {
                if st.client != w.account.client {
                    (w, cold, Err(ProcessingError::ClientMismatch))
                } else if !st.disputed {
                    (w, cold, Err(ProcessingError::NotDisputed))
                } else {
                    let h = match st.held_amount {
                        Some(h) => h,
                        None => st.amount,
                    };
                    let st2 = StoredTransaction { disputed: false, held_amount: None, ..st };
                    let (hot2, cold2) = write_back(w.hot, cold, tx.tx, st2);
                    let account = AccountModel {
                        available: w.account.available + h,
                        held: w.account.held - h,
                        ..w.account
                    };
                    (WorkerModel { account, hot: hot2 }, cold2, Ok(()))
                }
            },
        }
    }
}

pub open spec fn chargeback_spec(w: WorkerModel, cold: Seq<TxEntry>, tx: TransactionRow) -> (
    WorkerModel,
    Seq<TxEntry>,
    Result<(), ProcessingError>,
) {
    if w.account.locked {
        (w, cold, Err(ProcessingError::AccountLocked))
    } else {
        match stored_lookup(w.hot, cold, tx.tx) {
            None => (w, cold, Err(ProcessingError::TransactionNotFound)),
            Some(st) => {
                if st.client != w.account.client {
                    (w, cold, Err(ProcessingError::ClientMismatch))
                } else if !st.disputed {
                    (w, cold, Err(ProcessingError::NotDisputed))
                } else {
                    let h = match st.held_amount {
                        Some(h) => h,
                        None => 0,
                    };
                    let (hot2, cold2) = remove_stored(w.hot, cold, tx.tx);
                    let account = AccountModel {
                        held: w.account.held - h,
                        locked: true,
                        ..w.account
                    };
                    (WorkerModel { account, hot: hot2 }, cold2, Ok(()))
                }
            },
        }
    }
}

/// The transition of one worker on one record: the model the executable
/// worker is proved against.
pub open spec fn apply_spec(w: WorkerModel, cold: Seq<TxEntry>, tx: TransactionRow, now: u64) -> (
    WorkerModel,
    Seq<TxEntry>,
    Result<(), ProcessingError>,
) {
    match tx.tx_type {
        TransactionType::Deposit => deposit_spec(w, cold, tx, now),
        TransactionType::Withdrawal => withdrawal_spec(w, cold, tx, now),
        TransactionType::Dispute => dispute_spec(w, cold, tx),
        TransactionType::Resolve => resolve_spec(w, cold, tx),
        TransactionType::Chargeback => chargeback_spec(w, cold, tx),
    }
}

/// Records the one escape from the model: a failed cold-tier write-back.
/// Nothing changed and the record was rejected.
pub open spec fn cold_write_failed(
    w0: WorkerModel,
    cold0: Seq<TxEntry>,
    w1: WorkerModel,
    cold1: Seq<TxEntry>,
    tx: TransactionRow,
    r: Result<(), ProcessingError>,
) -> bool {
    &&& (tx.tx_type == TransactionType::Dispute || tx.tx_type == TransactionType::Resolve)
    &&& w1 == w0
    &&& cold1 == cold0
    &&& r == Err::<(), ProcessingError>(ProcessingError::TransactionNotFound)
}

/// The cold tier changed only in entries of client `c`: every other
/// client's sums are untouched, and no key appeared.
pub open spec fn cold_local_to(c: u16, cold0: Seq<TxEntry>, cold1: Seq<TxEntry>) -> bool {
    &&& (forall|c2: u16|
        c2 != c ==> held_sum(cold1, c2) == held_sum(cold0, c2) && dep_sum(cold1, c2) == dep_sum(
            cold0,
            c2,
        ))
    &&& (forall|id: u32| #[trigger] has_key(cold1, id) ==> has_key(cold0, id))
}

/// The hot history gained at most the submitted ID.
pub open spec fn hot_keys_bounded(hot0: Seq<TxEntry>, hot1: Seq<TxEntry>, tx_id: u32) -> bool {
    forall|id: u32| #[trigger] has_key(hot1, id) ==> has_key(hot0, id) || id == tx_id
}

/// Amount precondition on submitted rows: machine bound only.
pub open spec fn row_amount_ok(tx: TransactionRow) -> bool {
    match tx.amount {
        Some(a) => a <= MAX_AMOUNT_UNITS,
        None => true,
    }
}

/// A new-money ID must be fresh for this worker and the cold tier; the
/// engine guarantees it through the registry.
pub open spec fn fresh_for(w: WorkerModel, cold: Seq<TxEntry>, tx: TransactionRow) -> bool {
    is_new_money(tx.tx_type) ==> !has_key(w.hot, tx.tx) && !has_key(cold, tx.tx)
}

/// A worker of another client keeps its invariant when the cold tier
/// changes only in entries of client `c`.
pub proof fn lemma_worker_inv_cold_local(
    w: WorkerModel,
    c: u16,
    cold0: Seq<TxEntry>,
    cold1: Seq<TxEntry>,
)
    requires
        worker_inv(w, cold0),
        cold_local_to(c, cold0, cold1),
        w.account.client != c,
    ensures
        worker_inv(w, cold1),
{
    assert(held_sum(cold1, w.account.client) == held_sum(cold0, w.account.client));
    assert(dep_sum(cold1, w.account.client) == dep_sum(cold0, w.account.client));
    assert forall|i: int| 0 <= i < w.hot.len() implies !has_key(
        cold1,
        (#[trigger] w.hot[i]).0,
    ) by {
        if has_key(cold1, w.hot[i].0) {
            assert(has_key(cold0, w.hot[i].0));
        }
    }
}

/// A record that creates no new money never adds a key to the hot history.
pub proof fn lemma_apply_keys_non_new(
    w: WorkerModel,
    cold: Seq<TxEntry>,
    tx: TransactionRow,
    now: u64,
)
    requires
        !is_new_money(tx.tx_type),
        nodup_keys(w.hot),
    ensures
        forall|id: u32|
            #[trigger] has_key(apply_spec(w, cold, tx, now).0.hot, id) ==> has_key(w.hot, id),
{
    let hot1 = apply_spec(w, cold, tx, now).0.hot;
    assert forall|id: u32| #[trigger] has_key(hot1, id) implies has_key(w.hot, id) by {
        if hot1 != w.hot {
            // the record succeeded against a hot entry: update or removal
            if has_key(w.hot, tx.tx) {
                let i = find_key(w.hot, tx.tx);
                lemma_find_key_from(w.hot, tx.tx, 0);
                if tx.tx_type == TransactionType::Chargeback {
                    lemma_keys_remove(w.hot, i, id);
                } else {
                    if hot1 == w.hot.update(i, (tx.tx, value_of(w.hot, tx.tx))) || hot1 != w.hot {
                        if 0 <= i < w.hot.len() {
                            lemma_keys_update_any(w.hot, i, id);
                        }
                    }
                }
            }
        }
    }
}

/// Helper: an update at a position whose key is already present introduces
/// no key beyond that one.
proof fn lemma_keys_update_any(s: Seq<TxEntry>, i: int, id: u32)
    requires
        0 <= i < s.len(),
    ensures
        forall|e: TxEntry|
            #[trigger] has_key(s.update(i, e), id) && e.0 == s[i].0 ==> has_key(s, id),
{
    assert forall|e: TxEntry|
        #[trigger] has_key(s.update(i, e), id) && e.0 == s[i].0 implies has_key(s, id) by {
        lemma_keys_update(s, i, e, id);
        if id == e.0 {
            lemma_find_key_from(s, id, 0);
            assert(s[i].0 == id);
            if find_key(s, id) == -1 {
                assert(false);
            }
        }
    }
}

/// A rejected record changes nothing: every error branch of the model
/// returns the state unchanged.
pub proof fn lemma_apply_spec_err(w: WorkerModel, cold: Seq<TxEntry>, tx: TransactionRow, now: u64)
    ensures
        apply_spec(w, cold, tx, now).2 is Err ==> apply_spec(w, cold, tx, now).0 == w
            && apply_spec(w, cold, tx, now).1 == cold,
{
    match tx.tx_type {
        TransactionType::Deposit => {
        },
        TransactionType::Withdrawal => {
        },
        TransactionType::Dispute => {
        },
        TransactionType::Resolve => {
        },
        TransactionType::Chargeback => {
        },
    }
}

/// Serial owner of one account: balances plus hot history.
pub struct AccountWorker {
    pub account: Account,
    pub hot: TxTable,
}

impl AccountWorker {
    pub open spec fn view(&self) -> WorkerModel {
        WorkerModel { account: self.account@, hot: self.hot@ }
    }

    /// A fresh worker with an empty, unlocked account and no history.
    pub fn new(client_id: u16) -> (w: AccountWorker)
        ensures
            w@.account.client == client_id,
            w@.account.available == 0,
            w@.account.held == 0,
            !w@.account.locked,
            w@.hot =~= Seq::<TxEntry>::empty(),
    {
        AccountWorker { account: Account::new(client_id), hot: TxTable::new() }
    }

    /// Shared arithmetic headroom: with both tier lengths in hand, every
    /// balance reachable under the invariant is far from the `i128` limits.
    proof fn lemma_headroom(w: WorkerModel, cold: Seq<TxEntry>, hn: int, cn: int)
        requires
            worker_inv(w, cold),
            entries_wf(cold),
            hn == w.hot.len(),
            cn == cold.len(),
            hn <= 0xffff_ffff_ffff_ffff,
            cn <= 0xffff_ffff_ffff_ffff,
        ensures
            w.account.available + w.account.held <= 2 * 0xffff_ffff_ffff_ffff
                * MAX_AMOUNT_UNITS,
            0 <= w.account.held <= 2 * 0xffff_ffff_ffff_ffff * MAX_AMOUNT_UNITS,
            w.account.available >= -2 * 0xffff_ffff_ffff_ffff * MAX_AMOUNT_UNITS
                - MAX_AMOUNT_UNITS,
    {
        let c = w.account.client;
        lemma_client_sums_bound(w.hot, c);
        lemma_client_sums_bound(cold, c);
        assert(hn * MAX_AMOUNT_UNITS <= 0xffff_ffff_ffff_ffff * MAX_AMOUNT_UNITS) by (
        nonlinear_arith)
            requires
                0 <= hn <= 0xffff_ffff_ffff_ffff,
        ;
        assert(cn * MAX_AMOUNT_UNITS <= 0xffff_ffff_ffff_ffff * MAX_AMOUNT_UNITS) by (
        nonlinear_arith)
            requires
                0 <= cn <= 0xffff_ffff_ffff_ffff,
        ;
        assert(w.account.held <= held_sum(w.hot, c) + held_sum(cold, c));
        assert(w.account.available >= -w.account.held - MAX_AMOUNT_UNITS);
    }

    /// Applies a deposit: adds to available and stores the transaction.
    ///
    /// Fails with `MissingAmount` or `InvalidAmount` on a bad amount field
    /// and with `AccountLocked` on a locked account, if and only if so, and
    /// then changes nothing.
    pub fn process_deposit<S: TransactionStore>(
        &mut self,
        cold: &mut S,
        tx: TransactionRow,
        now: u64,
    ) -> (r: Result<(), ProcessingError>)
        requires
            worker_inv(old(self)@, old(cold).entries()),
            store_wf(old(cold).entries()),
            tx.client == old(self)@.account.client,
            row_amount_ok(tx),
            !has_key(old(self)@.hot, tx.tx),
            !has_key(old(cold).entries(), tx.tx),
        ensures
            worker_inv(final(self)@, final(cold).entries()),
            store_wf(final(cold).entries()),
            final(cold).may_fail_writes() == old(cold).may_fail_writes(),
            final(self)@ == deposit_spec(old(self)@, old(cold).entries(), tx, now).0,
            final(cold).entries() == deposit_spec(old(self)@, old(cold).entries(), tx, now).1,
            r == deposit_spec(old(self)@, old(cold).entries(), tx, now).2,
            final(self)@.account.client == old(self)@.account.client,
            cold_local_to(old(self)@.account.client, old(cold).entries(), final(cold).entries()),
            hot_keys_bounded(old(self)@.hot, final(self)@.hot, tx.tx),
    {
        let ghost w0 = self@;
        let ghost cold0 = cold.entries();
        let ghost c = self@.account.client;
        let a = match self.validate_amount(tx.amount) {
            Err(e) => {
                return Err(e);
            },
            Ok(a) => a,
        };
        if self.account.locked {
            return Err(ProcessingError::AccountLocked);
        }
        let hn = self.hot.len();
        let cn = cold.len();
        proof {
            Self::lemma_headroom(w0, cold0, hn as int, cn as int);
        }
        self.account.available = self.account.available + (a as i128);
        let st = StoredTransaction {
            client: self.account.client,
            tx_type: TransactionType::Deposit,
            amount: a,
            disputed: false,
            held_amount: None,
            created_at: now,
        };
        self.hot.insert(tx.tx, st);
        proof {
            let e = (tx.tx, st);
            lemma_nodup_insert(w0.hot, tx.tx, st);
            lemma_wsum_push(w0.hot, dep_weight(c), e);
            lemma_wsum_push(w0.hot, held_weight(c), e);
            assert(dep_weight(c)(e) == a as int);
            assert(held_weight(c)(e) == 0);
            assert(self@.hot =~= w0.hot.push(e));
            assert forall|id: u32| #[trigger] has_key(self@.hot, id) implies has_key(w0.hot, id)
                || id == tx.tx by {
                lemma_keys_push(w0.hot, e, id);
            }
        }
        Ok(())
    }

    /// Applies a withdrawal: subtracts from available and stores the
    /// transaction for audit.
    ///
    /// Fails on a bad amount field, a locked account, or
    /// `InsufficientFunds` when available is short, if and only if so, and
    /// then changes nothing.
    pub fn process_withdrawal<S: TransactionStore>(
        &mut self,
        cold: &mut S,
        tx: TransactionRow,
        now: u64,
    ) -> (r: Result<(), ProcessingError>)
        requires
            worker_inv(old(self)@, old(cold).entries()),
            store_wf(old(cold).entries()),
            tx.client == old(self)@.account.client,
            row_amount_ok(tx),
            !has_key(old(self)@.hot, tx.tx),
            !has_key(old(cold).entries(), tx.tx),
        ensures
            worker_inv(final(self)@, final(cold).entries()),
            store_wf(final(cold).entries()),
            final(cold).may_fail_writes() == old(cold).may_fail_writes(),
            final(self)@ == withdrawal_spec(old(self)@, old(cold).entries(), tx, now).0,
            final(cold).entries() == withdrawal_spec(old(self)@, old(cold).entries(), tx, now).1,
            r == withdrawal_spec(old(self)@, old(cold).entries(), tx, now).2,
            final(self)@.account.client == old(self)@.account.client,
            cold_local_to(old(self)@.account.client, old(cold).entries(), final(cold).entries()),
            hot_keys_bounded(old(self)@.hot, final(self)@.hot, tx.tx),
    {
        let ghost w0 = self@;
        let ghost cold0 = cold.entries();
        let ghost c = self@.account.client;
        let a = match self.validate_amount(tx.amount) {
            Err(e) => {
                return Err(e);
            },
            Ok(a) => a,
        };
        if self.account.locked {
            return Err(ProcessingError::AccountLocked);
        }
        if self.account.available < a as i128 {
            return Err(ProcessingError::InsufficientFunds);
        }
        let hn = self.hot.len();
        let cn = cold.len();
        proof {
            Self::lemma_headroom(w0, cold0, hn as int, cn as int);
        }
        self.account.available = self.account.available - (a as i128);
        let st = StoredTransaction {
            client: self.account.client,
            tx_type: TransactionType::Withdrawal,
            amount: a,
            disputed: false,
            held_amount: None,
            created_at: now,
        };
        self.hot.insert(tx.tx, st);
        proof {
            let e = (tx.tx, st);
            lemma_nodup_insert(w0.hot, tx.tx, st);
            lemma_wsum_push(w0.hot, dep_weight(c), e);
            lemma_wsum_push(w0.hot, held_weight(c), e);
            assert(dep_weight(c)(e) == 0);
            assert(held_weight(c)(e) == 0);
            assert(self@.hot =~= w0.hot.push(e));
            assert forall|id: u32| #[trigger] has_key(self@.hot, id) implies has_key(w0.hot, id)
                || id == tx.tx by {
                lemma_keys_push(w0.hot, e, id);
            }
        }
        Ok(())
    }

    /// Applies a dispute: moves the stored amount from available to held
    /// and marks the stored deposit disputed. Available may go negative.
    ///
    /// Fails, changing nothing, with `AccountLocked`; `TransactionNotFound`
    /// when the transaction is missing or not a deposit; `ClientMismatch`
    /// when it belongs to someone else; or `AlreadyDisputed`.
    pub fn process_dispute<S: TransactionStore>(&mut self, cold: &mut S, tx: TransactionRow) -> (r:
        Result<(), ProcessingError>)
        requires
            worker_inv(old(self)@, old(cold).entries()),
            store_wf(old(cold).entries()),
            tx.client == old(self)@.account.client,
            tx.tx_type == TransactionType::Dispute,
        ensures
            worker_inv(final(self)@, final(cold).entries()),
            store_wf(final(cold).entries()),
            final(cold).may_fail_writes() == old(cold).may_fail_writes(),
            ({
                let o = dispute_spec(old(self)@, old(cold).entries(), tx);
                (final(self)@ == o.0 && final(cold).entries() == o.1 && r == o.2)
                    || (cold_write_failed(
                    old(self)@,
                    old(cold).entries(),
                    final(self)@,
                    final(cold).entries(),
                    tx,
                    r,
                ) && old(cold).may_fail_writes())
            }),
            final(self)@.account.client == old(self)@.account.client,
            cold_local_to(old(self)@.account.client, old(cold).entries(), final(cold).entries()),
            hot_keys_bounded(old(self)@.hot, final(self)@.hot, tx.tx),
    {
        let ghost w0 = self@;
        let ghost cold0 = cold.entries();
        let ghost c = self@.account.client;
        if self.account.locked {
            return Err(ProcessingError::AccountLocked);
        }
        let hfound = self.hot.find(tx.tx);
        match hfound {
            Some(i) => {
                let st = self.hot.entries[i].1;
                proof {
                    lemma_find_key_from(w0.hot, tx.tx, 0);
                    assert(w0.hot[i as int].0 == tx.tx);
                    assert(has_key(w0.hot, tx.tx) && value_of(w0.hot, tx.tx) == st);
                }
                if st.client != self.account.client {
                    return Err(ProcessingError::ClientMismatch);
                }
                if st.tx_type != TransactionType::Deposit {
                    return Err(ProcessingError::TransactionNotFound);
                }
                if st.disputed {
                    return Err(ProcessingError::AlreadyDisputed);
                }
                let hn = self.hot.len();
                let cn = cold.len();
                proof {
                    Self::lemma_headroom(w0, cold0, hn as int, cn as int);
                    assert(stored_wf(st));
                }
                let st2 = StoredTransaction { disputed: true, held_amount: Some(st.amount), ..st };
                self.hot.insert(tx.tx, st2);
                self.account.available = self.account.available - (st.amount as i128);
                self.account.held = self.account.held + (st.amount as i128);
                proof {
                    let e = (tx.tx, st2);
                    lemma_nodup_insert(w0.hot, tx.tx, st2);
                    lemma_wsum_update(w0.hot, dep_weight(c), i as int, e);
                    lemma_wsum_update(w0.hot, held_weight(c), i as int, e);
                    assert(w0.hot[i as int] == (tx.tx, st));
                    assert(dep_weight(c)(e) == dep_weight(c)((tx.tx, st)));
                    assert(held_weight(c)((tx.tx, st)) == 0);
                    assert(held_weight(c)(e) == st.amount as int);
                    assert(forall|j: int|
                        0 <= j < self@.hot.len() ==> (#[trigger] self@.hot[j]).0 == w0.hot[j].0);
                    let o = dispute_spec(w0, cold0, tx);
                    assert(self@ =~= o.0);
                    assert forall|id: u32| #[trigger] has_key(self@.hot, id) implies has_key(
                        w0.hot,
                        id,
                    ) || id == tx.tx by {
                        lemma_keys_update(w0.hot, i as int, (tx.tx, st2), id);
                    }
                }
                return Ok(());
            },
            None => {
                match cold.get(tx.tx) {
                    None => {
                        proof {
                            assert(!has_key(w0.hot, tx.tx) && !has_key(cold0, tx.tx));
                        }
                        return Err(ProcessingError::TransactionNotFound);
                    },
                    Some(st) => {
                        proof {
                            assert(!has_key(w0.hot, tx.tx));
                            assert(has_key(cold0, tx.tx) && value_of(cold0, tx.tx) == st);
                        }
                        if st.client != self.account.client {
                            return Err(ProcessingError::ClientMismatch);
                        }
                        if st.tx_type != TransactionType::Deposit {
                            return Err(ProcessingError::TransactionNotFound);
                        }
                        if st.disputed {
                            return Err(ProcessingError::AlreadyDisputed);
                        }
                        let hn = self.hot.len();
                        let cn = cold.len();
                        proof {
                            Self::lemma_headroom(w0, cold0, hn as int, cn as int);
                            let j = find_key(cold0, tx.tx);
                            lemma_find_key_from(cold0, tx.tx, 0);
                            assert(cold0[j] == (tx.tx, st));
                            assert(stored_wf(st));
                        }
                        let st2 = StoredTransaction {
                            disputed: true,
                            held_amount: Some(st.amount),
                            ..st
                        };
                        match cold.put(tx.tx, st2) {
                            Err(_) => {
                                return Err(ProcessingError::TransactionNotFound);
                            },
                            Ok(()) => {
                                self.account.available = self.account.available - (st.amount
                                    as i128);
                                self.account.held = self.account.held + (st.amount as i128);
                                proof {
                                    let j = find_key(cold0, tx.tx);
                                    let e = (tx.tx, st2);
                                    lemma_nodup_insert(cold0, tx.tx, st2);
                                    lemma_wsum_update(cold0, dep_weight(c), j, e);
                                    lemma_wsum_update(cold0, held_weight(c), j, e);
                                    assert(cold0[j] == (tx.tx, st));
                                    assert(dep_weight(c)(e) == dep_weight(c)((tx.tx, st)));
                                    assert(held_weight(c)((tx.tx, st)) == 0);
                                    assert(held_weight(c)(e) == st.amount as int);
                                    assert(forall|k: int|
                                        0 <= k < cold.entries().len() ==> (
                                        #[trigger] cold.entries()[k]).0 == cold0[k].0);
                                    assert(forall|k: int|
                                        0 <= k < w0.hot.len() ==> !has_key(
                                            cold.entries(),
                                            (#[trigger] w0.hot[k]).0,
                                        )) by {
                                        assert forall|k: int| 0 <= k < w0.hot.len() implies !has_key(
                                            cold.entries(),
                                            (#[trigger] w0.hot[k]).0,
                                        ) by {
                                            let id = w0.hot[k].0;
                                            lemma_find_key_from(cold0, id, 0);
                                            lemma_find_key_from(cold.entries(), id, 0);
                                        }
                                    }
                                    let o = dispute_spec(w0, cold0, tx);
                                    assert(self@ =~= o.0);
                                    assert(cold.entries() == o.1);
                                    assert forall|id: u32| #[trigger] has_key(
                                        cold.entries(),
                                        id,
                                    ) implies has_key(cold0, id) by {
                                        lemma_keys_update(cold0, j, e, id);
                                        lemma_find_key_from(cold0, tx.tx, 0);
                                    }
                                    assert forall|c2: u16| c2 != c implies held_sum(
                                        cold.entries(),
                                        c2,
                                    ) == held_sum(cold0, c2) && dep_sum(cold.entries(), c2)
                                        == dep_sum(cold0, c2) by {
                                        lemma_wsum_update(cold0, dep_weight(c2), j, e);
                                        lemma_wsum_update(cold0, held_weight(c2), j, e);
                                    }
                                }
                                return Ok(());
                            },
                        }
                    },
                }
            },
        }
    }

    /// Applies a resolve: releases the held amount of a disputed deposit
    /// back to available and clears the dispute.
    ///
    /// Fails, changing nothing, with `AccountLocked`, `TransactionNotFound`,
    /// `ClientMismatch`, or `NotDisputed`, if and only if so.
    pub fn process_resolve<S: TransactionStore>(&mut self, cold: &mut S, tx: TransactionRow) -> (r:
        Result<(), ProcessingError>)
        requires
            worker_inv(old(self)@, old(cold).entries()),
            store_wf(old(cold).entries()),
            tx.client == old(self)@.account.client,
            tx.tx_type == TransactionType::Resolve,
        ensures
            worker_inv(final(self)@, final(cold).entries()),
            store_wf(final(cold).entries()),
            final(cold).may_fail_writes() == old(cold).may_fail_writes(),
            ({
                let o = resolve_spec(old(self)@, old(cold).entries(), tx);
                (final(self)@ == o.0 && final(cold).entries() == o.1 && r == o.2)
                    || (cold_write_failed(
                    old(self)@,
                    old(cold).entries(),
                    final(self)@,
                    final(cold).entries(),
                    tx,
                    r,
                ) && old(cold).may_fail_writes())
            }),
            final(self)@.account.client == old(self)@.account.client,
            cold_local_to(old(self)@.account.client, old(cold).entries(), final(cold).entries()),
            hot_keys_bounded(old(self)@.hot, final(self)@.hot, tx.tx),
    {
        let ghost w0 = self@;
        let ghost cold0 = cold.entries();
        let ghost c = self@.account.client;
        if self.account.locked {
            return Err(ProcessingError::AccountLocked);
        }
        let hfound = self.hot.find(tx.tx);
        match hfound {
            Some(i) => {
                let st = self.hot.entries[i].1;
                proof {
                    lemma_find_key_from(w0.hot, tx.tx, 0);
                    assert(w0.hot[i as int] == (tx.tx, st));
                    assert(has_key(w0.hot, tx.tx) && value_of(w0.hot, tx.tx) == st);
                }
                if st.client != self.account.client {
                    return Err(ProcessingError::ClientMismatch);
                }
                if !st.disputed {
                    return Err(ProcessingError::NotDisputed);
                }
                let h = match st.held_amount {
                    Some(h) => h,
                    None => st.amount,
                };
                let hn = self.hot.len();
                let cn = cold.len();
                proof {
                    Self::lemma_headroom(w0, cold0, hn as int, cn as int);
                    assert(stored_wf(st));
                    assert(h == st.amount);
                    lemma_wsum_lower_one(w0.hot, held_weight(c), i as int);
                    lemma_wsum_bound_nonneg(cold0, held_weight(c));
                    assert(held_weight(c)(w0.hot[i as int]) == st.amount as int);
                }
                let st2 = StoredTransaction { disputed: false, held_amount: None, ..st };
                self.hot.insert(tx.tx, st2);
                self.account.available = self.account.available + (h as i128);
                self.account.held = self.account.held - (h as i128);
                proof {
                    let e = (tx.tx, st2);
                    lemma_nodup_insert(w0.hot, tx.tx, st2);
                    lemma_wsum_update(w0.hot, dep_weight(c), i as int, e);
                    lemma_wsum_update(w0.hot, held_weight(c), i as int, e);
                    assert(dep_weight(c)(e) == dep_weight(c)((tx.tx, st)));
                    assert(held_weight(c)((tx.tx, st)) == st.amount as int);
                    assert(held_weight(c)(e) == 0);
                    assert(forall|j: int|
                        0 <= j < self@.hot.len() ==> (#[trigger] self@.hot[j]).0 == w0.hot[j].0);
                    let o = resolve_spec(w0, cold0, tx);
                    assert(self@ =~= o.0);
                    assert forall|id: u32| #[trigger] has_key(self@.hot, id) implies has_key(
                        w0.hot,
                        id,
                    ) || id == tx.tx by {
                        lemma_keys_update(w0.hot, i as int, (tx.tx, st2), id);
                    }
                }
                return Ok(());
            },
            None => {
                match cold.get(tx.tx) {
                    None => {
                        return Err(ProcessingError::TransactionNotFound);
                    },
                    Some(st) => {
                        proof {
                            assert(!has_key(w0.hot, tx.tx));
                            assert(has_key(cold0, tx.tx) && value_of(cold0, tx.tx) == st);
                        }
                        if st.client != self.account.client {
                            return Err(ProcessingError::ClientMismatch);
                        }
                        if !st.disputed {
                            return Err(ProcessingError::NotDisputed);
                        }
                        let h = match st.held_amount {
                            Some(h) => h,
                            None => st.amount,
                        };
                        let hn = self.hot.len();
                        let cn = cold.len();
                        proof {
                            Self::lemma_headroom(w0, cold0, hn as int, cn as int);
                            let j = find_key(cold0, tx.tx);
                            lemma_find_key_from(cold0, tx.tx, 0);
                            assert(cold0[j] == (tx.tx, st));
                            assert(stored_wf(st));
                            assert(h == st.amount);
                            lemma_wsum_lower_one(cold0, held_weight(c), j);
                            lemma_wsum_bound_nonneg(w0.hot, held_weight(c));
                            assert(held_weight(c)(cold0[j]) == st.amount as int);
                        }
                        let st2 = StoredTransaction { disputed: false, held_amount: None, ..st };
                        match cold.put(tx.tx, st2) {
                            Err(_) => {
                                return Err(ProcessingError::TransactionNotFound);
                            },
                            Ok(()) => {
                                self.account.available = self.account.available + (h as i128);
                                self.account.held = self.account.held - (h as i128);
                                proof {
                                    let j = find_key(cold0, tx.tx);
                                    let e = (tx.tx, st2);
                                    lemma_nodup_insert(cold0, tx.tx, st2);
                                    lemma_wsum_update(cold0, dep_weight(c), j, e);
                                    lemma_wsum_update(cold0, held_weight(c), j, e);
                                    assert(cold0[j] == (tx.tx, st));
                                    assert(dep_weight(c)(e) == dep_weight(c)((tx.tx, st)));
                                    assert(held_weight(c)((tx.tx, st)) == st.amount as int);
                                    assert(held_weight(c)(e) == 0);
                                    assert(forall|k: int|
                                        0 <= k < cold.entries().len() ==> (
                                        #[trigger] cold.entries()[k]).0 == cold0[k].0);
                                    assert forall|k: int| 0 <= k < w0.hot.len() implies !has_key(
                                        cold.entries(),
                                        (#[trigger] w0.hot[k]).0,
                                    ) by {
                                        let id = w0.hot[k].0;
                                        lemma_find_key_from(cold0, id, 0);
                                        lemma_find_key_from(cold.entries(), id, 0);
                                    }
                                    let o = resolve_spec(w0, cold0, tx);
                                    assert(self@ =~= o.0);
                                    assert(cold.entries() == o.1);
                                    assert forall|id: u32| #[trigger] has_key(
                                        cold.entries(),
                                        id,
                                    ) implies has_key(cold0, id) by {
                                        lemma_keys_update(cold0, j, e, id);
                                        lemma_find_key_from(cold0, tx.tx, 0);
                                    }
                                    assert forall|c2: u16| c2 != c implies held_sum(
                                        cold.entries(),
                                        c2,
                                    ) == held_sum(cold0, c2) && dep_sum(cold.entries(), c2)
                                        == dep_sum(cold0, c2) by {
                                        lemma_wsum_update(cold0, dep_weight(c2), j, e);
                                        lemma_wsum_update(cold0, held_weight(c2), j, e);
                                    }
                                }
                                return Ok(());
                            },
                        }
                    },
                }
            },
        }
    }

    /// Applies a chargeback: withdraws the held amount for good, locks the
    /// account, and removes the transaction from the history. The account
    /// is terminal afterwards.
    ///
    /// Fails, changing nothing, with `AccountLocked`, `TransactionNotFound`,
    /// `ClientMismatch`, or `NotDisputed`, if and only if so.
    pub fn process_chargeback<S: TransactionStore>(&mut self, cold: &mut S, tx: TransactionRow)
        -> (r: Result<(), ProcessingError>)
        requires
            worker_inv(old(self)@, old(cold).entries()),
            store_wf(old(cold).entries()),
            tx.client == old(self)@.account.client,
        ensures
            worker_inv(final(self)@, final(cold).entries()),
            store_wf(final(cold).entries()),
            final(cold).may_fail_writes() == old(cold).may_fail_writes(),
            final(self)@ == chargeback_spec(old(self)@, old(cold).entries(), tx).0,
            final(cold).entries() == chargeback_spec(old(self)@, old(cold).entries(), tx).1,
            r == chargeback_spec(old(self)@, old(cold).entries(), tx).2,
            final(self)@.account.client == old(self)@.account.client,
            cold_local_to(old(self)@.account.client, old(cold).entries(), final(cold).entries()),
            hot_keys_bounded(old(self)@.hot, final(self)@.hot, tx.tx),
    {
        let ghost w0 = self@;
        let ghost cold0 = cold.entries();
        let ghost c = self@.account.client;
        if self.account.locked {
            return Err(ProcessingError::AccountLocked);
        }
        let hfound = self.hot.find(tx.tx);
        match hfound {
            Some(i) => {
                let st = self.hot.entries[i].1;
                proof {
                    lemma_find_key_from(w0.hot, tx.tx, 0);
                    assert(w0.hot[i as int] == (tx.tx, st));
                    assert(has_key(w0.hot, tx.tx) && value_of(w0.hot, tx.tx) == st);
                }
                if st.client != self.account.client {
                    return Err(ProcessingError::ClientMismatch);
                }
                if !st.disputed {
                    return Err(ProcessingError::NotDisputed);
                }
                let h = match st.held_amount {
                    Some(h) => h,
                    None => 0,
                };
                let hn = self.hot.len();
                let cn = cold.len();
                proof {
                    Self::lemma_headroom(w0, cold0, hn as int, cn as int);
                    assert(stored_wf(st));
                    assert(h == st.amount);
                    lemma_wsum_lower_one(w0.hot, held_weight(c), i as int);
                    lemma_wsum_bound_nonneg(cold0, held_weight(c));
                    assert(held_weight(c)(w0.hot[i as int]) == st.amount as int);
                }
                self.hot.remove(tx.tx);
                self.account.held = self.account.held - (h as i128);
                self.account.locked = true;
                proof {
                    lemma_nodup_remove(w0.hot, i as int);
                    lemma_wsum_remove(w0.hot, dep_weight(c), i as int);
                    lemma_wsum_remove(w0.hot, held_weight(c), i as int);
                    assert(dep_weight(c)(w0.hot[i as int]) == st.amount as int);
                    assert(held_weight(c)(w0.hot[i as int]) == st.amount as int);
                    assert(forall|j: int|
                        0 <= j < self@.hot.len() ==> self@.hot[j] == w0.hot[
                            if j < i as int {
                                j
                            } else {
                                j + 1
                            }
                        ]);
                    let o = chargeback_spec(w0, cold0, tx);
                    assert(self@ =~= o.0);
                    assert forall|id: u32| #[trigger] has_key(self@.hot, id) implies has_key(
                        w0.hot,
                        id,
                    ) || id == tx.tx by {
                        lemma_keys_remove(w0.hot, i as int, id);
                    }
                }
                return Ok(());
            },
            None => {
                match cold.get(tx.tx) {
                    None => {
                        return Err(ProcessingError::TransactionNotFound);
                    },
                    Some(st) => {
                        proof {
                            assert(!has_key(w0.hot, tx.tx));
                            assert(has_key(cold0, tx.tx) && value_of(cold0, tx.tx) == st);
                        }
                        if st.client != self.account.client {
                            return Err(ProcessingError::ClientMismatch);
                        }
                        if !st.disputed {
                            return Err(ProcessingError::NotDisputed);
                        }
                        let h = match st.held_amount {
                            Some(h) => h,
                            None => 0,
                        };
                        let hn = self.hot.len();
                        let cn = cold.len();
                        proof {
                            Self::lemma_headroom(w0, cold0, hn as int, cn as int);
                            let j = find_key(cold0, tx.tx);
                            lemma_find_key_from(cold0, tx.tx, 0);
                            assert(cold0[j] == (tx.tx, st));
                            assert(stored_wf(st));
                            assert(h == st.amount);
                            lemma_wsum_lower_one(cold0, held_weight(c), j);
                            lemma_wsum_bound_nonneg(w0.hot, held_weight(c));
                            assert(held_weight(c)(cold0[j]) == st.amount as int);
                        }
                        cold.remove(tx.tx);
                        self.account.held = self.account.held - (h as i128);
                        self.account.locked = true;
                        proof {
                            let j = find_key(cold0, tx.tx);
                            lemma_nodup_remove(cold0, j);
                            lemma_wsum_remove(cold0, dep_weight(c), j);
                            lemma_wsum_remove(cold0, held_weight(c), j);
                            assert(dep_weight(c)(cold0[j]) == st.amount as int);
                            assert(held_weight(c)(cold0[j]) == st.amount as int);
                            assert forall|k: int| 0 <= k < w0.hot.len() implies !has_key(
                                cold.entries(),
                                (#[trigger] w0.hot[k]).0,
                            ) by {
                                lemma_keys_remove(cold0, j, w0.hot[k].0);
                            }
                            let o = chargeback_spec(w0, cold0, tx);
                            assert(self@ =~= o.0);
                            assert(cold.entries() == o.1);
                            assert forall|id: u32| #[trigger] has_key(
                                cold.entries(),
                                id,
                            ) implies has_key(cold0, id) by {
                                lemma_keys_remove(cold0, j, id);
                            }
                            assert forall|c2: u16| c2 != c implies held_sum(cold.entries(), c2)
                                == held_sum(cold0, c2) && dep_sum(cold.entries(), c2) == dep_sum(
                                cold0,
                                c2,
                            ) by {
                                lemma_wsum_remove(cold0, dep_weight(c2), j);
                                lemma_wsum_remove(cold0, held_weight(c2), j);
                            }
                        }
                        return Ok(());
                    },
                }
            },
        }
    }

    /// Applies one record to this worker: the dispatch on record kind.
    ///
    /// The outcome is exactly [`apply_spec`] of the previous state, except
    /// that a failed cold-tier write-back rejects the record and changes
    /// nothing.
    pub fn process_transaction<S: TransactionStore>(
        &mut self,
        cold: &mut S,
        tx: TransactionRow,
        now: u64,
    ) -> (r: Result<(), ProcessingError>)
        requires
            worker_inv(old(self)@, old(cold).entries()),
            store_wf(old(cold).entries()),
            tx.client == old(self)@.account.client,
            row_amount_ok(tx),
            fresh_for(old(self)@, old(cold).entries(), tx),
        ensures
            worker_inv(final(self)@, final(cold).entries()),
            store_wf(final(cold).entries()),
            final(cold).may_fail_writes() == old(cold).may_fail_writes(),
            final(self)@.account.client == old(self)@.account.client,
            cold_local_to(old(self)@.account.client, old(cold).entries(), final(cold).entries()),
            hot_keys_bounded(old(self)@.hot, final(self)@.hot, tx.tx),
            ({
                let o = apply_spec(old(self)@, old(cold).entries(), tx, now);
                (final(self)@ == o.0 && final(cold).entries() == o.1 && r == o.2)
                    || (cold_write_failed(
                    old(self)@,
                    old(cold).entries(),
                    final(self)@,
                    final(cold).entries(),
                    tx,
                    r,
                ) && old(cold).may_fail_writes())
            }),
    {
        match tx.tx_type {
            TransactionType::Deposit => self.process_deposit(cold, tx, now),
            TransactionType::Withdrawal => self.process_withdrawal(cold, tx, now),
            TransactionType::Dispute => self.process_dispute(cold, tx),
            TransactionType::Resolve => self.process_resolve(cold, tx),
            TransactionType::Chargeback => self.process_chargeback(cold, tx),
        }
    }

    /// Looks a transaction up, hot tier first, then cold.
    pub fn get_stored_transaction<S: TransactionStore>(&self, cold: &S, tx_id: u32) -> (r: Option<
        StoredTransaction,
    >)
        ensures
            r == stored_lookup(self@.hot, cold.entries(), tx_id),
    {
        match self.hot.get(tx_id) {
            Some(st) => Some(st),
            None => cold.get(tx_id),
        }
    }

    /// A snapshot of the account. Under the worker invariant the balances
    /// are well formed: `held` is non-negative and the total is exact.
    pub fn get_state<S: TransactionStore>(&self, cold: &S) -> (a: Account)
        requires
            worker_inv(self@, cold.entries()),
            store_wf(cold.entries()),
        ensures
            a@ == self@.account,
            account_wf(a),
    {
        let hn = self.hot.len();
        let cn = cold.len();
        proof {
            Self::lemma_headroom(self@, cold.entries(), hn as int, cn as int);
        }
        self.account
    }

    /// Migrates every hot transaction older than `cutoff` to the cold
    /// tier. A failed cold write keeps the entry hot, losing nothing;
    /// lookups see exactly the same history afterwards.
    #[verifier::rlimit(100)]
    pub fn migrate_old_transactions<S: TransactionStore>(&mut self, cold: &mut S, cutoff: u64)
        -> (r: Result<(), ProcessingError>)
        requires
            worker_inv(old(self)@, old(cold).entries()),
            store_wf(old(cold).entries()),
        ensures
            worker_inv(final(self)@, final(cold).entries()),
            store_wf(final(cold).entries()),
            final(cold).may_fail_writes() == old(cold).may_fail_writes(),
            final(self)@.account == old(self)@.account,
            r is Ok,
            forall|id: u32|
                #[trigger] stored_lookup(final(self)@.hot, final(cold).entries(), id)
                    == stored_lookup(old(self)@.hot, old(cold).entries(), id),
            forall|id: u32| #[trigger] has_key(final(self)@.hot, id) ==> has_key(
                old(self)@.hot,
                id,
            ),
            forall|id: u32| #[trigger] has_key(final(cold).entries(), id) ==> has_key(
                old(cold).entries(),
                id,
            ) || has_key(old(self)@.hot, id),
            forall|id: u32| #[trigger] has_key(old(cold).entries(), id) ==> has_key(
                final(cold).entries(),
                id,
            ),
            forall|id: u32|
                has_key(old(self)@.hot, id) && (#[trigger] value_of(
                    old(self)@.hot,
                    id,
                )).created_at >= cutoff ==> has_key(final(self)@.hot, id),
            forall|c2: u16|
                c2 != old(self)@.account.client ==> held_sum(final(cold).entries(), c2)
                    == held_sum(old(cold).entries(), c2) && dep_sum(final(cold).entries(), c2)
                    == dep_sum(old(cold).entries(), c2),
            !old(cold).may_fail_writes() ==> (forall|j: int|
                0 <= j < final(self)@.hot.len() ==> (#[trigger] final(self)@.hot[j]).1.created_at
                    >= cutoff),
    {
        let ghost hot0 = self@.hot;
        let ghost cold0 = cold.entries();
        let ghost c = self@.account.client;
        let mut i: usize = 0;
        while i < self.hot.entries.len()
            invariant
                0 <= i <= self.hot.entries.len(),
                self@.account.client == c,
                worker_inv(self@, cold.entries()),
                store_wf(cold.entries()),
                cold.may_fail_writes() == old(cold).may_fail_writes(),
                self@.account == old(self)@.account,
                hot0 == old(self)@.hot,
                cold0 == old(cold).entries(),
                forall|id: u32|
                    #[trigger] stored_lookup(self@.hot, cold.entries(), id) == stored_lookup(
                        hot0,
                        cold0,
                        id,
                    ),
                forall|id: u32| #[trigger] has_key(self@.hot, id) ==> has_key(hot0, id),
                forall|id: u32|
                    has_key(hot0, id) && (#[trigger] value_of(hot0, id)).created_at >= cutoff
                        ==> has_key(self@.hot, id),
                forall|id: u32| #[trigger] has_key(cold.entries(), id) ==> has_key(cold0, id)
                    || has_key(hot0, id),
                forall|id: u32| #[trigger] has_key(cold0, id) ==> has_key(cold.entries(), id),
                forall|c2: u16|
                    c2 != c ==> held_sum(cold.entries(), c2) == held_sum(cold0, c2) && dep_sum(
                        cold.entries(),
                        c2,
                    ) == dep_sum(cold0, c2),
                !old(cold).may_fail_writes() ==> (forall|j: int|
                    0 <= j < i ==> (#[trigger] self@.hot[j]).1.created_at >= cutoff),
            decreases self.hot.entries.len() - i,
        {
            let e = self.hot.entries[i];
            if e.1.created_at < cutoff {
                let ghost hot_a = self@.hot;
                let ghost cold_a = cold.entries();
                proof {
                    assert(!has_key(cold_a, hot_a[i as int].0));
                    lemma_find_key_from(cold_a, e.0, 0);
                }
                match cold.put(e.0, e.1) {
                    Ok(()) => {
                        proof {
                            assert(cold.entries() == cold_a.push((e.0, e.1)));
                        }
                        self.hot.entries.remove(i);
                        proof {
                            let hot_b = self@.hot;
                            let cold_b = cold.entries();
                            let entry = (e.0, e.1);
                            assert(hot_a[i as int] == entry);
                            lemma_find_key_push(cold_a, entry);
                            lemma_nodup_insert(cold_a, e.0, e.1);
                            lemma_nodup_remove(hot_a, i as int);
                            lemma_wsum_push(cold_a, dep_weight(c), entry);
                            lemma_wsum_push(cold_a, held_weight(c), entry);
                            lemma_wsum_remove(hot_a, dep_weight(c), i as int);
                            lemma_wsum_remove(hot_a, held_weight(c), i as int);
                            assert(entries_wf(cold_b)) by {
                                assert(forall|k: int|
                                    0 <= k < cold_b.len() ==> cold_b[k] == (if k < cold_a.len() {
                                        cold_a[k]
                                    } else {
                                        entry
                                    }));
                            }
                            // the removed entry is gone from the hot tier
                            assert forall|j: int| 0 <= j < hot_b.len() implies (
                            #[trigger] hot_b[j]).0 != e.0 by {
                                let j0 = if j < i as int {
                                    j
                                } else {
                                    j + 1
                                };
                                assert(hot_b[j] == hot_a[j0]);
                            }
                            lemma_find_key_from(hot_b, e.0, 0);
                            if has_key(hot_b, e.0) {
                                assert(false);
                            }
                            // tier disjointness survives the move
                            assert forall|k: int| 0 <= k < hot_b.len() implies !has_key(
                                cold_b,
                                (#[trigger] hot_b[k]).0,
                            ) by {
                                let k0 = if k < i as int {
                                    k
                                } else {
                                    k + 1
                                };
                                assert(hot_b[k] == hot_a[k0]);
                                assert(hot_b[k].0 != e.0);
                                assert(!has_key(cold_a, hot_b[k].0));
                            }
                            // per-client sums for everyone else
                            assert forall|c2: u16| c2 != c implies held_sum(cold_b, c2)
                                == held_sum(cold0, c2) && dep_sum(cold_b, c2) == dep_sum(
                                cold0,
                                c2,
                            ) by {
                                lemma_wsum_push(cold_a, dep_weight(c2), entry);
                                lemma_wsum_push(cold_a, held_weight(c2), entry);
                                assert(e.1.client == c);
                                assert(dep_weight(c2)(entry) == 0);
                                assert(held_weight(c2)(entry) == 0);
                            }
                            // every lookup is unchanged
                            assert forall|id: u32|
                                #[trigger] stored_lookup(hot_b, cold_b, id) == stored_lookup(
                                hot0,
                                cold0,
                                id,
                            ) by {
                                if id == e.0 {
                                    assert(!has_key(hot_b, id));
                                    assert(find_key(cold_b, id) == cold_a.len());
                                    assert(cold_b[cold_a.len() as int] == entry);
                                    assert(has_key(cold_b, id) && value_of(cold_b, id) == e.1);
                                    lemma_find_key_from(hot_a, id, 0);
                                    assert(has_key(hot_a, id) && value_of(hot_a, id) == e.1) by {
                                        if find_key(hot_a, id) != i as int {
                                            assert(false);
                                        }
                                    }
                                    assert(stored_lookup(hot_a, cold_a, id) == Some(e.1));
                                } else {
                                    lemma_find_key_remove_other(hot_a, i as int, id);
                                    assert(find_key(cold_b, id) == find_key(cold_a, id));
                                    if has_key(cold_a, id) {
                                        lemma_find_key_from(cold_a, id, 0);
                                        assert(cold_b[find_key(cold_a, id)] == cold_a[find_key(
                                            cold_a,
                                            id,
                                        )]);
                                    }
                                    assert(stored_lookup(hot_b, cold_b, id) == stored_lookup(
                                        hot_a,
                                        cold_a,
                                        id,
                                    ));
                                }
                            }
                            // key bookkeeping
                            assert forall|id: u32| #[trigger] has_key(hot_b, id) implies has_key(
                                hot0,
                                id,
                            ) by {
                                lemma_find_key_remove_other(hot_a, i as int, id);
                            }
                            // entries at or past the horizon were not the one removed
                            assert forall|id: u32|
                                has_key(hot0, id) && (#[trigger] value_of(
                                    hot0,
                                    id,
                                )).created_at >= cutoff implies has_key(hot_b, id) by {
                                assert(has_key(hot_a, id));
                                if id == e.0 {
                                    assert(stored_lookup(hot_a, cold_a, id) == stored_lookup(
                                        hot0,
                                        cold0,
                                        id,
                                    ));
                                    lemma_find_key_from(hot_a, id, 0);
                                    assert(value_of(hot_a, id) == e.1) by {
                                        if find_key(hot_a, id) != i as int {
                                            assert(false);
                                        }
                                    }
                                    assert(value_of(hot0, id) == e.1);
                                    assert(false);
                                } else {
                                    lemma_find_key_remove_other(hot_a, i as int, id);
                                }
                            }
                            assert forall|id: u32| #[trigger] has_key(cold0, id) implies has_key(
                                cold_b,
                                id,
                            ) by {
                                assert(has_key(cold_a, id));
                                if id != e.0 {
                                    assert(find_key(cold_b, id) == find_key(cold_a, id));
                                }
                            }
                            assert forall|id: u32| #[trigger] has_key(cold_b, id) implies has_key(
                                cold0,
                                id,
                            ) || has_key(hot0, id) by {
                                if id != e.0 {
                                    assert(find_key(cold_b, id) == find_key(cold_a, id));
                                    assert(has_key(cold_a, id));
                                } else {
                                    lemma_find_key_from(hot_a, id, 0);
                                    if find_key(hot_a, id) == -1 {
                                        assert(false);
                                    }
                                    assert(has_key(hot_a, id));
                                    assert(has_key(hot0, id));
                                }
                            }
                        }
                    },
                    Err(_) => {
                        i = i + 1;
                    },
                }
            } else {
                i = i + 1;
            }
        }
        Ok(())
    }

    /// Validates the amount field of a deposit or withdrawal.
    pub fn validate_amount(&self, amount_opt: Option<i64>) -> (r: Result<i64, ProcessingError>)
        ensures
            r == validate_amount_spec(amount_opt),
    {
        match amount_opt {
            None => Err(ProcessingError::MissingAmount),
            Some(a) => {
                if a <= 0 {
                    Err(ProcessingError::InvalidAmount)
                } else {
                    Ok(a)
                }
            },
        }
    }
}

} // verus!
