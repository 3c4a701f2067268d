//! Keyed storage for transaction history.
//!
//! A history is an association list from 32-bit transaction IDs to stored
//! transactions, with no duplicate keys. The hot tier inside each worker
//! and the shared cold tier both take this shape; the cold tier sits behind
//! the `TransactionStore` interface so other backends can replace it.

use vstd::prelude::*;
use crate::amount::MAX_AMOUNT_UNITS;
use crate::models::TransactionType;

verus! {

/// A stored deposit or withdrawal, as the history keeps it.
#[derive(Debug, Clone, Copy)]
pub struct StoredTransaction {
    /// Owning client.
    pub client: u16,
    /// Deposit or withdrawal; only deposits can be disputed.
    pub tx_type: TransactionType,
    /// Original amount in fixed-point units, strictly positive.
    pub amount: i64,
    /// Whether the transaction is currently disputed.
    pub disputed: bool,
    /// Amount moved from available to held at dispute time.
    pub held_amount: Option<i64>,
    /// Logical creation time, used by hot-to-cold migration.
    pub created_at: u64,
}

/// One keyed history entry.
pub type TxEntry = (u32, StoredTransaction);

/// Well-formedness of a single stored transaction: a positive bounded
/// amount, the held amount present exactly while disputed and equal to the
/// original amount, and only deposits ever disputed.
pub open spec fn stored_wf(t: StoredTransaction) -> bool {
    &&& 0 < t.amount <= MAX_AMOUNT_UNITS
    &&& t.disputed <==> t.held_amount is Some
    &&& t.disputed ==> t.held_amount == Some(t.amount)
    &&& t.disputed ==> t.tx_type == TransactionType::Deposit
}

pub open spec fn entries_wf(s: Seq<TxEntry>) -> bool {
    forall|i: int| 0 <= i < s.len() ==> stored_wf((#[trigger] s[i]).1)
}

/// No transaction ID appears twice.
pub open spec fn nodup_keys(s: Seq<TxEntry>) -> bool {
    forall|i: int, j: int| 0 <= i < j < s.len() ==> (#[trigger] s[i]).0 != (#[trigger] s[j]).0
}

/// Index of the entry keyed `id` at or after position `i`, or -1.
pub open spec fn find_key_from(s: Seq<TxEntry>, id: u32, i: int) -> int
    decreases s.len() - i,
{
    if i < 0 || i >= s.len() {
        -1
    } else if s[i].0 == id {
        i
    } else {
        find_key_from(s, id, i + 1)
    }
}

/// Index of the entry keyed `id`, or -1 when absent.
pub open spec fn find_key(s: Seq<TxEntry>, id: u32) -> int {
    find_key_from(s, id, 0)
}

pub open spec fn has_key(s: Seq<TxEntry>, id: u32) -> bool {
    find_key(s, id) != -1
}

/// The stored transaction keyed `id`; meaningful only when present.
pub open spec fn value_of(s: Seq<TxEntry>, id: u32) -> StoredTransaction {
    s[find_key(s, id)].1
}

pub proof fn lemma_find_key_from(s: Seq<TxEntry>, id: u32, i: int)
    requires
        0 <= i <= s.len(),
    ensures
        find_key_from(s, id, i) == -1 ==> forall|j: int| i <= j < s.len() ==> (#[trigger] s[j]).0
            != id,
        find_key_from(s, id, i) != -1 ==> i <= find_key_from(s, id, i) < s.len() && s[
            find_key_from(s, id, i)
        ].0 == id && forall|j: int| i <= j < find_key_from(s, id, i) ==> (#[trigger] s[j]).0 != id,
    decreases s.len() - i,
{
    if i < s.len() && s[i].0 != id {
        lemma_find_key_from(s, id, i + 1);
    }
}

/// Total weight of a history under an entry weight function.
pub open spec fn wsum(s: Seq<TxEntry>, w: spec_fn(TxEntry) -> int) -> int
    decreases s.len(),
{
    if s.len() == 0 {
        0
    } else {
        wsum(s.drop_last(), w) + w(s.last())
    }
}

/// Weight for the sum of stored deposit amounts of one client.
pub open spec fn dep_weight(c: u16) -> spec_fn(TxEntry) -> int {
    |e: TxEntry|
        if e.1.client == c && e.1.tx_type == TransactionType::Deposit {
            e.1.amount as int
        } else {
            0
        }
}

/// Weight for the sum of currently held amounts of one client.
pub open spec fn held_weight(c: u16) -> spec_fn(TxEntry) -> int {
    |e: TxEntry|
        if e.1.client == c && e.1.disputed {
            e.1.amount as int
        } else {
            0
        }
}

/// Sum of stored deposit amounts owned by client `c`.
pub open spec fn dep_sum(s: Seq<TxEntry>, c: u16) -> int {
    wsum(s, dep_weight(c))
}

/// Sum of currently disputed amounts owned by client `c`.
pub open spec fn held_sum(s: Seq<TxEntry>, c: u16) -> int {
    wsum(s, held_weight(c))
}

pub proof fn lemma_wsum_push(s: Seq<TxEntry>, w: spec_fn(TxEntry) -> int, e: TxEntry)
    ensures
        wsum(s.push(e), w) == wsum(s, w) + w(e),
{
    assert(s.push(e).drop_last() =~= s);
    assert(s.push(e).last() == e);
}

pub proof fn lemma_wsum_update(s: Seq<TxEntry>, w: spec_fn(TxEntry) -> int, i: int, e: TxEntry)
    requires
        0 <= i < s.len(),
    ensures
        wsum(s.update(i, e), w) == wsum(s, w) - w(s[i]) + w(e),
    decreases s.len(),
{
    if i == s.len() - 1 {
        assert(s.update(i, e).drop_last() =~= s.drop_last());
        assert(s.update(i, e).last() == e);
    } else {
        assert(s.update(i, e).drop_last() =~= s.drop_last().update(i, e));
        assert(s.update(i, e).last() == s.last());
        lemma_wsum_update(s.drop_last(), w, i, e);
        assert(s.drop_last()[i] == s[i]);
    }
}

pub proof fn lemma_wsum_remove(s: Seq<TxEntry>, w: spec_fn(TxEntry) -> int, i: int)
    requires
        0 <= i < s.len(),
    ensures
        wsum(s.remove(i), w) == wsum(s, w) - w(s[i]),
    decreases s.len(),
{
    if i == s.len() - 1 {
        assert(s.remove(i) =~= s.drop_last());
    } else {
        assert(s.remove(i).drop_last() =~= s.drop_last().remove(i));
        assert(s.remove(i).last() == s.last());
        lemma_wsum_remove(s.drop_last(), w, i);
        assert(s.drop_last()[i] == s[i]);
    }
}

/// A sum of non-negative weights is at least any single weight.
pub proof fn lemma_wsum_lower_one(s: Seq<TxEntry>, w: spec_fn(TxEntry) -> int, i: int)
    requires
        forall|j: int| 0 <= j < s.len() ==> #[trigger] w(s[j]) >= 0,
        0 <= i < s.len(),
    ensures
        wsum(s, w) >= w(s[i]),
    decreases s.len(),
{
    let d = s.drop_last();
    assert(forall|j: int| 0 <= j < d.len() ==> #[trigger] w(d[j]) == w(s[j]));
    if i == s.len() - 1 {
        lemma_wsum_bound_nonneg(d, w);
    } else {
        lemma_wsum_lower_one(d, w, i);
        assert(w(s.last()) == w(s[s.len() - 1]));
    }
}

/// A sum of non-negative weights is non-negative.
pub proof fn lemma_wsum_bound_nonneg(s: Seq<TxEntry>, w: spec_fn(TxEntry) -> int)
    requires
        forall|j: int| 0 <= j < s.len() ==> #[trigger] w(s[j]) >= 0,
    ensures
        wsum(s, w) >= 0,
    decreases s.len(),
{
    if s.len() > 0 {
        let d = s.drop_last();
        assert(forall|j: int| 0 <= j < d.len() ==> #[trigger] w(d[j]) == w(s[j]));
        lemma_wsum_bound_nonneg(d, w);
        assert(w(s.last()) == w(s[s.len() - 1]));
    }
}

/// A pointwise-bounded weight bounds the sum by the length.
pub proof fn lemma_wsum_bound(s: Seq<TxEntry>, w: spec_fn(TxEntry) -> int, bound: int)
    requires
        forall|i: int| 0 <= i < s.len() ==> 0 <= #[trigger] w(s[i]) <= bound,
        bound >= 0,
    ensures
        0 <= wsum(s, w) <= s.len() * bound,
    decreases s.len(),
{
    if s.len() > 0 {
        let d = s.drop_last();
        assert(forall|i: int| 0 <= i < d.len() ==> #[trigger] w(d[i]) == w(s[i]));
        lemma_wsum_bound(d, w, bound);
        assert(w(s.last()) == w(s[s.len() - 1]));
        assert((s.len() - 1) * bound + bound == s.len() * bound) by (nonlinear_arith);
    }
}

/// Both client sums are bounded by the history length times the largest
/// amount, for well-formed histories.
pub proof fn lemma_client_sums_bound(s: Seq<TxEntry>, c: u16)
    requires
        entries_wf(s),
    ensures
        0 <= dep_sum(s, c) <= s.len() * MAX_AMOUNT_UNITS,
        0 <= held_sum(s, c) <= s.len() * MAX_AMOUNT_UNITS,
{
    assert(forall|i: int|
        0 <= i < s.len() ==> 0 <= #[trigger] dep_weight(c)(s[i]) <= MAX_AMOUNT_UNITS);
    assert(forall|i: int|
        0 <= i < s.len() ==> 0 <= #[trigger] held_weight(c)(s[i]) <= MAX_AMOUNT_UNITS);
    lemma_wsum_bound(s, dep_weight(c), MAX_AMOUNT_UNITS as int);
    lemma_wsum_bound(s, held_weight(c), MAX_AMOUNT_UNITS as int);
}

/// The in-worker hot history: an association list with unique keys.
pub struct TxTable {
    pub entries: Vec<TxEntry>,
}

impl TxTable {
    pub open spec fn view(&self) -> Seq<TxEntry> {
        self.entries@
    }

    pub fn new() -> (t: TxTable)
        ensures
            t@ =~= Seq::<TxEntry>::empty(),
    {
        TxTable { entries: Vec::new() }
    }

    pub fn len(&self) -> (n: usize)
        ensures
            n == self@.len(),
    {
        self.entries.len()
    }

    /// Index of the entry keyed `id`, if present.
    pub fn find(&self, id: u32) -> (r: Option<usize>)
        ensures
            match r {
                Some(i) => i < self@.len() && find_key(self@, id) == i,
                None => find_key(self@, id) == -1,
            },
    {
        let n = self.entries.len();
        let mut i: usize = 0;
        while i < n
            invariant
                0 <= i <= n == self@.len(),
                find_key(self@, id) == find_key_from(self@, id, i as int),
            decreases n - i,
        {
            if self.entries[i].0 == id {
                return Some(i);
            }
            i = i + 1;
        }
        None
    }

    /// Looks up the stored transaction keyed `id`.
    pub fn get(&self, id: u32) -> (r: Option<StoredTransaction>)
        ensures
            match r {
                Some(t) => has_key(self@, id) && t == value_of(self@, id),
                None => !has_key(self@, id),
            },
    {
        match self.find(id) {
            Some(i) => Some(self.entries[i].1),
            None => None,
        }
    }

    /// Inserts or replaces the entry keyed `id`.
    pub fn insert(&mut self, id: u32, t: StoredTransaction)
        ensures
            ({
                let i = find_key(old(self)@, id);
                if i == -1 {
                    final(self)@ == old(self)@.push((id, t))
                } else {
                    final(self)@ == old(self)@.update(i, (id, t))
                }
            }),
    {
        let found = self.find(id);
        match found {
            Some(i) => {
                self.entries[i] = (id, t);
            },
            None => {
                self.entries.push((id, t));
            },
        }
    }

    /// Removes the entry keyed `id`, keeping the order of the rest.
    pub fn remove(&mut self, id: u32) -> (r: bool)
        ensures
            ({
                let i = find_key(old(self)@, id);
                if i == -1 {
                    final(self)@ == old(self)@ && !r
                } else {
                    final(self)@ == old(self)@.remove(i) && r
                }
            }),
    {
        let found = self.find(id);
        match found {
            Some(i) => {
                self.entries.remove(i);
                true
            },
            None => false,
        }
    }
}

/// Duplicate keys stay impossible across table updates.
pub proof fn lemma_nodup_insert(s: Seq<TxEntry>, id: u32, t: StoredTransaction)
    requires
        nodup_keys(s),
    ensures
        find_key(s, id) == -1 ==> nodup_keys(s.push((id, t))),
        find_key(s, id) != -1 ==> nodup_keys(s.update(find_key(s, id), (id, t))),
{
    lemma_find_key_from(s, id, 0);
    let i = find_key(s, id);
    if i == -1 {
        let p = s.push((id, t));
        assert forall|a: int, b: int| 0 <= a < b < p.len() implies (#[trigger] p[a]).0 != (
        #[trigger] p[b]).0 by {
            if b < s.len() {
                assert(p[a] == s[a] && p[b] == s[b]);
            } else {
                assert(p[a] == s[a] && p[b] == (id, t));
            }
        }
    } else {
        let u = s.update(i, (id, t));
        assert forall|a: int, b: int| 0 <= a < b < u.len() implies (#[trigger] u[a]).0 != (
        #[trigger] u[b]).0 by {
            if a != i && b != i {
                assert(u[a] == s[a] && u[b] == s[b]);
            } else if a == i {
                assert(u[a].0 == id && u[b] == s[b]);
                assert(s[i].0 == id);
            } else {
                assert(u[b].0 == id && u[a] == s[a]);
                assert(s[i].0 == id);
            }
        }
    }
}

pub proof fn lemma_nodup_remove(s: Seq<TxEntry>, i: int)
    requires
        nodup_keys(s),
        0 <= i < s.len(),
    ensures
        nodup_keys(s.remove(i)),
{
    let r = s.remove(i);
    assert forall|a: int, b: int| 0 <= a < b < r.len() implies (#[trigger] r[a]).0 != (
    #[trigger] r[b]).0 by {
        let a0 = if a < i {
            a
        } else {
            a + 1
        };
        let b0 = if b < i {
            b
        } else {
            b + 1
        };
        assert(r[a] == s[a0] && r[b] == s[b0]);
    }
}

/// Removal never introduces a key.
pub proof fn lemma_keys_remove(s: Seq<TxEntry>, i: int, id: u32)
    requires
        0 <= i < s.len(),
    ensures
        has_key(s.remove(i), id) ==> has_key(s, id),
{
    let r = s.remove(i);
    if has_key(r, id) {
        lemma_find_key_from(r, id, 0);
        let k = find_key(r, id);
        let k0 = if k < i {
            k
        } else {
            k + 1
        };
        assert(r[k] == s[k0]);
        lemma_find_key_from(s, id, 0);
    }
}

/// An in-place update introduces at most its own key.
pub proof fn lemma_keys_update(s: Seq<TxEntry>, i: int, e: TxEntry, id: u32)
    requires
        0 <= i < s.len(),
    ensures
        has_key(s.update(i, e), id) ==> has_key(s, id) || id == e.0,
{
    let u = s.update(i, e);
    if has_key(u, id) {
        lemma_find_key_from(u, id, 0);
        let k = find_key(u, id);
        if k != i || id != e.0 {
            assert(u[k] == s[k] || k == i);
            if k != i {
                lemma_find_key_from(s, id, 0);
            }
        }
    }
}

/// A push introduces at most its own key.
pub proof fn lemma_keys_push(s: Seq<TxEntry>, e: TxEntry, id: u32)
    ensures
        has_key(s.push(e), id) ==> has_key(s, id) || id == e.0,
{
    let u = s.push(e);
    if has_key(u, id) {
        lemma_find_key_from(u, id, 0);
        let k = find_key(u, id);
        if k < s.len() {
            assert(u[k] == s[k]);
            lemma_find_key_from(s, id, 0);
        } else {
            assert(u[k] == e);
        }
    }
}

/// Appending a fresh key finds it at the end and changes no other lookup.
pub proof fn lemma_find_key_push(s: Seq<TxEntry>, e: TxEntry)
    requires
        !has_key(s, e.0),
    ensures
        find_key(s.push(e), e.0) == s.len(),
        forall|x: u32| x != e.0 ==> find_key(s.push(e), x) == find_key(s, x),
{
    lemma_find_key_push_self_aux(s, e, 0);
    assert forall|x: u32| x != e.0 implies find_key(s.push(e), x) == find_key(s, x) by {
        lemma_find_key_push_other_aux(s, e, x, 0);
    }
}

proof fn lemma_find_key_push_self_aux(s: Seq<TxEntry>, e: TxEntry, i: int)
    requires
        0 <= i <= s.len(),
        find_key_from(s, e.0, i) == -1,
    ensures
        find_key_from(s.push(e), e.0, i) == s.len(),
    decreases s.len() - i,
{
    let p = s.push(e);
    if i < s.len() {
        assert(p[i] == s[i]);
        lemma_find_key_push_self_aux(s, e, i + 1);
    } else {
        assert(p[i] == e);
    }
}

proof fn lemma_find_key_push_other_aux(s: Seq<TxEntry>, e: TxEntry, x: u32, i: int)
    requires
        0 <= i <= s.len(),
        x != e.0,
    ensures
        find_key_from(s.push(e), x, i) == find_key_from(s, x, i),
    decreases s.len() - i,
{
    let p = s.push(e);
    if i < s.len() {
        assert(p[i] == s[i]);
        if s[i].0 != x {
            lemma_find_key_push_other_aux(s, e, x, i + 1);
        }
    } else {
        assert(p[i] == e);
        assert(find_key_from(p, x, i + 1) == -1);
    }
}

/// Removing one entry does not disturb the other keys' lookups.
pub proof fn lemma_find_key_remove_other(s: Seq<TxEntry>, i: int, x: u32)
    requires
        nodup_keys(s),
        0 <= i < s.len(),
        x != s[i].0,
    ensures
        has_key(s.remove(i), x) == has_key(s, x),
        has_key(s, x) ==> value_of(s.remove(i), x) == value_of(s, x),
{
    let r = s.remove(i);
    lemma_find_key_from(s, x, 0);
    lemma_find_key_from(r, x, 0);
    if has_key(s, x) {
        let k0 = find_key(s, x);
        let k = if k0 < i {
            k0
        } else {
            k0 - 1
        };
        assert(k0 != i);
        assert(r[k] == s[k0]);
        if find_key(r, x) == -1 {
            assert(false);
        }
        let kr = find_key(r, x);
        let kr0 = if kr < i {
            kr
        } else {
            kr + 1
        };
        assert(r[kr] == s[kr0]);
        assert(s[kr0].0 == x);
        assert(kr0 == k0);
    } else {
        if has_key(r, x) {
            let kr = find_key(r, x);
            let kr0 = if kr < i {
                kr
            } else {
                kr + 1
            };
            assert(r[kr] == s[kr0]);
            assert(false);
        }
    }
}

/// Interface of the shared cold tier.
///
/// A conforming store behaves as an association list: lookups are keyed,
/// a put replaces in place or appends, and a remove keeps the order of the
/// remaining entries. A put may fail, leaving the store unchanged; the
/// worker then keeps the entry hot. Removal is irrevocable and total.
pub trait TransactionStore: Sized {
    spec fn entries(&self) -> Seq<TxEntry>;

    /// Whether this backend's writes can ever fail. A backend whose writes
    /// cannot fail gives exact replay guarantees downstream.
    spec fn may_fail_writes(&self) -> bool;

    fn len(&self) -> (n: usize)
        ensures
            n == self.entries().len(),
    ;

    fn get(&self, tx_id: u32) -> (r: Option<StoredTransaction>)
        ensures
            match r {
                Some(t) => has_key(self.entries(), tx_id) && t == value_of(self.entries(), tx_id),
                None => !has_key(self.entries(), tx_id),
            },
    ;

    fn put(&mut self, tx_id: u32, tx: StoredTransaction) -> (r: Result<(), StoreError>)
        ensures
            final(self).may_fail_writes() == old(self).may_fail_writes(),
            match r {
                Ok(()) => ({
                    let i = find_key(old(self).entries(), tx_id);
                    if i == -1 {
                        final(self).entries() == old(self).entries().push((tx_id, tx))
                    } else {
                        final(self).entries() == old(self).entries().update(i, (tx_id, tx))
                    }
                }),
                Err(_) => final(self).entries() == old(self).entries() && old(
                    self,
                ).may_fail_writes(),
            },
    ;

    fn remove(&mut self, tx_id: u32)
        ensures
            final(self).may_fail_writes() == old(self).may_fail_writes(),
            ({
                let i = find_key(old(self).entries(), tx_id);
                if i == -1 {
                    final(self).entries() == old(self).entries()
                } else {
                    final(self).entries() == old(self).entries().remove(i)
                }
            }),
    ;
}

/// Failure of a cold-tier write.
#[derive(Debug, Clone, Copy, PartialEq, Eq, Structural)]
pub struct StoreError;

/// The in-memory cold tier used by tests and the command-line pipeline.
/// Its writes never fail.
pub struct InMemoryStore {
    pub table: TxTable,
}

impl InMemoryStore {
    pub fn new() -> (s: InMemoryStore)
        ensures
            s.entries() =~= Seq::<TxEntry>::empty(),
    {
        InMemoryStore { table: TxTable::new() }
    }
}

impl TransactionStore for InMemoryStore {
    open spec fn entries(&self) -> Seq<TxEntry> {
        self.table@
    }

    open spec fn may_fail_writes(&self) -> bool {
        false
    }

    fn len(&self) -> (n: usize) {
        self.table.len()
    }

    fn get(&self, tx_id: u32) -> (r: Option<StoredTransaction>) {
        self.table.get(tx_id)
    }

    fn put(&mut self, tx_id: u32, tx: StoredTransaction) -> (r: Result<(), StoreError>) {
        self.table.insert(tx_id, tx);
        Ok(())
    }

    fn remove(&mut self, tx_id: u32) {
        self.table.remove(tx_id);
    }
}

} // verus!
