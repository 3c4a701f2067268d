//! The append-only event log: the redo stream of accepted records.
//!
//! The log is an ordered sequence of transaction rows. Appends go to the
//! tail; replay yields every record in append order. Persisting the lines
//! and reading them back is the caller's concern; the line format lives in
//! the codec module.

use vstd::prelude::*;
use crate::models::TransactionRow;

verus! {

/// An in-memory append-only record stream.
pub struct EventStore {
    pub records: Vec<TransactionRow>,
}

impl EventStore {
    pub open spec fn view(&self) -> Seq<TransactionRow> {
        self.records@
    }

    /// An empty log.
    pub fn new() -> (s: EventStore)
        ensures
            s@ =~= Seq::<TransactionRow>::empty(),
    {
        EventStore { records: Vec::new() }
    }

    /// Appends one record to the tail.
    pub fn append(&mut self, tx: &TransactionRow)
        ensures
            final(self)@ == old(self)@.push(*tx),
    {
        self.records.push(*tx);
    }

    /// Every appended record, in append order.
    pub fn replay(&self) -> (r: Vec<TransactionRow>)
        ensures
            r@ == self@,
    {
        let n = self.records.len();
        let mut out: Vec<TransactionRow> = Vec::new();
        let mut i: usize = 0;
        while i < n
            invariant
                0 <= i <= n == self@.len(),
                out@ =~= self@.take(i as int),
            decreases n - i,
        {
            out.push(self.records[i]);
            proof {
                assert(out@ =~= self@.take(i + 1 as int));
            }
            i = i + 1;
        }
        proof {
            assert(self@.take(n as int) =~= self@);
        }
        out
    }

    /// Number of records in the log.
    pub fn len(&self) -> (n: usize)
        ensures
            n == self@.len(),
    {
        self.records.len()
    }
}

} // verus!
