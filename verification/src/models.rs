//! Core data model: transaction rows and account state.

use vstd::prelude::*;
use vstd::string::StringSliceAdditionalSpecFns;
use crate::amount::lower_byte;
use crate::amount::lower_bytes;
use crate::amount::trim_range;
use crate::amount::trimmed;

verus! {

/// Upper bound kept on every balance, far above what any run can reach
/// (the engine proves balances stay below the sum of stored deposits).
pub const BALANCE_LIMIT: i128 = 42_535_295_865_117_307_932_921_825_928_971_026_432;

/// The five record kinds of the submission stream.
#[derive(Debug, Clone, Copy, PartialEq, Eq, Structural)]
pub enum TransactionType {
    Deposit,
    Withdrawal,
    Dispute,
    Resolve,
    Chargeback,
}

/// Deposits and withdrawals create new money and carry a fresh global ID.
pub open spec fn is_new_money(t: TransactionType) -> bool {
    t == TransactionType::Deposit || t == TransactionType::Withdrawal
}

/// One submitted record. Amounts are fixed-point units of one ten-thousandth.
#[derive(Debug, Clone, Copy)]
pub struct TransactionRow {
    pub tx_type: TransactionType,
    pub client: u16,
    pub tx: u32,
    pub amount: Option<i64>,
}

/// Per-client balance record.
#[derive(Debug, Clone, Copy)]
pub struct Account {
    pub client: u16,
    pub available: i128,
    pub held: i128,
    pub locked: bool,
}

/// Balances a live run can actually produce: held is never negative, and
/// both fields stay far enough from the integer limits that `total` is exact.
pub open spec fn account_wf(a: Account) -> bool {
    &&& 0 <= a.held <= BALANCE_LIMIT
    &&& -BALANCE_LIMIT <= a.available <= BALANCE_LIMIT
}

/// Mathematical view of an account: balances as unbounded integers.
#[verifier::ext_equal]
pub struct AccountModel {
    pub client: u16,
    pub available: int,
    pub held: int,
    pub locked: bool,
}

impl View for Account {
    type V = AccountModel;

    open spec fn view(&self) -> AccountModel {
        AccountModel {
            client: self.client,
            available: self.available as int,
            held: self.held as int,
            locked: self.locked,
        }
    }
}

impl Account {
    /// A fresh, empty, unlocked account.
    pub fn new(client: u16) -> (a: Account)
        ensures
            a.client == client,
            a.available == 0,
            a.held == 0,
            !a.locked,
            account_wf(a),
    {
        Account { client, available: 0, held: 0, locked: false }
    }

    /// Total funds: available plus held, exact.
    pub fn total(&self) -> (t: i128)
        requires
            account_wf(*self),
        ensures
            t == self.available + self.held,
    {
        self.available + self.held
    }
}

/// One output row of the account snapshot.
#[derive(Debug, Clone, Copy)]
pub struct AccountOutput {
    pub client: u16,
    pub available: i128,
    pub held: i128,
    pub total: i128,
    pub locked: bool,
}

impl AccountOutput {
    /// The snapshot row for an account, with its derived total.
    pub fn from_account(acc: &Account) -> (r: AccountOutput)
        requires
            account_wf(*acc),
        ensures
            r.client == acc.client,
            r.available == acc.available,
            r.held == acc.held,
            r.total == acc.available + acc.held,
            r.locked == acc.locked,
    {
        AccountOutput {
            client: acc.client,
            available: acc.available,
            held: acc.held,
            total: acc.total(),
            locked: acc.locked,
        }
    }
}

pub open spec fn kw_deposit() -> Seq<u8> {
    seq![100u8, 101u8, 112u8, 111u8, 115u8, 105u8, 116u8]
}

pub open spec fn kw_withdrawal() -> Seq<u8> {
    seq![119u8, 105u8, 116u8, 104u8, 100u8, 114u8, 97u8, 119u8, 97u8, 108u8]
}

pub open spec fn kw_dispute() -> Seq<u8> {
    seq![100u8, 105u8, 115u8, 112u8, 117u8, 116u8, 101u8]
}

pub open spec fn kw_resolve() -> Seq<u8> {
    seq![114u8, 101u8, 115u8, 111u8, 108u8, 118u8, 101u8]
}

pub open spec fn kw_chargeback() -> Seq<u8> {
    seq![99u8, 104u8, 97u8, 114u8, 103u8, 101u8, 98u8, 97u8, 99u8, 107u8]
}

/// The keyword for a record kind, as characters.
pub open spec fn tx_type_chars(t: TransactionType) -> Seq<char> {
    match t {
        TransactionType::Deposit => seq!['d', 'e', 'p', 'o', 's', 'i', 't'],
        TransactionType::Withdrawal => seq!['w', 'i', 't', 'h', 'd', 'r', 'a', 'w', 'a', 'l'],
        TransactionType::Dispute => seq!['d', 'i', 's', 'p', 'u', 't', 'e'],
        TransactionType::Resolve => seq!['r', 'e', 's', 'o', 'l', 'v', 'e'],
        TransactionType::Chargeback => seq!['c', 'h', 'a', 'r', 'g', 'e', 'b', 'a', 'c', 'k'],
    }
}

/// The lowercase keyword naming a record kind in the stream format.
pub open spec fn tx_type_bytes(t: TransactionType) -> Seq<u8> {
    match t {
        TransactionType::Deposit => kw_deposit(),
        TransactionType::Withdrawal => kw_withdrawal(),
        TransactionType::Dispute => kw_dispute(),
        TransactionType::Resolve => kw_resolve(),
        TransactionType::Chargeback => kw_chargeback(),
    }
}

/// Meaning of a type field: trimmed and lowercased, it must spell one of
/// the five keywords.
pub open spec fn spec_parse_tx_type(t: Seq<u8>) -> Option<TransactionType> {
    let u = lower_bytes(trimmed(t));
    if u == kw_deposit() {
        Some(TransactionType::Deposit)
    } else if u == kw_withdrawal() {
        Some(TransactionType::Withdrawal)
    } else if u == kw_dispute() {
        Some(TransactionType::Dispute)
    } else if u == kw_resolve() {
        Some(TransactionType::Resolve)
    } else if u == kw_chargeback() {
        Some(TransactionType::Chargeback)
    } else {
        None
    }
}

/// Recognizes a type field given as raw bytes, ignoring case and padding.
pub fn tx_type_of_bytes(t: &[u8]) -> (r: Option<TransactionType>)
    ensures
        r == spec_parse_tx_type(t@),
{
    let n = t.len();
    let (lo, hi) = trim_range(t, 0, n);
    let ghost u = lower_bytes(trimmed(t@));
    proof {
        assert(t@.subrange(0, n as int) =~= t@);
        assert(trimmed(t@) == t@.subrange(lo as int, hi as int));
        assert(u.len() == hi - lo);
        assert(forall|i: int|
            0 <= i < u.len() ==> u[i] == lower_byte(#[trigger] t@.subrange(lo as int, hi as int)[i]));
        assert(forall|i: int| 0 <= i < u.len() ==> #[trigger] u[i] == lower_byte(t@[lo + i]));
    }
    let len = hi - lo;
    if len == 7 {
        if lower_b(t[lo]) == 100 && lower_b(t[lo + 1]) == 101 && lower_b(t[lo + 2]) == 112
            && lower_b(t[lo + 3]) == 111 && lower_b(t[lo + 4]) == 115 && lower_b(t[lo + 5]) == 105
            && lower_b(t[lo + 6]) == 116 {
            proof {
                assert(u =~= kw_deposit());
            }
            return Some(TransactionType::Deposit);
        }
        if lower_b(t[lo]) == 100 && lower_b(t[lo + 1]) == 105 && lower_b(t[lo + 2]) == 115
            && lower_b(t[lo + 3]) == 112 && lower_b(t[lo + 4]) == 117 && lower_b(t[lo + 5]) == 116
            && lower_b(t[lo + 6]) == 101 {
            proof {
                assert(u =~= kw_dispute());
            }
            return Some(TransactionType::Dispute);
        }
        if lower_b(t[lo]) == 114 && lower_b(t[lo + 1]) == 101 && lower_b(t[lo + 2]) == 115
            && lower_b(t[lo + 3]) == 111 && lower_b(t[lo + 4]) == 108 && lower_b(t[lo + 5]) == 118
            && lower_b(t[lo + 6]) == 101 {
            proof {
                assert(u =~= kw_resolve());
            }
            return Some(TransactionType::Resolve);
        }
        proof {
            assert(u != kw_deposit());
            assert(u != kw_dispute());
            assert(u != kw_resolve());
        }
        return None;
    }
    if len == 10 {
        if lower_b(t[lo]) == 119 && lower_b(t[lo + 1]) == 105 && lower_b(t[lo + 2]) == 116
            && lower_b(t[lo + 3]) == 104 && lower_b(t[lo + 4]) == 100 && lower_b(t[lo + 5]) == 114
            && lower_b(t[lo + 6]) == 97 && lower_b(t[lo + 7]) == 119 && lower_b(t[lo + 8]) == 97
            && lower_b(t[lo + 9]) == 108 {
            proof {
                assert(u =~= kw_withdrawal());
            }
            return Some(TransactionType::Withdrawal);
        }
        if lower_b(t[lo]) == 99 && lower_b(t[lo + 1]) == 104 && lower_b(t[lo + 2]) == 97
            && lower_b(t[lo + 3]) == 114 && lower_b(t[lo + 4]) == 103 && lower_b(t[lo + 5]) == 101
            && lower_b(t[lo + 6]) == 98 && lower_b(t[lo + 7]) == 97 && lower_b(t[lo + 8]) == 99
            && lower_b(t[lo + 9]) == 107 {
            proof {
                assert(u =~= kw_chargeback());
            }
            return Some(TransactionType::Chargeback);
        }
        proof {
            assert(u != kw_withdrawal());
            assert(u != kw_chargeback());
        }
        return None;
    }
    None
}

/// ASCII lowercase of one byte.
pub fn lower_b(b: u8) -> (r: u8)
    ensures
        r == lower_byte(b),
{
    if 65 <= b && b <= 90 {
        b + 32
    } else {
        b
    }
}

/// Parses the type field of a record, as the stream format defines it:
/// case-insensitive, surrounding blanks ignored.
pub fn parse_transaction_type(s: &str) -> (r: Option<TransactionType>)
    ensures
        r == spec_parse_tx_type(s.spec_bytes()),
{
    let b = s.as_bytes();
    tx_type_of_bytes(b)
}

impl TransactionRow {
    /// The stream keyword for this record's type.
    pub fn tx_type_str(&self) -> (r: &'static str)
        ensures
            r@ == tx_type_chars(self.tx_type),
    {
        let r: &'static str = match self.tx_type {
            TransactionType::Deposit => "deposit",
            TransactionType::Withdrawal => "withdrawal",
            TransactionType::Dispute => "dispute",
            TransactionType::Resolve => "resolve",
            TransactionType::Chargeback => "chargeback",
        };
        proof {
            reveal_strlit("deposit");
            reveal_strlit("withdrawal");
            reveal_strlit("dispute");
            reveal_strlit("resolve");
            reveal_strlit("chargeback");
            assert(r@ =~= tx_type_chars(self.tx_type));
        }
        r
    }
}

} // verus!
