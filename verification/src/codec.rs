//! The stream format: parsing submitted records and rendering snapshots.
//!
//! Records are comma-separated lines `type,client,tx,amount` with blanks
//! trimmed around fields and a case-insensitive type keyword. Snapshots are
//! lines `client,available,held,total,locked`, one per client in ascending
//! client order, with exactly four fractional digits. The event log uses
//! the record format with the amount empty for non-new-money records.

use vstd::prelude::*;
use crate::amount::all_digits;
use crate::amount::amount_units;
use crate::amount::digits_value;
use crate::amount::find_from;
use crate::amount::lemma_digits_value_lower;
use crate::amount::lemma_pow10_mono;
use crate::amount::lemma_strip_zeros_value;
use crate::amount::lemma_strip_zeros_head;
use crate::amount::parse_amount;
use crate::amount::parse_digits_range;
use crate::amount::pow10;
use crate::amount::strip_zeros;
use crate::amount::trim_range;
use crate::amount::trimmed;
use crate::amount::valid_amount;
use crate::models::TransactionRow;
use crate::models::spec_parse_tx_type;
use crate::models::tx_type_of_bytes;
use crate::models::tx_type_bytes;
use crate::models::TransactionType;
use crate::models::AccountModel;
use crate::account_worker::WorkerModel;
use crate::account_worker::row_amount_ok;
use crate::amount::dec_digits;
use crate::amount::spec_format_amount;
use crate::amount::write_digits;
use crate::amount::format_amount_into;
use crate::scalable_engine::EngineModel;
use crate::scalable_engine::ScalableEngine;
use crate::scalable_engine::engine_step;
use crate::storage::InMemoryStore;
use crate::storage::TransactionStore;

verus! {

/// A decimal field denoting an unsigned number no larger than `max`.
pub open spec fn valid_uint(s: Seq<u8>, max: int) -> bool {
    s.len() > 0 && all_digits(s) && digits_value(s) <= max
}

/// Reads the unsigned decimal field `s[from..to)`, bounded by `max`.
fn parse_uint_range(s: &[u8], from: usize, to: usize, max: u64) -> (r: Option<u64>)
    requires
        0 <= from <= to <= s@.len(),
        max <= 0xffff_ffff,
    ensures
        match r {
            Some(v) => valid_uint(s@.subrange(from as int, to as int), max as int) && v
                == digits_value(s@.subrange(from as int, to as int)),
            None => !valid_uint(s@.subrange(from as int, to as int), max as int),
        },
{
    let ghost t = s@.subrange(from as int, to as int);
    if to == from {
        return None;
    }
    if !crate::amount::check_digits(s, from, to) {
        return None;
    }
    let z = crate::amount::skip_leading_zeros(s, from, to);
    proof {
        lemma_strip_zeros_value(t);
    }
    if to - z > 10 {
        proof {
            let u = strip_zeros(t);
            assert(u == s@.subrange(z as int, to as int));
            lemma_strip_zeros_head(t);
            lemma_digits_value_lower(u);
            lemma_pow10_mono(11, u.len());
            assert(pow10(11) == 100_000_000_000) by {
                reveal_with_fuel(pow10, 13);
            }
        }
        return None;
    }
    let v = parse_digits_range(s, z, to);
    if v > max as i64 {
        return None;
    }
    Some(v as u64)
}

/// Meaning of one record line, as the stream format defines it.
///
/// The line must hold at least three comma-separated fields: a type
/// keyword, a client ID, and a transaction ID. A fourth field, if present
/// and non-blank, is the amount; anything after it is ignored. A malformed
/// line means `None`, and the record is skipped.
pub open spec fn spec_parse_line(line: Seq<u8>) -> Option<TransactionRow> {
    let c1 = find_from(line, 44, 0);
    let c2 = find_from(line, 44, c1 + 1);
    if c1 == -1 || c2 == -1 {
        None
    } else {
        let c3 = find_from(line, 44, c2 + 1);
        let f0 = line.take(c1);
        let f1 = trimmed(line.subrange(c1 + 1, c2));
        let f2 = trimmed(
            line.subrange(
                c2 + 1,
                if c3 == -1 {
                    line.len() as int
                } else {
                    c3
                },
            ),
        );
        let f3 = if c3 == -1 {
            Seq::<u8>::empty()
        } else {
            let c4 = find_from(line, 44, c3 + 1);
            trimmed(
                line.subrange(
                    c3 + 1,
                    if c4 == -1 {
                        line.len() as int
                    } else {
                        c4
                    },
                ),
            )
        };
        match spec_parse_tx_type(f0) {
            None => None,
            Some(tt) => {
                if !valid_uint(f1, 0xffff) {
                    None
                } else if !valid_uint(f2, 0xffff_ffff) {
                    None
                } else if f3.len() == 0 {
                    Some(
                        TransactionRow {
                            tx_type: tt,
                            client: digits_value(f1) as u16,
                            tx: digits_value(f2) as u32,
                            amount: None,
                        },
                    )
                } else if valid_amount(f3) {
                    Some(
                        TransactionRow {
                            tx_type: tt,
                            client: digits_value(f1) as u16,
                            tx: digits_value(f2) as u32,
                            amount: Some(amount_units(f3) as i64),
                        },
                    )
                } else {
                    None
                }
            },
        }
    }
}

/// Parses one record line. Returns exactly what the format grammar says.
pub fn parse_csv_line(line: &[u8]) -> (r: Option<TransactionRow>)
    ensures
        r == spec_parse_line(line@),
        match r {
            Some(row) => crate::account_worker::row_amount_ok(row),
            None => true,
        },
{
    let n = line.len();
    proof {
        assert(line@.subrange(0, n as int) =~= line@);
    }
    let c1 = match crate::amount::find_byte_range(line, 44, 0, n) {
        Some(i) => i,
        None => {
            return None;
        },
    };
    proof {
        assert(find_from(line@, 44, 0) == c1 as int) by {
            assert(line@.subrange(0, n as int) =~= line@);
        }
    }
    let c2 = match crate::amount::find_byte_range(line, 44, c1 + 1, n) {
        Some(i) => i,
        None => {
            proof {
                lemma_find_shift(line@, c1 + 1 as int, -1);
            }
            return None;
        },
    };
    proof {
        lemma_find_shift(line@, c1 + 1 as int, c2 as int);
    }
    let c3opt = crate::amount::find_byte_range(line, 44, c2 + 1, n);
    proof {
        match c3opt {
            Some(i) => {
                lemma_find_shift(line@, c2 + 1 as int, i as int);
            },
            None => {
                lemma_find_shift(line@, c2 + 1 as int, -1);
            },
        }
    }
    let f2_end = match c3opt {
        Some(i) => i,
        None => n,
    };
    let ghost f0 = line@.take(c1 as int);
    proof {
        assert(f0 =~= line@.subrange(0, c1 as int));
    }
    let tt = match tx_type_of_bytes_range(line, 0, c1) {
        Some(t) => t,
        None => {
            return None;
        },
    };
    let (a1, b1) = trim_range(line, c1 + 1, c2);
    let client = match parse_uint_range(line, a1, b1, 0xffff) {
        Some(v) => v as u16,
        None => {
            return None;
        },
    };
    let (a2, b2) = trim_range(line, c2 + 1, f2_end);
    let tx = match parse_uint_range(line, a2, b2, 0xffff_ffff) {
        Some(v) => v as u32,
        None => {
            return None;
        },
    };
    let amount: Option<i64> = match c3opt {
        None => None,
        Some(c3) => {
            let c4opt = crate::amount::find_byte_range(line, 44, c3 + 1, n);
            proof {
                match c4opt {
                    Some(i) => {
                        lemma_find_shift(line@, c3 + 1 as int, i as int);
                    },
                    None => {
                        lemma_find_shift(line@, c3 + 1 as int, -1);
                    },
                }
            }
            let f3_end = match c4opt {
                Some(i) => i,
                None => n,
            };
            let (a3, b3) = trim_range(line, c3 + 1, f3_end);
            if b3 == a3 {
                None
            } else {
                let sub = &line[a3..b3];
                proof {
                    assert(sub@ =~= line@.subrange(a3 as int, b3 as int));
                }
                match parse_amount(sub) {
                    Some(v) => Some(v),
                    None => {
                        return None;
                    },
                }
            }
        },
    };
    Some(TransactionRow { tx_type: tt, client, tx, amount })
}

/// `find_from` restated over the whole sequence: a search from `i`
/// matches a search over the suffix.
proof fn lemma_find_shift(s: Seq<u8>, i: int, r: int)
    requires
        0 <= i <= s.len(),
        r == -1 ==> find_from(s.subrange(i, s.len() as int), 44, 0) == -1,
        r != -1 ==> i <= r < s.len() && find_from(s.subrange(i, s.len() as int), 44, 0) == r - i,
    ensures
        find_from(s, 44, i) == r,
{
    lemma_find_sub(s, 44, i, i);
}

pub proof fn lemma_find_sub(s: Seq<u8>, b: u8, base: int, i: int)
    requires
        0 <= base <= i <= s.len(),
    ensures
        find_from(s, b, i) == (if find_from(s.subrange(base, s.len() as int), b, i - base) == -1 {
            -1
        } else {
            find_from(s.subrange(base, s.len() as int), b, i - base) + base
        }),
    decreases s.len() - i,
{
    let t = s.subrange(base, s.len() as int);
    if i < s.len() {
        assert(t[i - base] == s[i]);
        if s[i] != b {
            lemma_find_sub(s, b, base, i + 1);
        }
    }
}

/// Recognizes the type keyword in `line[from..to)`.
fn tx_type_of_bytes_range(line: &[u8], from: usize, to: usize) -> (r: Option<
    crate::models::TransactionType,
>)
    requires
        0 <= from <= to <= line@.len(),
    ensures
        r == spec_parse_tx_type(line@.subrange(from as int, to as int)),
{
    let sub = &line[from..to];
    proof {
        assert(sub@ =~= line@.subrange(from as int, to as int));
    }
    tx_type_of_bytes(sub)
}

/// One record rendered as an event-log line:
/// `type,client,tx,amount` with a newline, the amount empty for
/// dispute, resolve and chargeback records.
pub open spec fn spec_event_line(tx: TransactionRow) -> Seq<u8> {
    tx_type_bytes(tx.tx_type) + seq![44u8] + dec_digits(tx.client as int) + seq![44u8]
        + dec_digits(tx.tx as int) + seq![44u8] + (match tx.amount {
        None => Seq::<u8>::empty(),
        Some(a) => spec_format_amount(a as int),
    }) + seq![10u8]
}

/// Appends the stream keyword of a record kind.
fn push_tx_type(out: &mut Vec<u8>, t: TransactionType)
    ensures
        final(out)@ == old(out)@ + tx_type_bytes(t),
{
    match t {
        TransactionType::Deposit => {
            out.push(100);
            out.push(101);
            out.push(112);
            out.push(111);
            out.push(115);
            out.push(105);
            out.push(116);
        },
        TransactionType::Withdrawal => {
            out.push(119);
            out.push(105);
            out.push(116);
            out.push(104);
            out.push(100);
            out.push(114);
            out.push(97);
            out.push(119);
            out.push(97);
            out.push(108);
        },
        TransactionType::Dispute => {
            out.push(100);
            out.push(105);
            out.push(115);
            out.push(112);
            out.push(117);
            out.push(116);
            out.push(101);
        },
        TransactionType::Resolve => {
            out.push(114);
            out.push(101);
            out.push(115);
            out.push(111);
            out.push(108);
            out.push(118);
            out.push(101);
        },
        TransactionType::Chargeback => {
            out.push(99);
            out.push(104);
            out.push(97);
            out.push(114);
            out.push(103);
            out.push(101);
            out.push(98);
            out.push(97);
            out.push(99);
            out.push(107);
        },
    }
    proof {
        assert(out@ =~= old(out)@ + tx_type_bytes(t));
    }
}

/// Renders one record as an event-log line.
pub fn event_line(tx: &TransactionRow) -> (r: Vec<u8>)
    ensures
        r@ == spec_event_line(*tx),
{
    let mut out: Vec<u8> = Vec::new();
    push_tx_type(&mut out, tx.tx_type);
    out.push(44);
    write_digits(tx.client as i128, &mut out);
    out.push(44);
    write_digits(tx.tx as i128, &mut out);
    out.push(44);
    match tx.amount {
        None => {
        },
        Some(a) => {
            format_amount_into(a as i128, &mut out);
        },
    }
    out.push(10);
    proof {
        assert(out@ =~= spec_event_line(*tx));
    }
    out
}

/// Every well-formed record in the lines at or after position `i`.
pub open spec fn spec_parse_events_from(input: Seq<u8>, i: int) -> Seq<TransactionRow>
    decreases input.len() - i,
    via spec_parse_events_dec
{
    if i < 0 || i >= input.len() {
        Seq::empty()
    } else {
        let e = find_from(input, 10, i);
        let line = input.subrange(
            i,
            if e == -1 {
                input.len() as int
            } else {
                e
            },
        );
        (match spec_parse_line(line) {
            Some(row) => seq![row],
            None => Seq::empty(),
        }) + (if e == -1 {
            Seq::<TransactionRow>::empty()
        } else {
            spec_parse_events_from(input, e + 1)
        })
    }
}

#[via_fn]
proof fn spec_parse_events_dec(input: Seq<u8>, i: int) {
    if 0 <= i < input.len() {
        crate::amount::lemma_find_from_range(input, 10, i);
    }
}

/// Every well-formed record in a byte stream of lines, in order;
/// malformed lines (a header among them) are skipped.
pub open spec fn spec_parse_events(input: Seq<u8>) -> Seq<TransactionRow> {
    spec_parse_events_from(input, 0)
}

/// Parses a whole event-log byte stream back into records, skipping
/// malformed lines and a header line.
pub fn parse_events(input: &[u8]) -> (r: Vec<TransactionRow>)
    ensures
        r@ == spec_parse_events(input@),
        forall|k: int| 0 <= k < r@.len() ==> row_amount_ok(#[trigger] r@[k]),
{
    let n = input.len();
    let mut out: Vec<TransactionRow> = Vec::new();
    let mut pos: usize = 0;
    while pos < n
        invariant
            0 <= pos <= n == input@.len(),
            out@ + spec_parse_events_from(input@, pos as int) =~= spec_parse_events(input@),
            forall|k: int| 0 <= k < out@.len() ==> row_amount_ok(#[trigger] out@[k]),
        decreases n - pos,
    {
        let eol = crate::amount::find_byte_range(input, 10, pos, n);
        let lend = match eol {
            Some(e) => e,
            None => n,
        };
        proof {
            lemma_find_sub(input@, 10, pos as int, pos as int);
            assert(input@.subrange(pos as int, n as int).subrange(0, n - pos as int)
                =~= input@.subrange(pos as int, n as int));
        }
        let sub = &input[pos..lend];
        proof {
            assert(sub@ =~= input@.subrange(pos as int, lend as int));
        }
        let parsed = parse_csv_line(sub);
        let ghost out0 = out@;
        match parsed {
            Some(row) => {
                out.push(row);
            },
            None => {
            },
        }
        proof {
            match parsed {
                Some(row) => {
                    assert(out@ =~= out0 + seq![row]);
                },
                None => {
                    assert(out@ =~= out0 + Seq::<TransactionRow>::empty());
                },
            }
            match eol {
                Some(e) => {
                    assert(out@ + spec_parse_events_from(input@, e + 1 as int)
                        =~= spec_parse_events(input@));
                },
                None => {
                    assert(spec_parse_events_from(input@, n as int)
                        =~= Seq::<TransactionRow>::empty());
                    assert(out@ + spec_parse_events_from(input@, n as int) =~= spec_parse_events(
                        input@,
                    ));
                },
            }
        }
        pos = match eol {
            Some(e) => e + 1,
            None => n,
        };
    }
    proof {
        assert(spec_parse_events_from(input@, pos as int) =~= Seq::<TransactionRow>::empty());
        assert(out@ + Seq::<TransactionRow>::empty() =~= out@);
    }
    out
}

/// The snapshot header line.
pub open spec fn header_bytes() -> Seq<u8> {
    seq![
        99u8, 108u8, 105u8, 101u8, 110u8, 116u8, 44u8, 97u8, 118u8, 97u8, 105u8, 108u8, 97u8,
        98u8, 108u8, 101u8, 44u8, 104u8, 101u8, 108u8, 100u8, 44u8, 116u8, 111u8, 116u8, 97u8,
        108u8, 44u8, 108u8, 111u8, 99u8, 107u8, 101u8, 100u8, 10u8,
    ]
}

pub open spec fn bool_bytes(b: bool) -> Seq<u8> {
    if b {
        seq![116u8, 114u8, 117u8, 101u8]
    } else {
        seq![102u8, 97u8, 108u8, 115u8, 101u8]
    }
}

/// One snapshot row: client, available, held, total, locked.
pub open spec fn spec_account_line(a: AccountModel) -> Seq<u8> {
    dec_digits(a.client as int) + seq![44u8] + spec_format_amount(a.available) + seq![44u8]
        + spec_format_amount(a.held) + seq![44u8] + spec_format_amount(a.available + a.held)
        + seq![44u8] + bool_bytes(a.locked) + seq![10u8]
}

/// Snapshot rows for the live clients below `c`, in ascending client order.
pub open spec fn rows_upto(ws: Map<u16, WorkerModel>, c: int) -> Seq<u8>
    decreases c,
{
    if c <= 0 {
        Seq::empty()
    } else {
        rows_upto(ws, c - 1) + (if ws.dom().contains((c - 1) as u16) {
            spec_account_line(ws[(c - 1) as u16].account)
        } else {
            Seq::<u8>::empty()
        })
    }
}

/// The whole snapshot: header, then one row per live client, ascending.
pub open spec fn spec_render_snapshot(ws: Map<u16, WorkerModel>) -> Seq<u8> {
    header_bytes() + rows_upto(ws, 65536)
}

/// Renders the account snapshot of an engine, sorted by client ID.
pub fn render_accounts<S: TransactionStore>(engine: &ScalableEngine<S>) -> (out: Vec<u8>)
    requires
        engine.inv(),
    ensures
        out@ == spec_render_snapshot(engine@.workers),
{
    let ghost ws = engine@.workers;
    let mut out: Vec<u8> = Vec::new();
    out.push(99);
    out.push(108);
    out.push(105);
    out.push(101);
    out.push(110);
    out.push(116);
    out.push(44);
    out.push(97);
    out.push(118);
    out.push(97);
    out.push(105);
    out.push(108);
    out.push(97);
    out.push(98);
    out.push(108);
    out.push(101);
    out.push(44);
    out.push(104);
    out.push(101);
    out.push(108);
    out.push(100);
    out.push(44);
    out.push(116);
    out.push(111);
    out.push(116);
    out.push(97);
    out.push(108);
    out.push(44);
    out.push(108);
    out.push(111);
    out.push(99);
    out.push(107);
    out.push(101);
    out.push(100);
    out.push(10);
    proof {
        assert(out@ =~= header_bytes());
        assert(rows_upto(ws, 0) =~= Seq::<u8>::empty());
        assert(out@ =~= header_bytes() + rows_upto(ws, 0));
    }
    let mut c: u32 = 0;
    while c < 65536
        invariant
            0 <= c <= 65536,
            engine.inv(),
            ws == engine@.workers,
            out@ == header_bytes() + rows_upto(ws, c as int),
        decreases 65536 - c,
    {
        let ghost out0 = out@;
        match engine.get_account(c as u16) {
            None => {
                proof {
                    assert(rows_upto(ws, c + 1 as int) =~= rows_upto(ws, c as int)
                        + Seq::<u8>::empty());
                    assert(out@ =~= header_bytes() + rows_upto(ws, c + 1 as int));
                }
            },
            Some(a) => {
                push_account_line(&mut out, &a);
                proof {
                    assert(out@ =~= header_bytes() + rows_upto(ws, c + 1 as int));
                }
            },
        }
        c = c + 1;
    }
    out
}

/// Appends one snapshot row for an account.
#[verifier::rlimit(100)]
fn push_account_line(out: &mut Vec<u8>, a: &crate::models::Account)
    requires
        crate::models::account_wf(*a),
    ensures
        final(out)@ == old(out)@ + spec_account_line(a@),
{
    write_digits(a.client as i128, out);
    out.push(44);
    format_amount_into(a.available, out);
    out.push(44);
    format_amount_into(a.held, out);
    out.push(44);
    let t = a.total();
    format_amount_into(t, out);
    out.push(44);
    if a.locked {
        out.push(116);
        out.push(114);
        out.push(117);
        out.push(101);
    } else {
        out.push(102);
        out.push(97);
        out.push(108);
        out.push(115);
        out.push(101);
    }
    out.push(10);
    proof {
        assert(out@ =~= old(out)@ + spec_account_line(a@));
    }
}

/// The engine model a fresh engine starts from.
pub open spec fn initial_model() -> EngineModel {
    EngineModel {
        workers: Map::empty(),
        cold: Seq::empty(),
        registry: Set::empty(),
        log: Seq::empty(),
    }
}

/// Effect of one line on the engine: a well-formed record is submitted,
/// anything else is skipped.
pub open spec fn ingest_line(m: EngineModel, line: Seq<u8>, now: u64) -> EngineModel {
    match spec_parse_line(line) {
        Some(row) => engine_step(m, row, now).0,
        None => m,
    }
}

/// Effect of the lines at or after position `i` on the engine.
pub open spec fn ingest_lines_from(m: EngineModel, input: Seq<u8>, i: int, now: u64) -> EngineModel
    decreases input.len() - i,
    via ingest_lines_dec
{
    if i < 0 || i >= input.len() {
        m
    } else {
        let e = find_from(input, 10, i);
        let line = input.subrange(
            i,
            if e == -1 {
                input.len() as int
            } else {
                e
            },
        );
        if e == -1 {
            ingest_line(m, line, now)
        } else {
            ingest_lines_from(ingest_line(m, line, now), input, e + 1, now)
        }
    }
}

#[via_fn]
proof fn ingest_lines_dec(m: EngineModel, input: Seq<u8>, i: int, now: u64) {
    if 0 <= i < input.len() {
        crate::amount::lemma_find_from_range(input, 10, i);
    }
}

/// The engine state a submission stream produces: the first line is the
/// header, every later well-formed record is submitted to a fresh engine.
pub open spec fn spec_engine_of_csv(input: Seq<u8>) -> EngineModel {
    let e = find_from(input, 10, 0);
    if e == -1 {
        initial_model()
    } else {
        ingest_lines_from(initial_model(), input, e + 1, 0)
    }
}

/// Processes a whole submission stream and renders the final snapshot:
/// header row, then one row per client in ascending client order.
///
/// Parse errors skip the record; rejected records leave no trace. The
/// result is exactly the rendering of the engine state the stream defines.
pub fn process_csv(input: &[u8]) -> (out: Vec<u8>)
    ensures
        out@ == spec_render_snapshot(spec_engine_of_csv(input@).workers),
{
    let n = input.len();
    let mut engine: ScalableEngine<InMemoryStore> = ScalableEngine::new(16, InMemoryStore::new());
    proof {
        assert(engine@ =~= initial_model());
        assert(input@.subrange(0, n as int) =~= input@);
    }
    let header_end = crate::amount::find_byte_range(input, 10, 0, n);
    let mut pos: usize = match header_end {
        Some(e) => e + 1,
        None => n,
    };
    proof {
        assert(input@.subrange(0, n as int) =~= input@);
        match header_end {
            Some(e) => {
                assert(find_from(input@, 10, 0) == e as int);
                assert(ingest_lines_from(initial_model(), input@, pos as int, 0)
                    == spec_engine_of_csv(input@));
            },
            None => {
                assert(find_from(input@, 10, 0) == -1);
                assert(ingest_lines_from(initial_model(), input@, pos as int, 0)
                    == spec_engine_of_csv(input@));
            },
        }
    }
    while pos < n
        invariant
            0 <= pos <= n == input@.len(),
            engine.inv(),
            engine.clock == 0,
            ingest_lines_from(engine@, input@, pos as int, 0) == spec_engine_of_csv(input@),
        decreases n - pos,
    {
        let ghost m0 = engine@;
        let eol = crate::amount::find_byte_range(input, 10, pos, n);
        let lend = match eol {
            Some(e) => e,
            None => n,
        };
        proof {
            lemma_find_sub(input@, 10, pos as int, pos as int);
            assert(input@.subrange(pos as int, n as int).subrange(0, n - pos as int)
                =~= input@.subrange(pos as int, n as int));
        }
        let sub = &input[pos..lend];
        proof {
            assert(sub@ =~= input@.subrange(pos as int, lend as int));
        }
        match parse_csv_line(sub) {
            Some(row) => {
                let _ = engine.process(row);
                proof {
                    assert(!engine.cold.may_fail_writes());
                    assert(engine@ == engine_step(m0, row, 0).0);
                    assert(engine@ == ingest_line(m0, sub@, 0));
                }
            },
            None => {
                proof {
                    assert(engine@ == ingest_line(m0, sub@, 0));
                }
            },
        }
        proof {
            match eol {
                Some(e) => {
                    assert(ingest_lines_from(engine@, input@, e + 1 as int, 0)
                        == spec_engine_of_csv(input@));
                },
                None => {
                    assert(ingest_lines_from(engine@, input@, n as int, 0) == engine@);
                },
            }
        }
        pos = match eol {
            Some(e) => e + 1,
            None => n,
        };
    }
    render_accounts(&engine)
}


} // verus!
