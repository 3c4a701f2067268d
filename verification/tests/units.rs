use payments_engine::amount::format_amount_into;
use payments_engine::amount::parse_amount;
use payments_engine::codec::parse_csv_line;
use payments_engine::errors::ProcessingError;
use payments_engine::models::parse_transaction_type;
use payments_engine::models::Account;
use payments_engine::models::TransactionType;
use payments_engine::storage::InMemoryStore;
use payments_engine::storage::StoredTransaction;
use payments_engine::storage::TransactionStore;
use payments_engine::tx_registry::ShardedTxRegistry;

#[test]
fn test_parse_transaction_type_keywords() {
    assert_eq!(parse_transaction_type("deposit"), Some(TransactionType::Deposit));
    assert_eq!(parse_transaction_type(" WITHDRAWAL "), Some(TransactionType::Withdrawal));
    assert_eq!(parse_transaction_type("Dispute"), Some(TransactionType::Dispute));
    assert_eq!(parse_transaction_type("resolve"), Some(TransactionType::Resolve));
    assert_eq!(parse_transaction_type("chargeback"), Some(TransactionType::Chargeback));
    assert_eq!(parse_transaction_type("withdraw"), None);
    assert_eq!(parse_transaction_type(""), None);
}

#[test]
fn test_parse_amount_exact_values() {
    assert_eq!(parse_amount(b"3.0"), Some(30_000));
    assert_eq!(parse_amount(b"0.0001"), Some(1));
    assert_eq!(parse_amount(b"1.5"), Some(15_000));
    assert_eq!(parse_amount(b"100"), Some(1_000_000));
    assert_eq!(parse_amount(b"-2.5"), Some(-25_000));
    assert_eq!(parse_amount(b"007"), Some(70_000));
    assert_eq!(parse_amount(b"1.50000"), Some(15_000));
    assert_eq!(parse_amount(b"1.00005"), None);
    assert_eq!(parse_amount(b""), None);
    assert_eq!(parse_amount(b"."), None);
    assert_eq!(parse_amount(b"1.2.3"), None);
    assert_eq!(parse_amount(b"12a"), None);
}

#[test]
fn test_format_amount_exact() {
    let mut out: Vec<u8> = Vec::new();
    format_amount_into(15_000, &mut out);
    assert_eq!(out, b"1.5000");
    out.clear();
    format_amount_into(-600_000, &mut out);
    assert_eq!(out, b"-60.0000");
    out.clear();
    format_amount_into(1, &mut out);
    assert_eq!(out, b"0.0001");
    out.clear();
    format_amount_into(0, &mut out);
    assert_eq!(out, b"0.0000");
}

#[test]
fn test_parse_csv_line_fields() {
    let r = parse_csv_line(b"deposit,1,2,3.5").unwrap();
    assert_eq!(r.client, 1);
    assert_eq!(r.tx, 2);
    assert_eq!(r.amount, Some(35_000));

    let r = parse_csv_line(b"dispute, 7 , 9 ").unwrap();
    assert_eq!(r.client, 7);
    assert_eq!(r.tx, 9);
    assert_eq!(r.amount, None);

    assert!(parse_csv_line(b"deposit,1").is_none());
    assert!(parse_csv_line(b"deposit,70000,1,1.0").is_none());
    assert!(parse_csv_line(b"deposit,1,1,oops").is_none());
    assert!(parse_csv_line(b"").is_none());
}

#[test]
fn test_account_new_and_total() {
    let a = Account::new(3);
    assert_eq!(a.client, 3);
    assert_eq!(a.available, 0);
    assert_eq!(a.held, 0);
    assert!(!a.locked);
    assert_eq!(a.total(), 0);
}

#[test]
fn test_registry_register_unregister() {
    let mut reg = ShardedTxRegistry::new(4);
    assert!(reg.register(11));
    assert!(!reg.register(11));
    assert!(reg.unregister(11));
    assert!(!reg.unregister(11));
    assert!(reg.register(11));
}

#[test]
fn test_in_memory_store_operations() {
    let mut store = InMemoryStore::new();
    let st = StoredTransaction {
        client: 1,
        tx_type: TransactionType::Deposit,
        amount: 5_000,
        disputed: false,
        held_amount: None,
        created_at: 0,
    };
    assert!(store.get(9).is_none());
    store.put(9, st).unwrap();
    let got = store.get(9).unwrap();
    assert_eq!(got.amount, 5_000);
    store.remove(9);
    assert!(store.get(9).is_none());
}

#[test]
fn test_whitespace_kinds_trimmed() {
    // Space, tab, vertical tab, form feed and carriage return all count as
    // surrounding whitespace on a field.
    assert_eq!(
        parse_transaction_type("\u{b}\u{c}\tDeposit \r"),
        Some(TransactionType::Deposit)
    );
    let r = parse_csv_line("deposit,\u{c}1\u{b},2,3.5".as_bytes()).unwrap();
    assert_eq!(r.client, 1);
    assert_eq!(r.amount, Some(35_000));
}

#[test]
fn test_error_messages() {
    assert_eq!(ProcessingError::MissingAmount.message(), "missing amount");
    assert_eq!(ProcessingError::DuplicateTransaction.message(), "duplicate transaction ID");
}

#[test]
fn test_tx_type_str_keywords() {
    let r = payments_engine::models::TransactionRow {
        tx_type: TransactionType::Chargeback,
        client: 1,
        tx: 1,
        amount: None,
    };
    assert_eq!(r.tx_type_str(), "chargeback");
}
