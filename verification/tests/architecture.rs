use payments_engine::codec::event_line;
use payments_engine::codec::parse_events;
use payments_engine::errors::ProcessingError;
use payments_engine::models::TransactionRow;
use payments_engine::models::TransactionType;
use payments_engine::scalable_engine::ScalableEngine;
use payments_engine::storage::InMemoryStore;

// Amounts are fixed-point units of one ten-thousandth.
const WHOLE: i64 = payments_engine::amount::UNITS_PER_WHOLE;

fn row(tx_type: TransactionType, client: u16, tx: u32, amount: Option<i64>) -> TransactionRow {
    TransactionRow { tx_type, client, tx, amount }
}

#[test]
fn test_event_store_persistence_and_recovery() {
    // Create an engine and process transactions
    let mut engine = ScalableEngine::new(4, InMemoryStore::new());
    engine
        .process(row(TransactionType::Deposit, 1, 1, Some(100 * WHOLE)))
        .unwrap();
    engine
        .process(row(TransactionType::Withdrawal, 1, 2, Some(30 * WHOLE)))
        .unwrap();

    let accounts = engine.get_accounts();
    assert_eq!(accounts.len(), 1);
    assert_eq!(accounts[0].available, (70 * WHOLE) as i128);

    // Persist the log as lines and read it back (crash recovery simulation)
    let mut log_bytes: Vec<u8> = Vec::new();
    for record in engine.event_store.replay() {
        log_bytes.extend_from_slice(&event_line(&record));
    }
    let events = parse_events(&log_bytes);

    let mut recovered = ScalableEngine::new(4, InMemoryStore::new());
    let _ = recovered.rebuild_from_events(&events);

    let accounts = recovered.get_accounts();
    assert_eq!(accounts.len(), 1);
    assert_eq!(accounts[0].available, (70 * WHOLE) as i128);
}

#[test]
fn test_parallel_processing_different_clients() {
    let mut engine = ScalableEngine::new(16, InMemoryStore::new());

    // Process transactions for ten different clients
    for client_id in 1..=10u16 {
        for tx_id in 1..=100u32 {
            let _ = engine.process(row(
                TransactionType::Deposit,
                client_id,
                (client_id as u32) * 1000 + tx_id,
                Some(WHOLE),
            ));
        }
    }

    // Verify all clients have the correct balance
    let accounts = engine.get_accounts();
    assert_eq!(accounts.len(), 10);

    for account in accounts {
        assert_eq!(account.available, (100 * WHOLE) as i128);
    }
}

#[test]
fn test_actor_isolation() {
    let mut engine = ScalableEngine::new(4, InMemoryStore::new());

    // Process for client 1
    engine
        .process(row(TransactionType::Deposit, 1, 1, Some(100 * WHOLE)))
        .unwrap();

    // Process for client 2
    engine
        .process(row(TransactionType::Deposit, 2, 2, Some(200 * WHOLE)))
        .unwrap();

    // Dispute for client 1 shouldn't affect client 2
    engine
        .process(row(TransactionType::Dispute, 1, 1, None))
        .unwrap();

    let accounts = engine.get_accounts();

    // Client 1: disputed
    let client1 = accounts.iter().find(|a| a.client == 1).unwrap();
    assert_eq!(client1.available, 0);
    assert_eq!(client1.held, (100 * WHOLE) as i128);

    // Client 2: unaffected
    let client2 = accounts.iter().find(|a| a.client == 2).unwrap();
    assert_eq!(client2.available, (200 * WHOLE) as i128);
    assert_eq!(client2.held, 0);
}

#[test]
fn test_duplicate_transaction_rejection() {
    let mut engine = ScalableEngine::new(4, InMemoryStore::new());

    // First deposit
    engine
        .process(row(TransactionType::Deposit, 1, 100, Some(50 * WHOLE)))
        .unwrap();

    // Duplicate deposit with same tx ID - should be rejected
    let result = engine.process(row(TransactionType::Deposit, 1, 100, Some(75 * WHOLE)));

    assert!(result.is_err());

    // Verify only first deposit was processed
    let account = engine.get_account(1).unwrap();
    assert_eq!(account.available, (50 * WHOLE) as i128);
}

#[test]
fn test_negative_balance_from_dispute() {
    let mut engine = ScalableEngine::new(4, InMemoryStore::new());

    // Deposit $100, withdraw $60, then dispute the deposit
    engine
        .process(row(TransactionType::Deposit, 1, 1, Some(100 * WHOLE)))
        .unwrap();

    engine
        .process(row(TransactionType::Withdrawal, 1, 2, Some(60 * WHOLE)))
        .unwrap();

    // Full dispute allowed - available can go negative
    let result = engine.process(row(TransactionType::Dispute, 1, 1, None));

    assert!(result.is_ok());

    // Verify negative balance is handled correctly
    let account = engine.get_account(1).unwrap();
    assert_eq!(account.available, (-60 * WHOLE) as i128); // Negative balance (overdraft)
    assert_eq!(account.held, (100 * WHOLE) as i128); // Full dispute amount held
    assert_eq!(account.available + account.held, (40 * WHOLE) as i128); // Invariant maintained
}

#[test]
fn test_registry_keeps_ids_after_chargeback() {
    // Once accepted, a new-money ID is known for good: reusing it after a
    // chargeback removed the transaction is still rejected.
    let mut engine = ScalableEngine::new(4, InMemoryStore::new());
    engine
        .process(row(TransactionType::Deposit, 1, 7, Some(10 * WHOLE)))
        .unwrap();
    engine
        .process(row(TransactionType::Dispute, 1, 7, None))
        .unwrap();
    engine
        .process(row(TransactionType::Chargeback, 1, 7, None))
        .unwrap();

    let result = engine.process(row(TransactionType::Deposit, 2, 7, Some(10 * WHOLE)));
    assert_eq!(result, Err(ProcessingError::DuplicateTransaction));
}

#[test]
fn test_error_kinds() {
    let mut engine = ScalableEngine::new(4, InMemoryStore::new());

    assert_eq!(
        engine.process(row(TransactionType::Deposit, 1, 1, None)),
        Err(ProcessingError::MissingAmount)
    );
    assert_eq!(
        engine.process(row(TransactionType::Deposit, 1, 1, Some(-5))),
        Err(ProcessingError::InvalidAmount)
    );
    engine
        .process(row(TransactionType::Deposit, 1, 1, Some(10 * WHOLE)))
        .unwrap();
    assert_eq!(
        engine.process(row(TransactionType::Withdrawal, 1, 2, Some(20 * WHOLE))),
        Err(ProcessingError::InsufficientFunds)
    );
    assert_eq!(
        engine.process(row(TransactionType::Dispute, 1, 99, None)),
        Err(ProcessingError::TransactionNotFound)
    );
    // tx 1 sits in client 1's hot history, invisible to client 2's worker
    assert_eq!(
        engine.process(row(TransactionType::Dispute, 2, 1, None)),
        Err(ProcessingError::TransactionNotFound)
    );
    engine
        .process(row(TransactionType::Dispute, 1, 1, None))
        .unwrap();
    assert_eq!(
        engine.process(row(TransactionType::Dispute, 1, 1, None)),
        Err(ProcessingError::AlreadyDisputed)
    );
    engine
        .process(row(TransactionType::Resolve, 1, 1, None))
        .unwrap();
    assert_eq!(
        engine.process(row(TransactionType::Chargeback, 1, 1, None)),
        Err(ProcessingError::NotDisputed)
    );
    engine
        .process(row(TransactionType::Dispute, 1, 1, None))
        .unwrap();
    engine
        .process(row(TransactionType::Chargeback, 1, 1, None))
        .unwrap();
    assert_eq!(
        engine.process(row(TransactionType::Withdrawal, 1, 3, Some(1))),
        Err(ProcessingError::AccountLocked)
    );
}

#[test]
fn test_client_mismatch_on_cold_entry() {
    // Once a transaction has migrated to the shared cold tier, a foreign
    // client's dispute finds it and is rejected as a mismatch.
    let mut engine = ScalableEngine::new(4, InMemoryStore::new());
    engine.set_clock(10);
    engine
        .process(row(TransactionType::Deposit, 1, 1, Some(30 * WHOLE)))
        .unwrap();
    engine.set_clock(500);
    engine.migrate(1, 100);
    assert_eq!(
        engine.process(row(TransactionType::Dispute, 2, 1, None)),
        Err(ProcessingError::ClientMismatch)
    );
}

#[test]
fn test_dispute_resolve_round_trip_restores_balances() {
    let mut engine = ScalableEngine::new(4, InMemoryStore::new());
    engine
        .process(row(TransactionType::Deposit, 1, 1, Some(25 * WHOLE)))
        .unwrap();
    let before = engine.get_account(1).unwrap();

    engine
        .process(row(TransactionType::Dispute, 1, 1, None))
        .unwrap();
    engine
        .process(row(TransactionType::Resolve, 1, 1, None))
        .unwrap();

    let after = engine.get_account(1).unwrap();
    assert_eq!(before.available, after.available);
    assert_eq!(before.held, after.held);
    assert_eq!(before.locked, after.locked);
}

#[test]
fn test_snapshot_invariants() {
    let mut engine = ScalableEngine::new(4, InMemoryStore::new());
    engine
        .process(row(TransactionType::Deposit, 1, 1, Some(100 * WHOLE)))
        .unwrap();
    engine
        .process(row(TransactionType::Deposit, 2, 2, Some(50 * WHOLE)))
        .unwrap();
    engine
        .process(row(TransactionType::Dispute, 2, 2, None))
        .unwrap();

    // total = available + held and held is never negative, on every account
    for account in engine.get_accounts() {
        assert!(account.held >= 0);
        let output = payments_engine::models::AccountOutput::from_account(&account);
        assert_eq!(output.total, account.available + account.held);
    }
}

#[test]
fn test_migration_keeps_lookups() {
    // Entries older than the cutoff move to the cold tier; disputes still
    // find them there.
    let mut engine = ScalableEngine::new(4, InMemoryStore::new());
    engine.set_clock(10);
    engine
        .process(row(TransactionType::Deposit, 1, 1, Some(30 * WHOLE)))
        .unwrap();
    engine.set_clock(500);
    engine
        .process(row(TransactionType::Deposit, 1, 2, Some(20 * WHOLE)))
        .unwrap();

    // migrate everything created before time 100 for client 1
    engine.migrate(1, 100);
    assert_eq!(engine.cold.table.entries.len(), 1);

    // the aged deposit moved; the younger one stayed hot
    let hot = &engine.shard_manager.shards[1 % 4].workers[0].hot.entries;
    assert_eq!(hot.len(), 1);
    assert_eq!(hot[0].0, 2);

    // the migrated deposit can still be disputed
    engine
        .process(row(TransactionType::Dispute, 1, 1, None))
        .unwrap();
    let account = engine.get_account(1).unwrap();
    assert_eq!(account.held, (30 * WHOLE) as i128);
    assert_eq!(account.available, (20 * WHOLE) as i128);
}

#[test]
fn test_event_log_round_trip() {
    // A rendered log line parses back to the same record.
    let records = vec![
        row(TransactionType::Deposit, 1, 1, Some(15_000)),
        row(TransactionType::Withdrawal, 1, 2, Some(2_500)),
        row(TransactionType::Dispute, 1, 1, None),
        row(TransactionType::Resolve, 1, 1, None),
        row(TransactionType::Chargeback, 1, 1, None),
    ];
    let mut bytes: Vec<u8> = Vec::new();
    for r in &records {
        bytes.extend_from_slice(&event_line(r));
    }
    let parsed = parse_events(&bytes);
    assert_eq!(parsed.len(), records.len());
    for (a, b) in parsed.iter().zip(records.iter()) {
        assert_eq!(a.client, b.client);
        assert_eq!(a.tx, b.tx);
        assert_eq!(a.amount, b.amount);
    }
}
