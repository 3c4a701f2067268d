use payments_engine::codec::process_csv;

fn run_disputes(input: &str) -> String {
    String::from_utf8(process_csv(input.as_bytes())).unwrap()
}

#[test]
fn test_dispute_and_resolve() {
    let output_str = run_disputes(
        "type,client,tx,amount\n\
         deposit,1,1,10.0\n\
         deposit,1,2,5.0\n\
         deposit,2,3,20.0\n\
         dispute,1,1\n\
         resolve,1,1\n\
         dispute,2,3\n\
         chargeback,2,3\n",
    );

    // Client 1: 10 + 5 = 15, dispute resolved
    assert!(output_str.contains("1,15"));

    // Client 2: chargebacked, account should be locked
    let lines: Vec<&str> = output_str.lines().collect();
    let client2_line = lines.iter().find(|l| l.starts_with("2,")).unwrap();
    assert!(client2_line.ends_with(",true"));
}

#[test]
fn test_dispute_nonexistent_transaction() {
    let output_str = run_disputes(
        "type,client,tx,amount\n\
         deposit,1,1,10.0\n\
         dispute,1,999\n",
    );
    // Dispute ignored, balance unchanged
    assert!(output_str.contains("1,10.0000,0.0000,10.0000,false"));
}

#[test]
fn test_dispute_withdrawal_rejected() {
    let output_str = run_disputes(
        "type,client,tx,amount\n\
         deposit,1,1,100.0\n\
         withdrawal,1,2,50.0\n\
         dispute,1,2\n",
    );
    // Withdrawal dispute rejected, balance unchanged
    assert!(output_str.contains("1,50.0000,0.0000,50.0000,false"));
}

#[test]
fn test_dispute_wrong_client() {
    let output_str = run_disputes(
        "type,client,tx,amount\n\
         deposit,1,1,100.0\n\
         dispute,2,1\n",
    );
    // Dispute rejected due to client mismatch
    assert!(output_str.contains("1,100.0000,0.0000,100.0000,false"));
}

#[test]
fn test_double_dispute_same_transaction() {
    let output_str = run_disputes(
        "type,client,tx,amount\n\
         deposit,1,1,10.0\n\
         dispute,1,1\n\
         dispute,1,1\n",
    );
    // Only one dispute processed
    assert!(output_str.contains("1,0.0000,10.0000,10.0000,false"));
}

#[test]
fn test_dispute_with_negative_balance() {
    let output_str = run_disputes(
        "type,client,tx,amount\n\
         deposit,1,1,100.0\n\
         withdrawal,1,2,60.0\n\
         dispute,1,1\n",
    );
    // available = 40 - 100 = -60, held = 100, total = 40
    assert!(output_str.contains("1,-60.0000,100.0000,40.0000,false"));
}

#[test]
fn test_multiple_disputes_different_transactions() {
    let output_str = run_disputes(
        "type,client,tx,amount\n\
         deposit,1,1,100.0\n\
         deposit,1,2,50.0\n\
         dispute,1,1\n\
         dispute,1,2\n",
    );
    // Both disputes succeed: available = 0, held = 150, total = 150
    assert!(output_str.contains("1,0.0000,150.0000,150.0000,false"));
}

#[test]
fn test_resolve_non_disputed_transaction() {
    let output_str = run_disputes(
        "type,client,tx,amount\n\
         deposit,1,1,10.0\n\
         resolve,1,1\n",
    );
    // Resolve ignored, balance unchanged
    assert!(output_str.contains("1,10.0000,0.0000,10.0000,false"));
}

#[test]
fn test_resolve_then_dispute_again() {
    let output_str = run_disputes(
        "type,client,tx,amount\n\
         deposit,1,1,10.0\n\
         dispute,1,1\n\
         resolve,1,1\n\
         dispute,1,1\n",
    );
    // Should work: disputed again
    assert!(output_str.contains("1,0.0000,10.0000,10.0000,false"));
}

#[test]
fn test_resolve_after_chargeback() {
    let output_str = run_disputes(
        "type,client,tx,amount\n\
         deposit,1,1,10.0\n\
         dispute,1,1\n\
         chargeback,1,1\n\
         resolve,1,1\n",
    );
    // Account locked, resolve ignored
    let lines: Vec<&str> = output_str.lines().collect();
    let client1_line = lines.iter().find(|l| l.starts_with("1,")).unwrap();
    assert!(client1_line.ends_with(",true"));
}

#[test]
fn test_chargeback_non_disputed_transaction() {
    let output_str = run_disputes(
        "type,client,tx,amount\n\
         deposit,1,1,10.0\n\
         chargeback,1,1\n",
    );
    // Chargeback ignored, account not locked
    assert!(output_str.contains("1,10.0000,0.0000,10.0000,false"));
}

#[test]
fn test_chargeback_locks_account() {
    let output_str = run_disputes(
        "type,client,tx,amount\n\
         deposit,1,1,10.0\n\
         dispute,1,1\n\
         chargeback,1,1\n\
         deposit,1,2,5.0\n",
    );
    // Account locked after chargeback
    let lines: Vec<&str> = output_str.lines().collect();
    let client1_line = lines.iter().find(|l| l.starts_with("1,")).unwrap();
    assert!(client1_line.ends_with(",true"));
}

#[test]
fn test_chargeback_with_negative_balance() {
    let output_str = run_disputes(
        "type,client,tx,amount\n\
         deposit,1,1,100.0\n\
         withdrawal,1,2,60.0\n\
         dispute,1,1\n\
         chargeback,1,1\n",
    );
    // After chargeback: available=-60, held=0, total=-60, locked=true
    assert!(output_str.contains("1,-60.0000,0.0000,-60.0000,true"));
}

#[test]
fn test_multiple_chargebacks_blocked() {
    let output_str = run_disputes(
        "type,client,tx,amount\n\
         deposit,1,1,100.0\n\
         deposit,1,2,50.0\n\
         dispute,1,1\n\
         chargeback,1,1\n\
         dispute,1,2\n",
    );
    // Only first chargeback processed, second dispute rejected
    let lines: Vec<&str> = output_str.lines().collect();
    let client1_line = lines.iter().find(|l| l.starts_with("1,")).unwrap();
    assert!(client1_line.ends_with(",true"));
}

#[test]
fn test_dispute_resolve_dispute_cycle() {
    let output_str = run_disputes(
        "type,client,tx,amount\n\
         deposit,1,1,10.0\n\
         dispute,1,1\n\
         resolve,1,1\n\
         dispute,1,1\n",
    );
    // Should work: disputed again after resolve
    assert!(output_str.contains("1,0.0000,10.0000,10.0000,false"));
}

#[test]
fn test_multiple_disputes_with_mixed_resolution() {
    let output_str = run_disputes(
        "type,client,tx,amount\n\
         deposit,1,1,100.0\n\
         deposit,1,2,50.0\n\
         deposit,1,3,25.0\n\
         dispute,1,1\n\
         dispute,1,2\n\
         resolve,1,1\n\
         dispute,1,3\n",
    );
    // After all operations: available=100, held=75 (second and third), total=175
    assert!(output_str.contains("1,100.0000,75.0000,175.0000,false"));
}

#[test]
fn test_complex_dispute_flow() {
    let output_str = run_disputes(
        "type,client,tx,amount\n\
         deposit,1,1,100.0\n\
         deposit,1,2,50.0\n\
         withdrawal,1,3,30.0\n\
         dispute,1,1\n\
         resolve,1,1\n\
         withdrawal,1,4,20.0\n",
    );
    // 100 + 50 - 30 - 20 = 100
    assert!(output_str.contains("1,100.0000,0.0000,100.0000,false"));
}

#[test]
fn test_multiple_clients_with_disputes() {
    let output_str = run_disputes(
        "type,client,tx,amount\n\
         deposit,1,1,100.0\n\
         deposit,2,2,200.0\n\
         dispute,1,1\n\
         dispute,2,2\n\
         resolve,1,1\n",
    );
    // Client 1: resolved, available=100
    assert!(output_str.contains("1,100.0000,0.0000,100.0000,false"));
    // Client 2: still disputed, available=0, held=200
    assert!(output_str.contains("2,0.0000,200.0000,200.0000,false"));
}

#[test]
fn test_multiple_clients_interleaved_disputes() {
    let output_str = run_disputes(
        "type,client,tx,amount\n\
         deposit,1,1,100.0\n\
         deposit,2,2,200.0\n\
         deposit,1,3,50.0\n\
         dispute,1,1\n\
         withdrawal,2,4,100.0\n\
         resolve,1,1\n\
         dispute,2,2\n",
    );
    // Client 1: 100 + 50 = 150 (dispute resolved)
    assert!(output_str.contains("1,150.0000,0.0000,150.0000,false"));
    // Client 2: 200 - 100 = 100, then dispute 200: available=-100, held=200, total=100
    assert!(output_str.contains("2,-100.0000,200.0000,100.0000,false"));
}

#[test]
fn test_dispute_tiny_amount() {
    let output_str = run_disputes(
        "type,client,tx,amount\n\
         deposit,1,1,0.0001\n\
         dispute,1,1\n",
    );
    // Tiny amount should work correctly
    assert!(output_str.contains("1,0.0000,0.0001,0.0001,false"));
}

#[test]
fn test_resolve_without_prior_dispute() {
    let output_str = run_disputes(
        "type,client,tx,amount\n\
         deposit,1,1,100.0\n\
         deposit,1,2,50.0\n\
         resolve,1,1\n",
    );
    // Resolve ignored, total = 150
    assert!(output_str.contains("1,150.0000,0.0000,150.0000,false"));
}
