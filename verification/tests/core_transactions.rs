use payments_engine::codec::process_csv;

fn run_stream(input: &str) -> String {
    String::from_utf8(process_csv(input.as_bytes())).unwrap()
}

#[test]
fn test_basic_deposits_and_withdrawals() {
    let output_str = run_stream(
        "type,client,tx,amount\n\
         deposit,1,1,3.0\n\
         deposit,2,2,2.0\n\
         withdrawal,1,3,1.5\n\
         withdrawal,2,4,3.0\n",
    );

    // Check header
    assert!(output_str.contains("client,available,held,total,locked"));

    // Client 1: deposited 3.0, withdrew 1.5 = 1.5 available
    assert!(output_str.contains("1,1.5"));

    // Client 2: deposited 2.0, tried to withdraw 3.0 (failed) = 2.0 available
    assert!(output_str.contains("2,2"));
}

#[test]
fn test_withdrawal_insufficient_funds() {
    let output_str = run_stream("type,client,tx,amount\ndeposit,1,1,5.0\nwithdrawal,1,2,10.0\n");
    // Withdrawal should fail, balance should remain 5.0
    assert!(output_str.contains("1,5"));
}

#[test]
fn test_multiple_clients() {
    let output_str = run_stream(
        "type,client,tx,amount\n\
         deposit,1,1,100.0\n\
         deposit,2,2,200.0\n\
         withdrawal,1,3,50.0\n\
         deposit,3,4,300.0\n",
    );

    // Verify all three clients
    assert!(output_str.contains("1,50"));
    assert!(output_str.contains("2,200"));
    assert!(output_str.contains("3,300"));
}

#[test]
fn test_empty_file() {
    let output_str = run_stream("type,client,tx,amount\n");
    assert!(output_str.contains("client,available,held,total,locked"));
}

#[test]
fn test_whitespace_handling() {
    let output_str = run_stream(
        "type,client,tx,amount\n\
          deposit , 2 , 1 , 3.4567 \n",
    );

    // Client 2: 3.4567 deposited (with whitespace in the record)
    assert!(output_str.contains("2,3.4567"));
}

#[test]
fn test_decimal_precision() {
    let output_str = run_stream(
        "type,client,tx,amount\n\
         deposit,1,1,1.2345\n\
         deposit,1,2,2.3456\n",
    );

    // Should maintain 4 decimal precision: 1.2345 + 2.3456 = 3.5801
    assert!(output_str.contains("1,3.5801"));
}

#[test]
fn test_locked_account_rejects_deposits() {
    let output_str = run_stream(
        "type,client,tx,amount\n\
         deposit,1,1,10.0\n\
         dispute,1,1\n\
         chargeback,1,1\n\
         deposit,1,2,5.0\n",
    );

    // Account should be locked, deposit after chargeback should fail
    let lines: Vec<&str> = output_str.lines().collect();
    let client1_line = lines.iter().find(|l| l.starts_with("1,")).unwrap();
    assert!(client1_line.ends_with(",true"));

    // Balance should be -10 (chargeback removed held $10)
    // Not +5 from the rejected deposit
    assert!(client1_line.contains(",-10.0000,") || client1_line.contains(",0.0000,"));
}

#[test]
fn test_locked_account_rejects_withdrawals() {
    let output_str = run_stream(
        "type,client,tx,amount\n\
         deposit,1,1,100.0\n\
         dispute,1,1\n\
         chargeback,1,1\n\
         withdrawal,1,2,5.0\n",
    );

    // Account locked, withdrawal rejected
    let lines: Vec<&str> = output_str.lines().collect();
    let client1_line = lines.iter().find(|l| l.starts_with("1,")).unwrap();
    assert!(client1_line.ends_with(",true"));
}

#[test]
fn test_exact_snapshot_values() {
    let output_str = run_stream(
        "type,client,tx,amount\n\
         deposit,1,1,3.0\n\
         withdrawal,1,2,1.5\n",
    );
    assert_eq!(
        output_str,
        "client,available,held,total,locked\n1,1.5000,0.0000,1.5000,false\n"
    );
}

#[test]
fn test_snapshot_sorted_by_client() {
    let output_str = run_stream(
        "type,client,tx,amount\n\
         deposit,7,1,1.0\n\
         deposit,3,2,1.0\n\
         deposit,5,3,1.0\n",
    );
    let lines: Vec<&str> = output_str.lines().collect();
    assert_eq!(lines[1], "3,1.0000,0.0000,1.0000,false");
    assert_eq!(lines[2], "5,1.0000,0.0000,1.0000,false");
    assert_eq!(lines[3], "7,1.0000,0.0000,1.0000,false");
}

#[test]
fn test_amount_with_trailing_zero_digits() {
    let output_str = run_stream("type,client,tx,amount\ndeposit,1,1,1.50000\n");
    assert!(output_str.contains("1,1.5000,0.0000,1.5000,false"));
}

#[test]
fn test_amount_below_precision_rejected() {
    // A fifth significant fractional digit cannot be represented exactly:
    // the record is skipped.
    let output_str = run_stream("type,client,tx,amount\ndeposit,1,1,1.00005\n");
    assert_eq!(output_str, "client,available,held,total,locked\n");
}

#[test]
fn test_negative_amount_is_rejected() {
    // The record parses but the engine rejects a non-positive amount.
    let output_str = run_stream(
        "type,client,tx,amount\n\
         deposit,1,1,-5.0\n\
         deposit,1,2,2.0\n",
    );
    assert!(output_str.contains("1,2.0000,0.0000,2.0000,false"));
}

#[test]
fn test_case_insensitive_type() {
    let output_str = run_stream("type,client,tx,amount\nDePoSiT,1,1,4.0\n");
    assert!(output_str.contains("1,4.0000,0.0000,4.0000,false"));
}

#[test]
fn test_missing_amount_is_rejected() {
    let output_str = run_stream(
        "type,client,tx,amount\n\
         deposit,1,1,\n\
         deposit,1,2,3.0\n",
    );
    assert!(output_str.contains("1,3.0000,0.0000,3.0000,false"));
}
