use ledger::Account;
use ledger::AccountStatus;
use ledger::Amount;
use ledger::Engine;
use ledger::InputLine;
use ledger::InputLineType;

fn amt(units: i64) -> Amount {
    Amount::from_units(units)
}

fn snapshot_for(input: &[u8]) -> Vec<AccountStatus> {
    let mut engine: Engine = Default::default();
    engine.process_from_csv(input);
    engine.snapshot()
}

fn validate(input: &[u8], mut expected_output: Vec<AccountStatus>) {
    let mut output = snapshot_for(input);
    expected_output.sort_by_key(|line| line.client);
    output.sort_by_key(|line| line.client);
    assert_eq!(output, expected_output);
}

#[test]
fn test_deposit_and_withdrawal() {
    // No transactions.
    validate("type, client, tx, amount".as_bytes(), vec![]);

    validate("".as_bytes(), vec![]);

    // No amount specified.
    validate(
        r#"
                type, client, tx, amount
                withdrawal, 2, 4,
                deposit, 1, 1,
                withdrawal, 1, 5,"#
            .as_bytes(),
        vec![],
    );

    // Non-continuous client and tx ids.
    // Attempts to have a withdrawal for an account with 0 balance.
    // Attempts to withdraw too much
    validate(
        r#"
                type, client, tx, amount
                withdrawal, 2, 4, 1.5
                deposit, 1, 1, 3.5
                withdrawal, 1, 5, 2.0
                withdrawal, 1, 6, 2.0"#
            .as_bytes(),
        vec![AccountStatus {
            client: 1,
            available: amt(15000),
            held: amt(0),
            total: amt(15000),
            locked: false,
        }],
    );

    // Two clients interleaved.
    validate(
        r#"
                type, client, tx, amount
                deposit, 1, 1, 1.0
                deposit, 2, 2, 2.0
                deposit, 1, 3, 2.0
                withdrawal, 1, 4, 1.5
                withdrawal, 2, 5, 3.0"#
            .as_bytes(),
        vec![
            AccountStatus {
                client: 1,
                available: amt(15000),
                held: amt(0),
                total: amt(15000),
                locked: false,
            },
            AccountStatus {
                client: 2,
                available: amt(20000),
                held: amt(0),
                total: amt(20000),
                locked: false,
            },
        ],
    );
}

#[test]
fn test_dispute() {
    // dispute an inexistent transaction. will be ignored
    validate(
        r#"
                type, client, tx, amount
                deposit, 1, 1, 3.5
                dispute, 1, 3,
                withdrawal, 1, 2, 2.0"#
            .as_bytes(),
        vec![AccountStatus {
            client: 1,
            available: amt(15000),
            held: amt(0),
            total: amt(15000),
            locked: false,
        }],
    );

    // dispute a transaction belonging to another client. will be ignored.
    validate(
        r#"
                type, client, tx, amount
                deposit, 1, 1, 3.5
                deposit, 2, 2, 4
                dispute, 1, 2,
                withdrawal, 1, 2, 2.0"#
            .as_bytes(),
        vec![
            AccountStatus {
                client: 1,
                available: amt(15000),
                held: amt(0),
                total: amt(15000),
                locked: false,
            },
            AccountStatus {
                client: 2,
                available: amt(40000),
                held: amt(0),
                total: amt(40000),
                locked: false,
            },
        ],
    );

    // verify that disputing a withdrawal doesn't work
    validate(
        r#"
                type, client, tx, amount
                deposit, 1, 1, 3.5
                withdrawal, 1, 2, 2.0
                dispute, 1, 2,"#
            .as_bytes(),
        vec![AccountStatus {
            client: 1,
            available: amt(15000),
            held: amt(0),
            total: amt(15000),
            locked: false,
        }],
    );

    // dispute same transaction twice
    validate(
        r#"
                type, client, tx, amount
                deposit, 1, 1, 3.5
                dispute, 1, 1,
                dispute, 1, 1,"#
            .as_bytes(),
        vec![AccountStatus {
            client: 1,
            available: amt(0),
            held: amt(35000),
            total: amt(35000),
            locked: false,
        }],
    );

    // dispute specifying an amount. will be ignored.
    validate(
        r#"
                type, client, tx, amount
                deposit, 1, 1, 3.5
                dispute, 1, 1, 4"#
            .as_bytes(),
        vec![AccountStatus {
            client: 1,
            available: amt(35000),
            held: amt(0),
            total: amt(35000),
            locked: false,
        }],
    );

    // Dispute getting a negative balance.
    validate(
        r#"
                type, client, tx, amount
                deposit, 1, 1, 3
                withdrawal, 1, 2, 2
                dispute, 1, 1,"#
            .as_bytes(),
        vec![AccountStatus {
            client: 1,
            available: amt(-20000),
            held: amt(30000),
            total: amt(10000),
            locked: false,
        }],
    );
}

#[test]
fn test_resolve() {
    // Resolve specifying an amount, will be ignored.
    validate(
        r#"
                type, client, tx, amount
                deposit, 1, 1, 3
                withdrawal, 1, 2, 2
                dispute, 1, 1,
                resolve, 1, 1, 3"#
            .as_bytes(),
        vec![AccountStatus {
            client: 1,
            available: amt(-20000),
            held: amt(30000),
            total: amt(10000),
            locked: false,
        }],
    );

    // Valid resolve.
    validate(
        r#"
                type, client, tx, amount
                deposit, 1, 1, 3
                withdrawal, 1, 2, 2
                dispute, 1, 1,
                resolve, 1, 1,"#
            .as_bytes(),
        vec![AccountStatus {
            client: 1,
            available: amt(10000),
            held: amt(0),
            total: amt(10000),
            locked: false,
        }],
    );
}

#[test]
fn test_chargeback() {
    // Chargeback specifying an amount, will be ignored.
    validate(
        r#"
                type, client, tx, amount
                deposit, 1, 1, 3
                withdrawal, 1, 2, 2
                dispute, 1, 1,
                chargeback, 1, 1, 3"#
            .as_bytes(),
        vec![AccountStatus {
            client: 1,
            available: amt(-20000),
            held: amt(30000),
            total: amt(10000),
            locked: false,
        }],
    );

    // Valid chargeback.
    // No more transactions allowed on locked account.
    validate(
        r#"
                type, client, tx, amount
                deposit, 1, 1, 3
                withdrawal, 1, 2, 2
                dispute, 1, 1,
                chargeback, 1, 1,
                deposit, 2, 3, 100
                deposit, 1, 4, 100"#
            .as_bytes(),
        vec![
            AccountStatus {
                client: 1,
                available: amt(-20000),
                held: amt(0),
                total: amt(-20000),
                locked: true,
            },
            AccountStatus {
                client: 2,
                available: amt(1000000),
                held: amt(0),
                total: amt(1000000),
                locked: false,
            },
        ],
    );
}

#[test]
fn test_conservation_invariant() {
    let inputs: Vec<&str> = vec![
        "type, client, tx, amount\ndeposit, 1, 1, 3.0\nwithdrawal, 1, 2, 2.0\ndispute, 1, 1,",
        "type, client, tx, amount\ndeposit, 1, 1, 3\ndispute, 1, 1,\nchargeback, 1, 1,",
        "type, client, tx, amount\ndeposit, 1, 1, 0.0001\ndeposit, 2, 2, 7",
    ];
    for input in inputs {
        for status in snapshot_for(input.as_bytes()) {
            assert_eq!(
                status.total.units(),
                status.available.units() + status.held.units()
            );
        }
    }
}

#[test]
fn test_dispute_idempotent_guard() {
    let once = snapshot_for(
        "type, client, tx, amount\ndeposit, 1, 1, 3.5\ndispute, 1, 1,".as_bytes(),
    );
    let twice = snapshot_for(
        "type, client, tx, amount\ndeposit, 1, 1, 3.5\ndispute, 1, 1,\ndispute, 1, 1,".as_bytes(),
    );
    assert_eq!(once, twice);
}

#[test]
fn test_lock_finality() {
    let locked = "type, client, tx, amount\ndeposit, 1, 1, 3\ndispute, 1, 1,\nchargeback, 1, 1,";
    let base = snapshot_for(locked.as_bytes());
    let more = format!(
        "{}\ndeposit, 1, 2, 50\nwithdrawal, 1, 3, 1\ndispute, 1, 1,\nresolve, 1, 1,\nchargeback, 1, 1,",
        locked
    );
    let after = snapshot_for(more.as_bytes());
    assert_eq!(base, after);
    assert!(after[0].locked);
}

#[test]
fn test_lazy_creation() {
    // No prior deposit: none of these creates an account.
    validate(
        "type, client, tx, amount\nwithdrawal, 1, 1, 5\ndispute, 2, 1,\nresolve, 3, 1,\nchargeback, 4, 1,"
            .as_bytes(),
        vec![],
    );
    // A deposit to a new client creates exactly one account holding it.
    validate(
        "type, client, tx, amount\ndeposit, 9, 1, 2.5".as_bytes(),
        vec![AccountStatus {
            client: 9,
            available: amt(25000),
            held: amt(0),
            total: amt(25000),
            locked: false,
        }],
    );
}

#[test]
fn test_negative_availability_reachable() {
    validate(
        "type, client, tx, amount\ndeposit, 1, 1, 3.0000\nwithdrawal, 1, 2, 2.0000\ndispute, 1, 1,"
            .as_bytes(),
        vec![AccountStatus {
            client: 1,
            available: amt(-20000),
            held: amt(30000),
            total: amt(10000),
            locked: false,
        }],
    );
}

#[test]
fn test_chargeback_locks_and_unwinds_held() {
    validate(
        "type, client, tx, amount\ndeposit, 1, 1, 3.0000\nwithdrawal, 1, 2, 2.0000\ndispute, 1, 1,\nchargeback, 1, 1,\ndeposit, 1, 3, 100"
            .as_bytes(),
        vec![AccountStatus {
            client: 1,
            available: amt(-20000),
            held: amt(0),
            total: amt(-20000),
            locked: true,
        }],
    );
}

#[test]
fn test_dispute_with_amount_rejected_at_boundary() {
    let without = snapshot_for("type, client, tx, amount\ndeposit, 1, 1, 3.5".as_bytes());
    let with = snapshot_for(
        "type, client, tx, amount\ndeposit, 1, 1, 3.5\ndispute, 1, 1, 4".as_bytes(),
    );
    assert_eq!(without, with);
}

#[test]
fn test_insufficient_funds_withdrawal_is_noop() {
    // The account exists with zero balance; any positive withdrawal is a
    // no-op.
    validate(
        "type, client, tx, amount\ndeposit, 1, 1, 0\nwithdrawal, 1, 2, 0.0001\nwithdrawal, 1, 3, 999"
            .as_bytes(),
        vec![AccountStatus {
            client: 1,
            available: amt(0),
            held: amt(0),
            total: amt(0),
            locked: false,
        }],
    );
}

#[test]
fn test_ordering_sensitivity() {
    // The same multiset of operations, in two orders: a dispute before its
    // deposit is a no-op, after it is effective.
    let dispute_first =
        snapshot_for("type, client, tx, amount\ndispute, 1, 1,\ndeposit, 1, 1, 3".as_bytes());
    let deposit_first =
        snapshot_for("type, client, tx, amount\ndeposit, 1, 1, 3\ndispute, 1, 1,".as_bytes());
    assert_ne!(dispute_first, deposit_first);
    assert_eq!(dispute_first[0].available.units(), 30000);
    assert_eq!(dispute_first[0].held.units(), 0);
    assert_eq!(deposit_first[0].available.units(), 0);
    assert_eq!(deposit_first[0].held.units(), 30000);
}

#[test]
fn test_run_engine_output_bytes() {
    let out = ledger::run_engine(
        "type, client, tx, amount\ndeposit, 1, 1, 3.5\nwithdrawal, 1, 2, 2\ndeposit, 2, 3, -1.25"
            .as_bytes(),
    );
    let text = String::from_utf8(out).unwrap();
    assert_eq!(
        text,
        "client,available,held,total,locked\n1,1.5,0,1.5,false\n2,-1.25,0,-1.25,false\n"
    );
}

#[test]
fn test_run_engine_empty_input() {
    let out = ledger::run_engine("".as_bytes());
    let text = String::from_utf8(out).unwrap();
    assert_eq!(text, "client,available,held,total,locked\n");
}

#[test]
fn test_malformed_rows_are_skipped() {
    // Unknown kind, wrong capitalization, bad numbers, too many decimals,
    // wrong field count: each row is dropped, the rest still applies.
    validate(
        "type, client, tx, amount\nDeposit, 1, 1, 5\nteleport, 1, 1, 5\ndeposit, 70000, 1, 5\ndeposit, 1, 1, 1.00001\ndeposit, 1, 1\ndeposit, 1, 1, 5, 6\ndeposit, 1, 2, 2.5"
            .as_bytes(),
        vec![AccountStatus {
            client: 1,
            available: amt(25000),
            held: amt(0),
            total: amt(25000),
            locked: false,
        }],
    );
}

#[test]
fn test_input_line_valid() {
    let dispute_with_amount = InputLine {
        kind: InputLineType::Dispute,
        client: 1,
        id: 1,
        amount: Some(amt(40000)),
    };
    assert!(!dispute_with_amount.valid());
    let deposit_without_amount = InputLine {
        kind: InputLineType::Deposit,
        client: 1,
        id: 1,
        amount: None,
    };
    assert!(!deposit_without_amount.valid());
    let deposit = InputLine {
        kind: InputLineType::Deposit,
        client: 1,
        id: 1,
        amount: Some(amt(40000)),
    };
    assert!(deposit.valid());
}

#[test]
fn test_account_direct_process() {
    let mut account: Account = Default::default();
    account.process(InputLine {
        kind: InputLineType::Deposit,
        client: 1,
        id: 1,
        amount: Some(amt(30000)),
    });
    account.process(InputLine {
        kind: InputLineType::Withdrawal,
        client: 1,
        id: 2,
        amount: Some(amt(20000)),
    });
    account.process(InputLine {
        kind: InputLineType::Dispute,
        client: 1,
        id: 1,
        amount: None,
    });
    let status = account.get_status(1);
    assert_eq!(status.available.units(), -20000);
    assert_eq!(status.held.units(), 30000);
    assert_eq!(status.total.units(), 10000);
    assert!(!status.locked);
}

#[test]
fn test_render_parse_round_trip_concrete() {
    // Amounts with fractional digits survive output and re-reading.
    let input = "type, client, tx, amount\ndeposit, 1, 1, 2.7500";
    let first = snapshot_for(input.as_bytes());
    assert_eq!(first[0].available.units(), 27500);
    let out = ledger::run_engine(input.as_bytes());
    let text = String::from_utf8(out).unwrap();
    assert_eq!(text, "client,available,held,total,locked\n1,2.75,0,2.75,false\n");
    // Feed the rendered amount back in as a new deposit: same value exactly.
    let again = snapshot_for("type, client, tx, amount\ndeposit, 1, 1, 2.75".as_bytes());
    assert_eq!(again[0].available.units(), 27500);
}
