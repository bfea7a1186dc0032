use simple_xact::{
    parse_amount, Account, AccountRecord, Amount, RecordError, Transaction, TransactionRecord,
};

fn amt(s: &str) -> Amount {
    parse_amount(s).unwrap()
}

fn record(trans_type: &str, client: u16, tx: u32, amount: Option<&str>) -> TransactionRecord {
    TransactionRecord {
        trans_type: trans_type.to_string(),
        client,
        tx,
        amount: amount.map(|s| s.to_string()),
    }
}

#[test]
fn it_converts_every_transaction_type_from_a_record() {
    let cases = [
        (
            record("deposit", 1, 1, Some("1.0")),
            Transaction::Deposit {
                client: 1,
                tx: 1,
                amount: amt("1.0"),
                disputed: false,
            },
        ),
        (
            record("deposit", 2, 2, Some("2.0")),
            Transaction::Deposit {
                client: 2,
                tx: 2,
                amount: amt("2.0"),
                disputed: false,
            },
        ),
        (
            record("withdrawal", 1, 4, Some("1.5")),
            Transaction::Withdrawal {
                client: 1,
                tx: 4,
                amount: amt("1.5"),
                disputed: false,
            },
        ),
        (
            record("withdrawal", 2, 5, Some("3.0")),
            Transaction::Withdrawal {
                client: 2,
                tx: 5,
                amount: amt("3.0"),
                disputed: false,
            },
        ),
        (
            record("dispute", 2, 2, None),
            Transaction::Dispute {
                client: 2,
                referenced_tx: 2,
            },
        ),
        (
            record("resolve", 2, 2, None),
            Transaction::Resolve {
                client: 2,
                referenced_tx: 2,
            },
        ),
        (
            record("chargeback", 1, 1, None),
            Transaction::ChargeBack {
                client: 1,
                referenced_tx: 1,
            },
        ),
    ];
    for (rec, expected) in cases {
        let actual = Transaction::from_record(rec).unwrap();
        assert_eq!(expected, actual);
    }
}

#[test]
fn it_rejects_an_invalid_amount() {
    let r = Transaction::from_record(record("deposit", 1, 3, Some("2.x")));
    assert_eq!(r, Err(RecordError::InvalidAmount));
    let r = Transaction::from_record(record("withdrawal", 1, 3, Some("")));
    assert_eq!(r, Err(RecordError::InvalidAmount));
}

#[test]
fn it_rejects_an_invalid_transaction_type() {
    let r = Transaction::from_record(record("deposits", 1, 3, Some("2.0")));
    assert_eq!(r, Err(RecordError::InvalidTransactionType));
    let r = Transaction::from_record(record("reslve", 2, 2, None));
    assert_eq!(r, Err(RecordError::InvalidTransactionType));
}

#[test]
fn it_rejects_a_missing_amount() {
    let r = Transaction::from_record(record("deposit", 1, 3, None));
    assert_eq!(r, Err(RecordError::MissingAmount));
    let r = Transaction::from_record(record("withdrawal", 1, 3, None));
    assert_eq!(r, Err(RecordError::MissingAmount));
}

#[test]
fn it_parses_plain_decimals_exactly() {
    assert_eq!(amt("0"), Amount::zero());
    assert_eq!(amt("0.0"), Amount::zero());
    assert_eq!(amt("1.5"), Amount::new(false, 15, 1).unwrap());
    assert_eq!(amt("100.0057"), Amount::new(false, 1000057, 4).unwrap());
    assert_eq!(amt("-72.6052"), Amount::new(true, 726052, 4).unwrap());
    assert_eq!(amt("672.62"), amt("672.6200"));
    assert_eq!(amt("-0"), Amount::zero());
}

#[test]
fn it_rejects_malformed_decimals() {
    for s in [
        "", "-", ".", "1.", ".5", "1..5", "1.2.3", "1a", "a1", "--1", "1-", "1 ", " 1", "+1",
        "1.2x", "1e5", "1.5e-3",
    ] {
        assert!(parse_amount(s).is_none(), "{} should not parse", s);
    }
}

#[test]
fn it_rejects_decimals_past_the_greatest_scale_or_magnitude() {
    // 29 digits after the point: one past the greatest scale.
    assert!(parse_amount("0.00000000000000000000000000001").is_none());
    // 28 digits after the point is still exact.
    assert!(parse_amount("0.0000000000000000000000000001").is_some());
    // The greatest magnitude is exact; one more overflows.
    assert!(parse_amount("340282366920938463463374607431768211455").is_some());
    assert!(parse_amount("340282366920938463463374607431768211456").is_none());
}

#[test]
fn it_renders_amounts_with_their_scale() {
    assert_eq!(amt("0").to_decimal_string(), "0");
    assert_eq!(amt("0.0").to_decimal_string(), "0.0");
    assert_eq!(amt("10.0").to_decimal_string(), "10.0");
    assert_eq!(amt("400.2800").to_decimal_string(), "400.2800");
    assert_eq!(amt("-72.6052").to_decimal_string(), "-72.6052");
    assert_eq!(amt("0.05").to_decimal_string(), "0.05");
    assert_eq!(amt("12345").to_decimal_string(), "12345");
}

#[test]
fn it_keeps_the_joined_scale_through_arithmetic() {
    let mut bank = simple_xact::Bank::default();
    bank.apply(Transaction::Deposit {
        client: 7,
        tx: 1,
        amount: amt("10.0"),
        disputed: false,
    });
    bank.apply(Transaction::Deposit {
        client: 7,
        tx: 2,
        amount: amt("1.25"),
        disputed: false,
    });
    let accounts = bank.balances();
    assert_eq!(accounts.len(), 1);
    assert_eq!(accounts[0].available.to_decimal_string(), "11.25");
}

#[test]
fn it_writes_all_account_amount_and_locked_combinations() {
    let accounts = [
        Account {
            client: 1,
            available: amt("0.0"),
            held: amt("0.0"),
            locked: false,
        },
        Account {
            client: 2,
            available: amt("10.0"),
            held: amt("0.0"),
            locked: false,
        },
        Account {
            client: 3,
            available: amt("0.0"),
            held: amt("20.0"),
            locked: false,
        },
        Account {
            client: 4,
            available: amt("10.0"),
            held: amt("20.0"),
            locked: false,
        },
        Account {
            client: 5,
            available: amt("5.0"),
            held: amt("0.0"),
            locked: true,
        },
    ];
    let expected = [
        (1u16, "0.0", "0.0", "0.0", false),
        (2, "10.0", "0.0", "10.0", false),
        (3, "0.0", "20.0", "20.0", false),
        (4, "10.0", "20.0", "30.0", false),
        (5, "5.0", "0.0", "5.0", true),
    ];
    for (account, (client, available, held, total, locked)) in accounts.iter().zip(expected) {
        let rec: AccountRecord = AccountRecord::from_account(account).unwrap();
        assert_eq!(rec.client, client);
        assert_eq!(rec.available, available);
        assert_eq!(rec.held, held);
        assert_eq!(rec.total, total);
        assert_eq!(rec.locked, locked);
    }
}

#[test]
fn it_overwrites_a_record_that_reuses_a_transaction_id() {
    let mut bank = simple_xact::Bank::default();
    bank.apply(Transaction::Deposit {
        client: 1,
        tx: 1,
        amount: amt("5.0"),
        disputed: false,
    });
    bank.apply(Transaction::Deposit {
        client: 1,
        tx: 1,
        amount: amt("3.0"),
        disputed: false,
    });
    // The second deposit replaced the stored record, so a dispute holds
    // the second amount.
    bank.apply(Transaction::Dispute {
        client: 1,
        referenced_tx: 1,
    });
    let accounts = bank.balances();
    assert_eq!(accounts.len(), 1);
    assert_eq!(accounts[0].available, amt("5.0"));
    assert_eq!(accounts[0].held, amt("3.0"));
    assert!(!accounts[0].locked);
}

#[test]
fn it_totals_available_and_held() {
    let account = Account {
        client: 9,
        available: amt("10.5"),
        held: amt("-0.25"),
        locked: false,
    };
    let total = account.total().unwrap();
    assert_eq!(total, amt("10.25"));
    assert_eq!(total.to_decimal_string(), "10.25");
}
