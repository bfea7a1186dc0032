use simple_xact::{parse_amount, Amount, Bank, Transaction};

fn amt(s: &str) -> Amount {
    parse_amount(s).unwrap()
}

#[test]
fn it_accepts_deposits_on_a_locked_account() {
    let mut bank = Bank::default();
    bank.apply(Transaction::Deposit {
        client: 1,
        tx: 1,
        amount: amt("50.00"),
        disputed: false,
    });
    bank.apply(Transaction::Dispute {
        client: 1,
        referenced_tx: 1,
    });
    bank.apply(Transaction::ChargeBack {
        client: 1,
        referenced_tx: 1,
    });
    bank.apply(Transaction::Deposit {
        client: 1,
        tx: 2,
        amount: amt("10.00"),
        disputed: false,
    });
    let accounts = bank.balances();
    assert_eq!(accounts.len(), 1);
    assert_eq!(accounts[0].available, amt("10.00"));
    assert_eq!(accounts[0].held, amt("0"));
    assert!(accounts[0].locked);
}

#[test]
fn it_permits_a_new_dispute_after_a_chargeback() {
    // A chargeback clears the disputed flag, so the same transaction can
    // be disputed again; the lock stays.
    let mut bank = Bank::default();
    bank.apply(Transaction::Deposit {
        client: 1,
        tx: 1,
        amount: amt("50.00"),
        disputed: false,
    });
    bank.apply(Transaction::Dispute {
        client: 1,
        referenced_tx: 1,
    });
    bank.apply(Transaction::ChargeBack {
        client: 1,
        referenced_tx: 1,
    });
    bank.apply(Transaction::Dispute {
        client: 1,
        referenced_tx: 1,
    });
    let accounts = bank.balances();
    assert_eq!(accounts.len(), 1);
    assert_eq!(accounts[0].available, amt("-50.00"));
    assert_eq!(accounts[0].held, amt("50.00"));
    assert!(accounts[0].locked);
}

#[test]
fn it_ignores_dispute_family_events_for_an_unknown_client() {
    let mut bank = Bank::default();
    bank.apply(Transaction::Deposit {
        client: 1,
        tx: 1,
        amount: amt("50.00"),
        disputed: false,
    });
    bank.apply(Transaction::Dispute {
        client: 99,
        referenced_tx: 1,
    });
    bank.apply(Transaction::Resolve {
        client: 99,
        referenced_tx: 1,
    });
    bank.apply(Transaction::ChargeBack {
        client: 99,
        referenced_tx: 1,
    });
    let accounts = bank.balances();
    assert_eq!(accounts.len(), 1);
    assert_eq!(accounts[0].client, 1);
    assert_eq!(accounts[0].available, amt("50.00"));
    assert_eq!(accounts[0].held, amt("0"));
    assert!(!accounts[0].locked);
}

#[test]
fn it_ignores_a_withdrawal_for_an_unknown_client() {
    let mut bank = Bank::default();
    bank.apply(Transaction::Withdrawal {
        client: 5,
        tx: 1,
        amount: amt("1.00"),
        disputed: false,
    });
    assert!(bank.balances().is_empty());
}
