use simple_xact::{parse_amount, Account, Amount, Bank, Transaction};

fn amt(s: &str) -> Amount {
    parse_amount(s).unwrap()
}

fn apply_test_deposits(bank: &mut Bank) {
    bank.apply(Transaction::Deposit {
        client: 1,
        tx: 1,
        amount: amt("100.0057"),
        disputed: false,
    });
    bank.apply(Transaction::Deposit {
        client: 2,
        tx: 1,
        amount: amt("200.0022"),
        disputed: false,
    });
    bank.apply(Transaction::Deposit {
        client: 1,
        tx: 100,
        amount: amt("300.2743"),
        disputed: false,
    });
    bank.apply(Transaction::Deposit {
        client: 2,
        tx: 200,
        amount: amt("472.6178"),
        disputed: false,
    });
}

fn sorted_balances(bank: &Bank) -> Vec<Account> {
    let mut actual = bank.balances();
    actual.sort_by_key(|v| v.client);
    actual
}

#[test]
fn it_handles_deposits() {
    // Arrange
    let mut bank = Bank::default();
    apply_test_deposits(&mut bank);
    let expected = [
        Account {
            client: 1,
            available: amt("400.2800"),
            held: Amount::zero(),
            locked: false,
        },
        Account {
            client: 2,
            available: amt("672.6200"),
            held: Amount::zero(),
            locked: false,
        },
    ];
    // Act
    let actual = sorted_balances(&bank);
    // Assert
    for (expected, actual) in expected.iter().zip(actual) {
        assert_eq!(*expected, actual);
    }
}

#[test]
fn it_handles_a_withdrawal() {
    let mut bank = Bank::default();
    apply_test_deposits(&mut bank);
    bank.apply(Transaction::Withdrawal {
        client: 2,
        tx: 2000,
        amount: amt("72.6052"),
        disputed: false,
    });
    let expected = [
        Account {
            client: 1,
            available: amt("400.2800"),
            held: Amount::zero(),
            locked: false,
        },
        Account {
            client: 2,
            available: amt("600.0148"),
            held: Amount::zero(),
            locked: false,
        },
    ];
    let actual = sorted_balances(&bank);
    for (expected, actual) in expected.iter().zip(actual) {
        assert_eq!(*expected, actual);
    }
}

#[test]
fn it_handles_a_dispute_of_a_deposit() {
    let mut bank = Bank::default();
    apply_test_deposits(&mut bank);
    bank.apply(Transaction::Dispute {
        client: 2,
        referenced_tx: 200,
    });
    let expected = [
        Account {
            client: 1,
            available: amt("400.2800"),
            held: Amount::zero(),
            locked: false,
        },
        Account {
            client: 2,
            available: amt("200.0022"),
            held: amt("472.6178"),
            locked: false,
        },
    ];
    let actual = sorted_balances(&bank);
    for (expected, actual) in expected.iter().zip(actual) {
        assert_eq!(*expected, actual);
    }
}

#[test]
fn it_handles_a_dispute_of_a_withdrawal() {
    let mut bank = Bank::default();
    apply_test_deposits(&mut bank);
    bank.apply(Transaction::Withdrawal {
        client: 2,
        tx: 2000,
        amount: amt("72.6052"),
        disputed: false,
    });
    bank.apply(Transaction::Dispute {
        client: 2,
        referenced_tx: 2000,
    });
    let expected = [
        Account {
            client: 1,
            available: amt("400.2800"),
            held: Amount::zero(),
            locked: false,
        },
        Account {
            client: 2,
            available: amt("672.62"),
            held: amt("-72.6052"),
            locked: false,
        },
    ];
    let actual = sorted_balances(&bank);
    for (expected, actual) in expected.iter().zip(actual) {
        assert_eq!(*expected, actual);
    }
}

#[test]
fn it_handles_a_resolve_of_a_disputed_deposit() {
    let mut bank = Bank::default();
    apply_test_deposits(&mut bank);
    bank.apply(Transaction::Dispute {
        client: 2,
        referenced_tx: 200,
    });
    bank.apply(Transaction::Resolve {
        client: 2,
        referenced_tx: 200,
    });
    let expected = [
        Account {
            client: 1,
            available: amt("400.2800"),
            held: Amount::zero(),
            locked: false,
        },
        Account {
            client: 2,
            available: amt("672.62"),
            held: Amount::zero(),
            locked: false,
        },
    ];
    let actual = sorted_balances(&bank);
    for (expected, actual) in expected.iter().zip(actual) {
        assert_eq!(*expected, actual);
    }
}

#[test]
fn it_handles_a_resolve_of_a_disputed_withdrawal() {
    let mut bank = Bank::default();
    apply_test_deposits(&mut bank);
    bank.apply(Transaction::Withdrawal {
        client: 2,
        tx: 2000,
        amount: amt("72.6052"),
        disputed: false,
    });
    bank.apply(Transaction::Dispute {
        client: 2,
        referenced_tx: 2000,
    });
    bank.apply(Transaction::Resolve {
        client: 2,
        referenced_tx: 2000,
    });
    let expected = [
        Account {
            client: 1,
            available: amt("400.2800"),
            held: Amount::zero(),
            locked: false,
        },
        Account {
            client: 2,
            available: amt("600.0148"),
            held: Amount::zero(),
            locked: false,
        },
    ];
    let actual = sorted_balances(&bank);
    for (expected, actual) in expected.iter().zip(actual) {
        assert_eq!(*expected, actual);
    }
}

#[test]
fn it_handles_a_chargeback_of_a_disputed_deposit() {
    let mut bank = Bank::default();
    apply_test_deposits(&mut bank);
    bank.apply(Transaction::Dispute {
        client: 2,
        referenced_tx: 200,
    });
    bank.apply(Transaction::ChargeBack {
        client: 2,
        referenced_tx: 200,
    });
    let expected = [
        Account {
            client: 1,
            available: amt("400.2800"),
            held: Amount::zero(),
            locked: false,
        },
        Account {
            client: 2,
            available: amt("200.0022"),
            held: Amount::zero(),
            locked: true,
        },
    ];
    let actual = sorted_balances(&bank);
    for (expected, actual) in expected.iter().zip(actual) {
        assert_eq!(*expected, actual);
    }
}

#[test]
fn it_handles_a_chargeback_of_a_disputed_withdrawal() {
    let mut bank = Bank::default();
    apply_test_deposits(&mut bank);
    bank.apply(Transaction::Withdrawal {
        client: 2,
        tx: 2000,
        amount: amt("72.6052"),
        disputed: false,
    });
    bank.apply(Transaction::Dispute {
        client: 2,
        referenced_tx: 2000,
    });
    bank.apply(Transaction::ChargeBack {
        client: 2,
        referenced_tx: 2000,
    });
    let expected = [
        Account {
            client: 1,
            available: amt("400.2800"),
            held: Amount::zero(),
            locked: false,
        },
        Account {
            client: 2,
            available: amt("672.62"),
            held: Amount::zero(),
            locked: true,
        },
    ];
    let actual = sorted_balances(&bank);
    for (expected, actual) in expected.iter().zip(actual) {
        assert_eq!(*expected, actual);
    }
}

#[test]
fn it_ignores_the_transaction_if_the_account_has_insufficient_funds_on_a_withdrawal() {
    let mut bank = Bank::default();
    apply_test_deposits(&mut bank);
    bank.apply(Transaction::Withdrawal {
        client: 2,
        tx: 2000,
        amount: amt("1000.00"),
        disputed: false,
    });
    let expected = [
        Account {
            client: 1,
            available: amt("400.2800"),
            held: Amount::zero(),
            locked: false,
        },
        Account {
            client: 2,
            available: amt("672.62"),
            held: Amount::zero(),
            locked: false,
        },
    ];
    let actual = sorted_balances(&bank);
    for (expected, actual) in expected.iter().zip(actual) {
        assert_eq!(*expected, actual);
    }
}

#[test]
fn it_ignores_the_transaction_if_the_referenced_transaction_does_not_exist_on_a_dispute() {
    let mut bank = Bank::default();
    apply_test_deposits(&mut bank);
    bank.apply(Transaction::Dispute {
        client: 2,
        referenced_tx: 201,
    });
    let expected = [
        Account {
            client: 1,
            available: amt("400.2800"),
            held: Amount::zero(),
            locked: false,
        },
        Account {
            client: 2,
            available: amt("672.62"),
            held: Amount::zero(),
            locked: false,
        },
    ];
    let actual = sorted_balances(&bank);
    for (expected, actual) in expected.iter().zip(actual) {
        assert_eq!(*expected, actual);
    }
}

#[test]
fn it_ignores_the_transaction_if_the_referenced_transaction_is_already_disputed_on_a_dispute() {
    let mut bank = Bank::default();
    apply_test_deposits(&mut bank);
    bank.apply(Transaction::Dispute {
        client: 2,
        referenced_tx: 200,
    });
    bank.apply(Transaction::Dispute {
        client: 2,
        referenced_tx: 200,
    });
    let expected = [
        Account {
            client: 1,
            available: amt("400.2800"),
            held: Amount::zero(),
            locked: false,
        },
        Account {
            client: 2,
            available: amt("200.0022"),
            held: amt("472.6178"),
            locked: false,
        },
    ];
    let actual = sorted_balances(&bank);
    for (expected, actual) in expected.iter().zip(actual) {
        assert_eq!(*expected, actual);
    }
}

#[test]
fn it_ignores_the_transaction_if_the_referenced_transaction_does_not_exist_on_a_resolve() {
    let mut bank = Bank::default();
    apply_test_deposits(&mut bank);
    bank.apply(Transaction::Dispute {
        client: 2,
        referenced_tx: 200,
    });
    bank.apply(Transaction::Resolve {
        client: 2,
        referenced_tx: 201,
    });
    let expected = [
        Account {
            client: 1,
            available: amt("400.2800"),
            held: Amount::zero(),
            locked: false,
        },
        Account {
            client: 2,
            available: amt("200.0022"),
            held: amt("472.6178"),
            locked: false,
        },
    ];
    let actual = sorted_balances(&bank);
    for (expected, actual) in expected.iter().zip(actual) {
        assert_eq!(*expected, actual);
    }
}

#[test]
fn it_ignores_the_transaction_if_the_referenced_transaction_is_not_under_dispute_on_a_resolve() {
    let mut bank = Bank::default();
    apply_test_deposits(&mut bank);
    bank.apply(Transaction::Dispute {
        client: 2,
        referenced_tx: 200,
    });
    bank.apply(Transaction::Resolve {
        client: 2,
        referenced_tx: 2,
    });
    let expected = [
        Account {
            client: 1,
            available: amt("400.2800"),
            held: Amount::zero(),
            locked: false,
        },
        Account {
            client: 2,
            available: amt("200.0022"),
            held: amt("472.6178"),
            locked: false,
        },
    ];
    let actual = sorted_balances(&bank);
    for (expected, actual) in expected.iter().zip(actual) {
        assert_eq!(*expected, actual);
    }
}

#[test]
fn it_ignores_the_transaction_if_the_referenced_transaction_does_not_exist_on_a_chargeback() {
    let mut bank = Bank::default();
    apply_test_deposits(&mut bank);
    bank.apply(Transaction::Dispute {
        client: 2,
        referenced_tx: 200,
    });
    bank.apply(Transaction::ChargeBack {
        client: 2,
        referenced_tx: 201,
    });
    let expected = [
        Account {
            client: 1,
            available: amt("400.2800"),
            held: Amount::zero(),
            locked: false,
        },
        Account {
            client: 2,
            available: amt("200.0022"),
            held: amt("472.6178"),
            locked: false,
        },
    ];
    let actual = sorted_balances(&bank);
    for (expected, actual) in expected.iter().zip(actual) {
        assert_eq!(*expected, actual);
    }
}

#[test]
fn it_ignores_the_transaction_if_the_referenced_transaction_is_not_under_dispute_on_a_chargeback() {
    let mut bank = Bank::default();
    apply_test_deposits(&mut bank);
    bank.apply(Transaction::Dispute {
        client: 2,
        referenced_tx: 200,
    });
    bank.apply(Transaction::ChargeBack {
        client: 2,
        referenced_tx: 2,
    });
    let expected = [
        Account {
            client: 1,
            available: amt("400.2800"),
            held: Amount::zero(),
            locked: false,
        },
        Account {
            client: 2,
            available: amt("200.0022"),
            held: amt("472.6178"),
            locked: false,
        },
    ];
    let actual = sorted_balances(&bank);
    for (expected, actual) in expected.iter().zip(actual) {
        assert_eq!(*expected, actual);
    }
}
