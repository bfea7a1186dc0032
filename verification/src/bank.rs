//! The ledger engine.
//!
//! A [`Bank`] consumes events one at a time through [`Bank::apply`] and
//! keeps, per client, an account and the table of that client's settled
//! deposits and withdrawals.  Events that do not apply — a withdrawal
//! past the available funds, a dispute-family event naming an unknown
//! client or transaction, a dispute of an already-disputed transaction,
//! a resolve or chargeback of an undisputed one — are silently dropped.
//!
//! The whole transition relation is written out as the specification
//! function [`step`]; `apply` is proved to implement it exactly.

use std::collections::HashMap;

use vstd::prelude::*;

use crate::amount::{lemma_add_value, lemma_neg_value, Amount};

verus! {

broadcast use vstd::std_specs::hash::group_hash_axioms;

/// An event consumed by the engine; `Deposit` and `Withdrawal` double as
/// the stored transaction records, where `disputed` is meaningful.
#[derive(Clone, Copy, Debug, PartialEq)]
pub enum Transaction {
    Deposit { client: u16, tx: u32, amount: Amount, disputed: bool },
    Withdrawal { client: u16, tx: u32, amount: Amount, disputed: bool },
    Dispute { client: u16, referenced_tx: u32 },
    Resolve { client: u16, referenced_tx: u32 },
    ChargeBack { client: u16, referenced_tx: u32 },
}

impl Transaction {
    /// Amounts carried by an event are well-formed.
    pub open spec fn valid(self) -> bool {
        match self {
            Transaction::Deposit { amount, .. } => amount.valid(),
            Transaction::Withdrawal { amount, .. } => amount.valid(),
            _ => true,
        }
    }

    /// Runtime check of [`Transaction::valid`], for callers outside
    /// verified code.
    pub fn is_valid(&self) -> (r: bool)
        ensures
            r == self.valid(),
    {
        match self {
            Transaction::Deposit { amount, .. } => amount.is_valid(),
            Transaction::Withdrawal { amount, .. } => amount.is_valid(),
            _ => true,
        }
    }
}

/// One client's balances.  `total` is `available + held`; `locked` is set
/// by a chargeback and never cleared.
#[derive(Clone, Copy, Debug)]
pub struct Account {
    pub client: u16,
    pub available: Amount,
    pub held: Amount,
    pub locked: bool,
}

impl Account {
    pub open spec fn valid(self) -> bool {
        self.available.valid() && self.held.valid()
    }

    /// Runtime check of [`Account::valid`], for callers outside verified
    /// code.
    pub fn is_valid(&self) -> (r: bool)
        ensures
            r == self.valid(),
    {
        self.available.is_valid() && self.held.is_valid()
    }

    /// The account's total funds, `available + held`, exactly; `None`
    /// when that sum is not representable at the joined scale.
    pub fn total(&self) -> (r: Option<Amount>)
        requires
            self.valid(),
        ensures
            r == Amount::spec_add(self.available, self.held),
            r is Some ==> r->Some_0.value() == self.available.value() + self.held.value()
                && r->Some_0.valid(),
    {
        proof {
            if Amount::spec_add(self.available, self.held) is Some {
                lemma_add_value(self.available, self.held);
            }
        }
        self.available.checked_add(self.held)
    }
}

impl PartialEq for Account {
    /// Accounts are compared by client, exact decimal balances, and lock
    /// state.
    fn eq(&self, other: &Account) -> (r: bool) {
        self.client == other.client && self.available == other.available && self.held
            == other.held && self.locked == other.locked
    }
}

impl vstd::std_specs::cmp::PartialEqSpecImpl for Account {
    open spec fn obeys_eq_spec() -> bool {
        true
    }

    open spec fn eq_spec(&self, other: &Account) -> bool {
        &&& self.client == other.client
        &&& vstd::std_specs::cmp::PartialEqSpec::eq_spec(&self.available, &other.available)
        &&& vstd::std_specs::cmp::PartialEqSpec::eq_spec(&self.held, &other.held)
        &&& self.locked == other.locked
    }
}

/// The engine's abstract state: per client, the account and the table of
/// recorded transactions.
pub type LedgerMap = Map<u16, (Account, Map<u32, Transaction>)>;

/// A stored transaction record: a deposit or withdrawal, under its own
/// client and transaction id, with a well-formed amount.
pub open spec fn tx_record_wf(t: Transaction, c: u16, x: u32) -> bool {
    match t {
        Transaction::Deposit { client, tx, amount, .. } => client == c && tx == x
            && amount.valid(),
        Transaction::Withdrawal { client, tx, amount, .. } => client == c && tx == x
            && amount.valid(),
        _ => false,
    }
}

/// Well-formedness of the abstract state.
pub open spec fn ledger_wf(m: LedgerMap) -> bool {
    forall|c: u16| #[trigger]
        m.contains_key(c) ==> {
            &&& m[c].0.client == c
            &&& m[c].0.valid()
            &&& forall|x: u32| #[trigger] m[c].1.contains_key(x) ==> tx_record_wf(m[c].1[x], c, x)
        }
}

pub open spec fn deposit_record(client: u16, tx: u32, amount: Amount, disputed: bool) -> Transaction {
    Transaction::Deposit { client, tx, amount, disputed }
}

pub open spec fn withdrawal_record(client: u16, tx: u32, amount: Amount, disputed: bool) -> Transaction {
    Transaction::Withdrawal { client, tx, amount, disputed }
}

/// A deposit creates the account on first sight, with the deposit as its
/// whole available balance; on an existing account it adds to `available`.
/// Either way the transaction is recorded (locking does not stop deposits).
/// The event is dropped only when the new balance is not representable.
pub open spec fn step_deposit(m: LedgerMap, client: u16, tx: u32, amount: Amount) -> LedgerMap {
    if !m.contains_key(client) {
        m.insert(
            client,
            (
                Account { client, available: amount, held: Amount::spec_zero(), locked: false },
                Map::empty().insert(tx, deposit_record(client, tx, amount, false)),
            ),
        )
    } else {
        let acct = m[client].0;
        let txs = m[client].1;
        match Amount::spec_add(acct.available, amount) {
            Some(av) => m.insert(
                client,
                (
                    Account { client: acct.client, available: av, held: acct.held, locked: acct.locked },
                    txs.insert(tx, deposit_record(acct.client, tx, amount, false)),
                ),
            ),
            None => m,
        }
    }
}

/// A withdrawal applies only to an existing account with
/// `available >= amount` (exact decimal comparison); it subtracts from
/// `available` and records the transaction.  Otherwise it is dropped and
/// nothing is recorded.
pub open spec fn step_withdrawal(m: LedgerMap, client: u16, tx: u32, amount: Amount) -> LedgerMap {
    if !m.contains_key(client) {
        m
    } else {
        let acct = m[client].0;
        let txs = m[client].1;
        if acct.available.value() >= amount.value() {
            match Amount::spec_sub(acct.available, amount) {
                Some(av) => m.insert(
                    client,
                    (
                        Account { client: acct.client, available: av, held: acct.held, locked: acct.locked },
                        txs.insert(tx, withdrawal_record(acct.client, tx, amount, false)),
                    ),
                ),
                None => m,
            }
        } else {
            m
        }
    }
}

/// A dispute of a recorded, not-yet-disputed transaction marks it disputed
/// and moves its amount between `available` and `held`: out of `available`
/// for a deposit, into `available` for a withdrawal.  Anything else —
/// unknown client, unknown transaction, already disputed — is a no-op.
pub open spec fn step_dispute(m: LedgerMap, client: u16, referenced_tx: u32) -> LedgerMap {
    if !m.contains_key(client) {
        m
    } else {
        let acct = m[client].0;
        let txs = m[client].1;
        if !txs.contains_key(referenced_tx) {
            m
        } else {
            match txs[referenced_tx] {
                Transaction::Deposit { client: rc, tx: rx, amount, disputed } => {
                    if disputed {
                        m
                    } else {
                        match (Amount::spec_sub(acct.available, amount), Amount::spec_add(acct.held, amount)) {
                            (Some(av), Some(h)) => m.insert(
                                client,
                                (
                                    Account { client: acct.client, available: av, held: h, locked: acct.locked },
                                    txs.insert(referenced_tx, deposit_record(rc, rx, amount, true)),
                                ),
                            ),
                            _ => m,
                        }
                    }
                },
                Transaction::Withdrawal { client: rc, tx: rx, amount, disputed } => {
                    if disputed {
                        m
                    } else {
                        match (Amount::spec_add(acct.available, amount), Amount::spec_sub(acct.held, amount)) {
                            (Some(av), Some(h)) => m.insert(
                                client,
                                (
                                    Account { client: acct.client, available: av, held: h, locked: acct.locked },
                                    txs.insert(referenced_tx, withdrawal_record(rc, rx, amount, true)),
                                ),
                            ),
                            _ => m,
                        }
                    }
                },
                _ => m,
            }
        }
    }
}

/// A resolve of a disputed transaction reverses the dispute's balance move
/// and clears the disputed flag.  It is a no-op unless the referenced
/// transaction exists and is currently disputed.
pub open spec fn step_resolve(m: LedgerMap, client: u16, referenced_tx: u32) -> LedgerMap {
    if !m.contains_key(client) {
        m
    } else {
        let acct = m[client].0;
        let txs = m[client].1;
        if !txs.contains_key(referenced_tx) {
            m
        } else {
            match txs[referenced_tx] {
                Transaction::Deposit { client: rc, tx: rx, amount, disputed } => {
                    if !disputed {
                        m
                    } else {
                        match (Amount::spec_add(acct.available, amount), Amount::spec_sub(acct.held, amount)) {
                            (Some(av), Some(h)) => m.insert(
                                client,
                                (
                                    Account { client: acct.client, available: av, held: h, locked: acct.locked },
                                    txs.insert(referenced_tx, deposit_record(rc, rx, amount, false)),
                                ),
                            ),
                            _ => m,
                        }
                    }
                },
                Transaction::Withdrawal { client: rc, tx: rx, amount, disputed } => {
                    if !disputed {
                        m
                    } else {
                        match (Amount::spec_sub(acct.available, amount), Amount::spec_add(acct.held, amount)) {
                            (Some(av), Some(h)) => m.insert(
                                client,
                                (
                                    Account { client: acct.client, available: av, held: h, locked: acct.locked },
                                    txs.insert(referenced_tx, withdrawal_record(rc, rx, amount, false)),
                                ),
                            ),
                            _ => m,
                        }
                    }
                },
                _ => m,
            }
        }
    }
}

/// A chargeback of a disputed transaction releases the held funds — down
/// for a deposit, up for a withdrawal — locks the account, and clears the
/// disputed flag.  It is a no-op unless the referenced transaction exists
/// and is currently disputed.
pub open spec fn step_chargeback(m: LedgerMap, client: u16, referenced_tx: u32) -> LedgerMap {
    if !m.contains_key(client) {
        m
    } else {
        let acct = m[client].0;
        let txs = m[client].1;
        if !txs.contains_key(referenced_tx) {
            m
        } else {
            match txs[referenced_tx] {
                Transaction::Deposit { client: rc, tx: rx, amount, disputed } => {
                    if !disputed {
                        m
                    } else {
                        match Amount::spec_sub(acct.held, amount) {
                            Some(h) => m.insert(
                                client,
                                (
                                    Account { client: acct.client, available: acct.available, held: h, locked: true },
                                    txs.insert(referenced_tx, deposit_record(rc, rx, amount, false)),
                                ),
                            ),
                            None => m,
                        }
                    }
                },
                Transaction::Withdrawal { client: rc, tx: rx, amount, disputed } => {
                    if !disputed {
                        m
                    } else {
                        match Amount::spec_add(acct.held, amount) {
                            Some(h) => m.insert(
                                client,
                                (
                                    Account { client: acct.client, available: acct.available, held: h, locked: true },
                                    txs.insert(referenced_tx, withdrawal_record(rc, rx, amount, false)),
                                ),
                            ),
                            None => m,
                        }
                    }
                },
                _ => m,
            }
        }
    }
}

/// The engine's whole transition relation, one event at a time.
pub open spec fn step(m: LedgerMap, t: Transaction) -> LedgerMap {
    match t {
        Transaction::Deposit { client, tx, amount, .. } => step_deposit(m, client, tx, amount),
        Transaction::Withdrawal { client, tx, amount, .. } => step_withdrawal(m, client, tx, amount),
        Transaction::Dispute { client, referenced_tx } => step_dispute(m, client, referenced_tx),
        Transaction::Resolve { client, referenced_tx } => step_resolve(m, client, referenced_tx),
        Transaction::ChargeBack { client, referenced_tx } => step_chargeback(m, client, referenced_tx),
    }
}

/// How the roster of known clients changes under one event: a deposit for
/// an unknown client appends it; nothing else changes the roster.
pub open spec fn step_clients(m: LedgerMap, clients: Seq<u16>, t: Transaction) -> Seq<u16> {
    match t {
        Transaction::Deposit { client, .. } => if !m.contains_key(client) {
            clients.push(client)
        } else {
            clients
        },
        _ => clients,
    }
}

struct ClientLedger {
    account: Account,
    txs: HashMap<u32, Transaction>,
}

/// The ledger engine.
pub struct Bank {
    accounts: HashMap<u16, ClientLedger>,
    order: Vec<u16>,
}

impl View for Bank {
    type V = LedgerMap;

    closed spec fn view(&self) -> LedgerMap {
        Map::new(
            |c: u16| self.accounts@.contains_key(c),
            |c: u16| (self.accounts@[c].account, self.accounts@[c].txs@),
        )
    }
}

impl Bank {
    /// The clients known to the engine, in order of first deposit.
    pub closed spec fn clients(&self) -> Seq<u16> {
        self.order@
    }

    pub closed spec fn wf(&self) -> bool {
        &&& ledger_wf(self@)
        &&& self.order@.no_duplicates()
        &&& forall|c: u16| #[trigger] self.accounts@.contains_key(c) <==> self.order@.contains(c)
    }

    /// What well-formedness guarantees to callers.
    pub proof fn lemma_wf(&self)
        requires
            self.wf(),
        ensures
            ledger_wf(self@),
            self.clients().no_duplicates(),
            forall|c: u16| #[trigger] self@.contains_key(c) <==> self.clients().contains(c),
    {
        assert(forall|c: u16| #[trigger]
            self@.contains_key(c) <==> self.accounts@.contains_key(c));
    }

    /// Consumes one event.  Inapplicable events are dropped silently: the
    /// state is exactly `step(old state, event)` in every case.
    pub fn apply(&mut self, transaction: Transaction)
        requires
            old(self).wf(),
            transaction.valid(),
        ensures
            final(self).wf(),
            final(self)@ == step(old(self)@, transaction),
            final(self).clients() == step_clients(old(self)@, old(self).clients(), transaction),
    {
        match transaction {
            Transaction::Deposit { client, tx, amount, .. } => self.apply_deposit(client, tx, amount),
            Transaction::Withdrawal { client, tx, amount, .. } => self.apply_withdrawal(client, tx, amount),
            Transaction::Dispute { client, referenced_tx } => self.apply_dispute(client, referenced_tx),
            Transaction::Resolve { client, referenced_tx } => self.apply_resolve(client, referenced_tx),
            Transaction::ChargeBack { client, referenced_tx } => self.apply_chargeback(client, referenced_tx),
        }
    }

    /// The current state of every account, in order of first deposit.
    pub fn balances(&self) -> (r: Vec<Account>)
        requires
            self.wf(),
        ensures
            r@.len() == self.clients().len(),
            forall|i: int|
                0 <= i < r@.len() ==> #[trigger] r@[i] == self@[self.clients()[i]].0,
    {
        let mut result: Vec<Account> = Vec::new();
        let mut i: usize = 0;
        while i < self.order.len()
            invariant
                self.wf(),
                i <= self.order@.len(),
                result@.len() == i,
                forall|j: int|
                    0 <= j < i ==> #[trigger] result@[j] == self@[self.order@[j]].0,
            decreases self.order@.len() - i,
        {
            let c = self.order[i];
            proof {
                assert(self.order@.contains(c)) by {
                    assert(self.order@[i as int] == c);
                }
                assert(self.accounts@.contains_key(c));
            }
            let ledger = self.accounts.get(&c).unwrap();
            result.push(ledger.account);
            i = i + 1;
        }
        result
    }

    fn apply_deposit(&mut self, client: u16, tx: u32, amount: Amount)
        requires
            old(self).wf(),
            amount.valid(),
        ensures
            final(self).wf(),
            final(self)@ == step_deposit(old(self)@, client, tx, amount),
            final(self).clients() == step_clients(
                old(self)@,
                old(self).clients(),
                Transaction::Deposit { client, tx, amount, disputed: false },
            ),
    {
        let ghost m0 = self@;
        match self.accounts.remove(&client) {
            None => {
                let mut txs: HashMap<u32, Transaction> = HashMap::new();
                txs.insert(tx, Transaction::Deposit { client, tx, amount, disputed: false });
                let account = Account {
                    client,
                    available: amount,
                    held: Amount::zero(),
                    locked: false,
                };
                self.accounts.insert(client, ClientLedger { account, txs });
                self.order.push(client);
                proof {
                    assert(!m0.contains_key(client));
                    assert(self@ =~= step_deposit(m0, client, tx, amount)) by {
                        assert(Map::<u32, Transaction>::empty().insert(
                            tx,
                            deposit_record(client, tx, amount, false),
                        ) =~= self.accounts@[client].txs@);
                    }
                    let s0 = old(self).order@;
                    let s1 = self.order@;
                    assert(!s0.contains(client));
                    assert(s1.no_duplicates()) by {
                        assert forall|i: int, j: int|
                            0 <= i < s1.len() && 0 <= j < s1.len() && i != j implies s1[i]
                            != s1[j] by {
                            if i < s0.len() && j < s0.len() {
                                assert(s1[i] == s0[i] && s1[j] == s0[j]);
                            } else if j == s0.len() {
                                assert(s1[i] == s0[i] && s1[j] == client);
                                if s0[i] == client {
                                    assert(s0.contains(client));
                                }
                            } else {
                                assert(s1[j] == s0[j] && s1[i] == client);
                                if s0[j] == client {
                                    assert(s0.contains(client));
                                }
                            }
                        }
                    }
                    assert(forall|c: u16| #[trigger]
                        self.accounts@.contains_key(c) <==> self.order@.contains(c)) by {
                        assert forall|c: u16| #[trigger]
                            self.accounts@.contains_key(c) implies s1.contains(c) by {
                            if c == client {
                                assert(s1[s0.len() as int] == client);
                            } else {
                                assert(s0.contains(c));
                                let j = choose|j: int| 0 <= j < s0.len() && s0[j] == c;
                                assert(s1[j] == c);
                            }
                        }
                        assert forall|c: u16| #[trigger]
                            s1.contains(c) implies self.accounts@.contains_key(c) by {
                            let j = choose|j: int| 0 <= j < s1.len() && s1[j] == c;
                            if j < s0.len() {
                                assert(s0[j] == c);
                                assert(s0.contains(c));
                            } else {
                                assert(c == client);
                            }
                        }
                    }
                }
            },
            Some(mut ledger) => {
                proof {
                    assert(m0.contains_key(client));
                    assert(ledger.account == m0[client].0 && ledger.txs@ == m0[client].1);
                }
                match ledger.account.available.checked_add(amount) {
                    Some(av) => {
                        proof {
                            lemma_add_value(ledger.account.available, amount);
                        }
                        ledger.account.available = av;
                        let rec = Transaction::Deposit {
                            client: ledger.account.client,
                            tx,
                            amount,
                            disputed: false,
                        };
                        ledger.txs.insert(tx, rec);
                        self.accounts.insert(client, ledger);
                        proof {
                            assert(self@ =~= step_deposit(m0, client, tx, amount));
                        }
                    },
                    None => {
                        self.accounts.insert(client, ledger);
                        proof {
                            assert(self@ =~= m0);
                        }
                    },
                }
                proof {
                    assert(forall|c: u16| #[trigger]
                        self.accounts@.contains_key(c) <==> old(self).accounts@.contains_key(c));
                }
            },
        }
    }

    fn apply_withdrawal(&mut self, client: u16, tx: u32, amount: Amount)
        requires
            old(self).wf(),
            amount.valid(),
        ensures
            final(self).wf(),
            final(self)@ == step_withdrawal(old(self)@, client, tx, amount),
            final(self).clients() == old(self).clients(),
    {
        let ghost m0 = self@;
        match self.accounts.remove(&client) {
            None => {
                proof {
                    assert(self@ =~= m0);
                }
            },
            Some(mut ledger) => {
                proof {
                    assert(m0.contains_key(client));
                    assert(ledger.account == m0[client].0 && ledger.txs@ == m0[client].1);
                }
                if ledger.account.available.ge(amount) {
                    match ledger.account.available.checked_sub(amount) {
                        Some(av) => {
                            proof {
                                lemma_neg_value(amount);
                                lemma_add_value(
                                    ledger.account.available,
                                    Amount::spec_neg(amount),
                                );
                            }
                            ledger.account.available = av;
                            let rec = Transaction::Withdrawal {
                                client: ledger.account.client,
                                tx,
                                amount,
                                disputed: false,
                            };
                            ledger.txs.insert(tx, rec);
                        },
                        None => {},
                    }
                }
                self.accounts.insert(client, ledger);
                proof {
                    assert(self@ =~= step_withdrawal(m0, client, tx, amount));
                    assert(forall|c: u16| #[trigger]
                        self.accounts@.contains_key(c) <==> old(self).accounts@.contains_key(c));
                }
            },
        }
    }

    fn apply_dispute(&mut self, client: u16, referenced_tx: u32)
        requires
            old(self).wf(),
        ensures
            final(self).wf(),
            final(self)@ == step_dispute(old(self)@, client, referenced_tx),
            final(self).clients() == old(self).clients(),
    {
        let ghost m0 = self@;
        match self.accounts.remove(&client) {
            None => {
                proof {
                    assert(self@ =~= m0);
                }
            },
            Some(mut ledger) => {
                proof {
                    assert(m0.contains_key(client));
                    assert(ledger.account == m0[client].0 && ledger.txs@ == m0[client].1);
                }
                let record = match ledger.txs.get(&referenced_tx) {
                    Some(r) => Some(*r),
                    None => None,
                };
                match record {
                    Some(Transaction::Deposit { client: rc, tx: rx, amount, disputed }) => {
                        if !disputed {
                            proof {
                                assert(m0[client].1.contains_key(referenced_tx));
                                assert(tx_record_wf(m0[client].1[referenced_tx], client, referenced_tx));
                            }
                            let av2 = ledger.account.available.checked_sub(amount);
                            let h2 = ledger.account.held.checked_add(amount);
                            match (av2, h2) {
                                (Some(av), Some(h)) => {
                                    proof {
                                        lemma_neg_value(amount);
                                        lemma_add_value(
                                            ledger.account.available,
                                            Amount::spec_neg(amount),
                                        );
                                        lemma_add_value(ledger.account.held, amount);
                                    }
                                    ledger.account.available = av;
                                    ledger.account.held = h;
                                    ledger.txs.insert(
                                        referenced_tx,
                                        Transaction::Deposit { client: rc, tx: rx, amount, disputed: true },
                                    );
                                },
                                _ => {},
                            }
                        }
                    },
                    Some(Transaction::Withdrawal { client: rc, tx: rx, amount, disputed }) => {
                        if !disputed {
                            proof {
                                assert(m0[client].1.contains_key(referenced_tx));
                                assert(tx_record_wf(m0[client].1[referenced_tx], client, referenced_tx));
                            }
                            let av2 = ledger.account.available.checked_add(amount);
                            let h2 = ledger.account.held.checked_sub(amount);
                            match (av2, h2) {
                                (Some(av), Some(h)) => {
                                    proof {
                                        lemma_neg_value(amount);
                                        lemma_add_value(ledger.account.available, amount);
                                        lemma_add_value(
                                            ledger.account.held,
                                            Amount::spec_neg(amount),
                                        );
                                    }
                                    ledger.account.available = av;
                                    ledger.account.held = h;
                                    ledger.txs.insert(
                                        referenced_tx,
                                        Transaction::Withdrawal { client: rc, tx: rx, amount, disputed: true },
                                    );
                                },
                                _ => {},
                            }
                        }
                    },
                    _ => {},
                }
                self.accounts.insert(client, ledger);
                proof {
                    assert(self@ =~= step_dispute(m0, client, referenced_tx));
                    assert(forall|c: u16| #[trigger]
                        self.accounts@.contains_key(c) <==> old(self).accounts@.contains_key(c));
                }
            },
        }
    }

    fn apply_resolve(&mut self, client: u16, referenced_tx: u32)
        requires
            old(self).wf(),
        ensures
            final(self).wf(),
            final(self)@ == step_resolve(old(self)@, client, referenced_tx),
            final(self).clients() == old(self).clients(),
    {
        let ghost m0 = self@;
        match self.accounts.remove(&client) {
            None => {
                proof {
                    assert(self@ =~= m0);
                }
            },
            Some(mut ledger) => {
                proof {
                    assert(m0.contains_key(client));
                    assert(ledger.account == m0[client].0 && ledger.txs@ == m0[client].1);
                }
                let record = match ledger.txs.get(&referenced_tx) {
                    Some(r) => Some(*r),
                    None => None,
                };
                match record {
                    Some(Transaction::Deposit { client: rc, tx: rx, amount, disputed }) => {
                        if disputed {
                            proof {
                                assert(m0[client].1.contains_key(referenced_tx));
                                assert(tx_record_wf(m0[client].1[referenced_tx], client, referenced_tx));
                            }
                            let av2 = ledger.account.available.checked_add(amount);
                            let h2 = ledger.account.held.checked_sub(amount);
                            match (av2, h2) {
                                (Some(av), Some(h)) => {
                                    proof {
                                        lemma_neg_value(amount);
                                        lemma_add_value(ledger.account.available, amount);
                                        lemma_add_value(
                                            ledger.account.held,
                                            Amount::spec_neg(amount),
                                        );
                                    }
                                    ledger.account.available = av;
                                    ledger.account.held = h;
                                    ledger.txs.insert(
                                        referenced_tx,
                                        Transaction::Deposit { client: rc, tx: rx, amount, disputed: false },
                                    );
                                },
                                _ => {},
                            }
                        }
                    },
                    Some(Transaction::Withdrawal { client: rc, tx: rx, amount, disputed }) => {
                        if disputed {
                            proof {
                                assert(m0[client].1.contains_key(referenced_tx));
                                assert(tx_record_wf(m0[client].1[referenced_tx], client, referenced_tx));
                            }
                            let av2 = ledger.account.available.checked_sub(amount);
                            let h2 = ledger.account.held.checked_add(amount);
                            match (av2, h2) {
                                (Some(av), Some(h)) => {
                                    proof {
                                        lemma_neg_value(amount);
                                        lemma_add_value(
                                            ledger.account.available,
                                            Amount::spec_neg(amount),
                                        );
                                        lemma_add_value(ledger.account.held, amount);
                                    }
                                    ledger.account.available = av;
                                    ledger.account.held = h;
                                    ledger.txs.insert(
                                        referenced_tx,
                                        Transaction::Withdrawal { client: rc, tx: rx, amount, disputed: false },
                                    );
                                },
                                _ => {},
                            }
                        }
                    },
                    _ => {},
                }
                self.accounts.insert(client, ledger);
                proof {
                    assert(self@ =~= step_resolve(m0, client, referenced_tx));
                    assert(forall|c: u16| #[trigger]
                        self.accounts@.contains_key(c) <==> old(self).accounts@.contains_key(c));
                }
            },
        }
    }

    fn apply_chargeback(&mut self, client: u16, referenced_tx: u32)
        requires
            old(self).wf(),
        ensures
            final(self).wf(),
            final(self)@ == step_chargeback(old(self)@, client, referenced_tx),
            final(self).clients() == old(self).clients(),
    {
        let ghost m0 = self@;
        match self.accounts.remove(&client) {
            None => {
                proof {
                    assert(self@ =~= m0);
                }
            },
            Some(mut ledger) => {
                proof {
                    assert(m0.contains_key(client));
                    assert(ledger.account == m0[client].0 && ledger.txs@ == m0[client].1);
                }
                let record = match ledger.txs.get(&referenced_tx) {
                    Some(r) => Some(*r),
                    None => None,
                };
                match record {
                    Some(Transaction::Deposit { client: rc, tx: rx, amount, disputed }) => {
                        if disputed {
                            proof {
                                assert(m0[client].1.contains_key(referenced_tx));
                                assert(tx_record_wf(m0[client].1[referenced_tx], client, referenced_tx));
                            }
                            match ledger.account.held.checked_sub(amount) {
                                Some(h) => {
                                    proof {
                                        lemma_neg_value(amount);
                                        lemma_add_value(
                                            ledger.account.held,
                                            Amount::spec_neg(amount),
                                        );
                                    }
                                    ledger.account.held = h;
                                    ledger.account.locked = true;
                                    ledger.txs.insert(
                                        referenced_tx,
                                        Transaction::Deposit { client: rc, tx: rx, amount, disputed: false },
                                    );
                                },
                                None => {},
                            }
                        }
                    },
                    Some(Transaction::Withdrawal { client: rc, tx: rx, amount, disputed }) => {
                        if disputed {
                            proof {
                                assert(m0[client].1.contains_key(referenced_tx));
                                assert(tx_record_wf(m0[client].1[referenced_tx], client, referenced_tx));
                            }
                            match ledger.account.held.checked_add(amount) {
                                Some(h) => {
                                    proof {
                                        lemma_add_value(ledger.account.held, amount);
                                    }
                                    ledger.account.held = h;
                                    ledger.account.locked = true;
                                    ledger.txs.insert(
                                        referenced_tx,
                                        Transaction::Withdrawal { client: rc, tx: rx, amount, disputed: false },
                                    );
                                },
                                None => {},
                            }
                        }
                    },
                    _ => {},
                }
                self.accounts.insert(client, ledger);
                proof {
                    assert(self@ =~= step_chargeback(m0, client, referenced_tx));
                    assert(forall|c: u16| #[trigger]
                        self.accounts@.contains_key(c) <==> old(self).accounts@.contains_key(c));
                }
            },
        }
    }
}

impl Default for Bank {
    /// A fresh engine with no accounts.
    fn default() -> (r: Bank)
        ensures
            r@ == LedgerMap::empty(),
            r.clients() == Seq::<u16>::empty(),
            r.wf(),
    {
        let r = Bank { accounts: HashMap::new(), order: Vec::new() };
        proof {
            assert(r@ =~= LedgerMap::empty());
            assert(r.order@ =~= Seq::<u16>::empty());
        }
        r
    }
}

} // verus!
