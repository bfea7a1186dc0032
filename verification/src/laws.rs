//! Properties of the transition relation, proved once and for all: the
//! withdrawal guard, the no-op cases of the dispute family, and the
//! dispute/resolve and dispute/chargeback round trips.

use vstd::prelude::*;

use crate::amount::{lemma_add_value, lemma_neg_value, lemma_units_value, lemma_pow10_pos, pow10, Amount, MAX_SCALE};
use crate::bank::{
    deposit_record, ledger_wf, step, step_chargeback, step_deposit, step_dispute, step_resolve,
    step_withdrawal, LedgerMap, Transaction,
};

verus! {

pub open spec fn abs_int(x: int) -> int {
    if x < 0 {
        -x
    } else {
        x
    }
}

/// Whether a stored record is currently under dispute.
pub open spec fn record_disputed(t: Transaction) -> bool {
    match t {
        Transaction::Deposit { disputed, .. } => disputed,
        Transaction::Withdrawal { disputed, .. } => disputed,
        _ => false,
    }
}

/// The magnitude of an amount's units at a scale `s` is bounded by the
/// magnitude of its value.
proof fn lemma_units_bound(a: Amount, s: u32)
    requires
        a.valid(),
        a.scale <= s <= MAX_SCALE,
    ensures
        abs_int(a.units_at(s)) <= abs_int(a.value()),
{
    let p = pow10((MAX_SCALE - s) as nat);
    lemma_units_value(a, s);
    lemma_pow10_pos((MAX_SCALE - s) as nat);
    let u = a.units_at(s);
    assert(abs_int(u * p) == abs_int(u) * p) by (nonlinear_arith)
        requires
            p >= 1,
    ;
    assert(abs_int(u) <= abs_int(u) * p) by (nonlinear_arith)
        requires
            p >= 1,
            abs_int(u) >= 0,
    ;
}

/// Addition succeeds whenever the magnitudes of the two values sum below
/// `u128::MAX`.
pub proof fn lemma_add_fits(a: Amount, b: Amount)
    requires
        a.valid(),
        b.valid(),
        abs_int(a.value()) + abs_int(b.value()) <= u128::MAX as int,
    ensures
        Amount::spec_add(a, b) is Some,
{
    let s = Amount::joined_scale(a, b);
    lemma_units_bound(a, s);
    lemma_units_bound(b, s);
}

/// A withdrawal either leaves the state unchanged, or subtracts exactly
/// its amount from an `available` balance at least that big — so it never
/// drives `available` negative.
pub proof fn lemma_withdrawal_never_negative(m: LedgerMap, client: u16, tx: u32, amount: Amount)
    requires
        ledger_wf(m),
        amount.valid(),
    ensures
        !m.contains_key(client) ==> step_withdrawal(m, client, tx, amount) == m,
        m.contains_key(client) && m[client].0.available.value() < amount.value()
            ==> step_withdrawal(m, client, tx, amount) == m,
        m.contains_key(client) && m[client].0.available.value() >= amount.value()
            && Amount::spec_sub(m[client].0.available, amount) is None ==> step_withdrawal(
            m,
            client,
            tx,
            amount,
        ) == m,
        m.contains_key(client) && m[client].0.available.value() >= amount.value()
            && Amount::spec_sub(m[client].0.available, amount) is Some ==> {
            let m2 = step_withdrawal(m, client, tx, amount);
            &&& m2[client].0.available.value() == m[client].0.available.value() - amount.value()
            &&& m2[client].0.available.value() >= 0
            &&& m2[client].0.held == m[client].0.held
            &&& m2[client].0.locked == m[client].0.locked
        },
{
    if m.contains_key(client) && m[client].0.available.value() >= amount.value()
        && Amount::spec_sub(m[client].0.available, amount) is Some {
        lemma_neg_value(amount);
        lemma_add_value(m[client].0.available, Amount::spec_neg(amount));
    }
}

/// A second dispute of an already-disputed transaction is a no-op.
pub proof fn lemma_second_dispute_noop(m: LedgerMap, client: u16, referenced_tx: u32)
    requires
        m.contains_key(client),
        m[client].1.contains_key(referenced_tx),
        record_disputed(m[client].1[referenced_tx]),
    ensures
        step_dispute(m, client, referenced_tx) == m,
{
}

/// A dispute-family event naming an unknown client, or an unknown
/// transaction under a known client, is a no-op.
pub proof fn lemma_dispute_family_unknown_noop(m: LedgerMap, client: u16, referenced_tx: u32)
    requires
        !m.contains_key(client) || !m[client].1.contains_key(referenced_tx),
    ensures
        step_dispute(m, client, referenced_tx) == m,
        step_resolve(m, client, referenced_tx) == m,
        step_chargeback(m, client, referenced_tx) == m,
{
}

/// A resolve or chargeback of a transaction that is not under dispute is
/// a no-op.
pub proof fn lemma_undisputed_noop(m: LedgerMap, client: u16, referenced_tx: u32)
    requires
        m.contains_key(client),
        m[client].1.contains_key(referenced_tx),
        !record_disputed(m[client].1[referenced_tx]),
    ensures
        step_resolve(m, client, referenced_tx) == m,
        step_chargeback(m, client, referenced_tx) == m,
{
}

/// Dispute then resolve of the same deposit is an identity on the
/// balances: available, held, the lock flag and the stored record all
/// return to their pre-dispute state, and no other client is touched.
pub proof fn lemma_dispute_resolve_round_trip(
    m: LedgerMap,
    client: u16,
    referenced_tx: u32,
    rc: u16,
    rx: u32,
    amount: Amount,
)
    requires
        ledger_wf(m),
        m.contains_key(client),
        m[client].1.contains_key(referenced_tx),
        m[client].1[referenced_tx] == deposit_record(rc, rx, amount, false),
        Amount::spec_sub(m[client].0.available, amount) is Some,
        Amount::spec_add(m[client].0.held, amount) is Some,
        Amount::spec_add(Amount::spec_sub(m[client].0.available, amount)->Some_0, amount) is Some,
        Amount::spec_sub(Amount::spec_add(m[client].0.held, amount)->Some_0, amount) is Some,
    ensures
        ({
            let m2 = step_resolve(step_dispute(m, client, referenced_tx), client, referenced_tx);
            &&& m2.dom() == m.dom()
            &&& m2[client].0.available.value() == m[client].0.available.value()
            &&& m2[client].0.held.value() == m[client].0.held.value()
            &&& m2[client].0.locked == m[client].0.locked
            &&& m2[client].1 == m[client].1
            &&& forall|c: u16| c != client && #[trigger] m.contains_key(c) ==> m2[c] == m[c]
        }),
{
    let acct = m[client].0;
    let txs = m[client].1;
    assert(tx_record_wf_holds(m, client, referenced_tx));
    assert(amount.valid());
    lemma_neg_value(amount);
    let av1 = Amount::spec_sub(acct.available, amount)->Some_0;
    let h1 = Amount::spec_add(acct.held, amount)->Some_0;
    lemma_add_value(acct.available, Amount::spec_neg(amount));
    lemma_add_value(acct.held, amount);
    let m1 = step_dispute(m, client, referenced_tx);
    assert(m1 == m.insert(
        client,
        (
            crate::bank::Account {
                client: acct.client,
                available: av1,
                held: h1,
                locked: acct.locked,
            },
            txs.insert(referenced_tx, deposit_record(rc, rx, amount, true)),
        ),
    ));
    lemma_add_value(av1, amount);
    lemma_add_value(h1, Amount::spec_neg(amount));
    let m2 = step_resolve(m1, client, referenced_tx);
    assert(m2.dom() =~= m.dom());
    assert(m2[client].1 =~= m[client].1);
}

/// Dispute then chargeback of the same deposit: the held balance returns
/// to its pre-dispute value (the chargeback takes back exactly what the
/// dispute held), the account is locked, `available` keeps only the
/// dispute's deduction, and the record is no longer disputed.
pub proof fn lemma_dispute_chargeback(
    m: LedgerMap,
    client: u16,
    referenced_tx: u32,
    rc: u16,
    rx: u32,
    amount: Amount,
)
    requires
        ledger_wf(m),
        m.contains_key(client),
        m[client].1.contains_key(referenced_tx),
        m[client].1[referenced_tx] == deposit_record(rc, rx, amount, false),
        Amount::spec_sub(m[client].0.available, amount) is Some,
        Amount::spec_add(m[client].0.held, amount) is Some,
        Amount::spec_sub(Amount::spec_add(m[client].0.held, amount)->Some_0, amount) is Some,
    ensures
        ({
            let m2 = step_chargeback(step_dispute(m, client, referenced_tx), client, referenced_tx);
            &&& m2.dom() == m.dom()
            &&& m2[client].0.available.value() == m[client].0.available.value() - amount.value()
            &&& m2[client].0.held.value() == m[client].0.held.value()
            &&& m2[client].0.locked == true
            &&& m2[client].1[referenced_tx] == deposit_record(rc, rx, amount, false)
            &&& forall|c: u16| c != client && #[trigger] m.contains_key(c) ==> m2[c] == m[c]
        }),
{
    let acct = m[client].0;
    let txs = m[client].1;
    assert(tx_record_wf_holds(m, client, referenced_tx));
    assert(amount.valid());
    lemma_neg_value(amount);
    let av1 = Amount::spec_sub(acct.available, amount)->Some_0;
    let h1 = Amount::spec_add(acct.held, amount)->Some_0;
    lemma_add_value(acct.available, Amount::spec_neg(amount));
    lemma_add_value(acct.held, amount);
    let m1 = step_dispute(m, client, referenced_tx);
    assert(m1 == m.insert(
        client,
        (
            crate::bank::Account {
                client: acct.client,
                available: av1,
                held: h1,
                locked: acct.locked,
            },
            txs.insert(referenced_tx, deposit_record(rc, rx, amount, true)),
        ),
    ));
    lemma_add_value(h1, Amount::spec_neg(amount));
    let m2 = step_chargeback(m1, client, referenced_tx);
    assert(m2.dom() =~= m.dom());
}

/// Shorthand used by the round-trip proofs: the referenced record meets
/// the stored-record invariant.
spec fn tx_record_wf_holds(m: LedgerMap, client: u16, referenced_tx: u32) -> bool {
    crate::bank::tx_record_wf(m[client].1[referenced_tx], client, referenced_tx)
}

/// Repeated application of a sequence of events, oldest first.
pub open spec fn run(m: LedgerMap, events: Seq<Transaction>) -> LedgerMap
    decreases events.len(),
{
    if events.len() == 0 {
        m
    } else {
        run(step(m, events[0]), events.drop_first())
    }
}

pub open spec fn is_deposit(t: Transaction) -> bool {
    t matches Transaction::Deposit { .. }
}

pub open spec fn all_deposits(events: Seq<Transaction>) -> bool {
    forall|i: int| 0 <= i < events.len() ==> is_deposit(#[trigger] events[i])
}

pub open spec fn all_valid(events: Seq<Transaction>) -> bool {
    forall|i: int| 0 <= i < events.len() ==> (#[trigger] events[i]).valid()
}

/// The exact sum of the amounts deposited for one client.
pub open spec fn deposit_sum(events: Seq<Transaction>, c: u16) -> int
    decreases events.len(),
{
    if events.len() == 0 {
        0
    } else {
        (match events[0] {
            Transaction::Deposit { client, amount, .. } => if client == c {
                amount.value()
            } else {
                0
            },
            _ => 0,
        }) + deposit_sum(events.drop_first(), c)
    }
}

/// The sum of the magnitudes of every deposited amount.
pub open spec fn abs_sum(events: Seq<Transaction>) -> int
    decreases events.len(),
{
    if events.len() == 0 {
        0
    } else {
        (match events[0] {
            Transaction::Deposit { amount, .. } => abs_int(amount.value()),
            _ => 0,
        }) + abs_sum(events.drop_first())
    }
}

/// Whether some event in the sequence is a deposit for the given client.
pub open spec fn has_deposit_for(events: Seq<Transaction>, c: u16) -> bool
    decreases events.len(),
{
    if events.len() == 0 {
        false
    } else {
        (match events[0] {
            Transaction::Deposit { client, .. } => client == c,
            _ => false,
        }) || has_deposit_for(events.drop_first(), c)
    }
}

/// A state reachable by deposits alone: nothing held, nothing locked.
pub open spec fn deposits_only_state(m: LedgerMap) -> bool {
    forall|c: u16| #[trigger]
        m.contains_key(c) ==> m[c].0.held.value() == 0 && m[c].0.locked == false
}

proof fn lemma_abs_sum_nonneg(events: Seq<Transaction>)
    ensures
        abs_sum(events) >= 0,
    decreases events.len(),
{
    if events.len() > 0 {
        lemma_abs_sum_nonneg(events.drop_first());
    }
}

/// Running deposits only, from a deposits-only state whose balances leave
/// room for the whole stream, adds to each client exactly the sum of that
/// client's deposited amounts, holds nothing and locks nobody.
proof fn lemma_deposits_run(m: LedgerMap, events: Seq<Transaction>)
    requires
        ledger_wf(m),
        deposits_only_state(m),
        all_deposits(events),
        all_valid(events),
        abs_sum(events) <= u128::MAX as int,
        forall|c: u16| #[trigger]
            m.contains_key(c) ==> abs_int(m[c].0.available.value()) + abs_sum(events)
                <= u128::MAX as int,
    ensures
        ({
            let mf = run(m, events);
            &&& ledger_wf(mf)
            &&& deposits_only_state(mf)
            &&& forall|c: u16| #[trigger]
                mf.contains_key(c) <==> (m.contains_key(c) || has_deposit_for(events, c))
            &&& forall|c: u16| #[trigger]
                mf.contains_key(c) ==> mf[c].0.available.value() == (if m.contains_key(c) {
                    m[c].0.available.value()
                } else {
                    0
                }) + deposit_sum(events, c)
        }),
    decreases events.len(),
{
    if events.len() == 0 {
    } else {
        let t = events[0];
        let rest = events.drop_first();
        lemma_abs_sum_nonneg(rest);
        let client = t->Deposit_client;
        let tx = t->Deposit_tx;
        let amount = t->Deposit_amount;
        let m1 = step_deposit(m, client, tx, amount);
        assert(step(m, t) == m1);
        if !m.contains_key(client) {
            crate::amount::lemma_zero_value();
            assert(m1 == m.insert(
                client,
                (
                    crate::bank::Account {
                        client,
                        available: amount,
                        held: Amount::spec_zero(),
                        locked: false,
                    },
                    Map::empty().insert(tx, deposit_record(client, tx, amount, false)),
                ),
            ));
            assert(ledger_wf(m1)) by {
                assert(forall|x: u32| #[trigger]
                    m1[client].1.contains_key(x) ==> x == tx);
            }
            assert(abs_int(m1[client].0.available.value()) + abs_sum(rest) <= u128::MAX as int);
        } else {
            let acct = m[client].0;
            assert(abs_int(acct.available.value()) + abs_sum(events) <= u128::MAX as int);
            lemma_add_fits(acct.available, amount);
            let av = Amount::spec_add(acct.available, amount)->Some_0;
            lemma_add_value(acct.available, amount);
            assert(ledger_wf(m1)) by {
                assert(forall|x: u32| #[trigger]
                    m1[client].1.contains_key(x) ==> (x == tx || m[client].1.contains_key(x)));
            }
            assert(abs_int(m1[client].0.available.value()) + abs_sum(rest) <= u128::MAX as int);
        }
        lemma_deposits_run(m1, rest);
        let mf = run(m, events);
        assert(mf == run(m1, rest));
        assert(forall|c: u16| #[trigger]
            mf.contains_key(c) <==> (m.contains_key(c) || has_deposit_for(events, c))) by {
            assert(forall|c: u16| #[trigger]
                m1.contains_key(c) <==> (m.contains_key(c) || c == client));
        }
        assert forall|c: u16| #[trigger]
            mf.contains_key(c) implies mf[c].0.available.value() == (if m.contains_key(c) {
            m[c].0.available.value()
        } else {
            0
        }) + deposit_sum(events, c) by {
            assert(deposit_sum(events, c) == (if c == client {
                amount.value()
            } else {
                0
            }) + deposit_sum(rest, c));
        }
    }
}

/// Deposits only: starting from nothing, every account ends with
/// `available` equal to the exact decimal sum of that client's deposits,
/// `held` zero and `locked` false.
pub proof fn lemma_deposits_only(events: Seq<Transaction>)
    requires
        all_deposits(events),
        all_valid(events),
        abs_sum(events) <= u128::MAX as int,
    ensures
        ({
            let mf = run(LedgerMap::empty(), events);
            &&& forall|c: u16| #[trigger] mf.contains_key(c) <==> has_deposit_for(events, c)
            &&& forall|c: u16| #[trigger]
                mf.contains_key(c) ==> mf[c].0.available.value() == deposit_sum(events, c)
                    && mf[c].0.held.value() == 0 && mf[c].0.locked == false
        }),
{
    lemma_deposits_run(LedgerMap::empty(), events);
}

} // verus!
