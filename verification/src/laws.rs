//! The guarantees the ledger gives, stated and proved over its abstract
//! state.

use vstd::prelude::*;
use crate::account::{AccountView, app_acct, app_deposit, empty_account, status_of};
use crate::engine::{EngineView, engine_wf, snapshot_of, step};
use crate::io::{InputLineType, LineView, line_valid};

verus! {

/// Conservation: in every status row of a well-formed ledger's snapshot,
/// `total` equals `available + held` exactly.
pub proof fn lemma_snapshot_conservation(e: EngineView)
    requires
        engine_wf(e),
    ensures
        forall|i: int|
            0 <= i < snapshot_of(e).len() ==> (#[trigger] snapshot_of(e)[i]).total == snapshot_of(
                e,
            )[i].available + snapshot_of(e)[i].held,
{
    assert forall|i: int| 0 <= i < snapshot_of(e).len() implies (#[trigger] snapshot_of(
        e,
    )[i]).total == snapshot_of(e)[i].available + snapshot_of(e)[i].held by {
        assert(snapshot_of(e)[i] == status_of(e.accounts[e.order[i]], e.order[i]));
    }
}

/// Idempotent dispute guard: disputing the same transaction twice has
/// exactly the effect of disputing it once.
pub proof fn lemma_dispute_idempotent(a: AccountView, l: LineView)
    requires
        l.kind is Dispute,
    ensures
        app_acct(app_acct(a, l), l) == app_acct(a, l),
{
    let a1 = app_acct(a, l);
    if !a.locked && a.deposits.contains_key(l.id) {
        assert(a1.deposits.contains_key(l.id));
    }
}

/// Idempotent dispute guard, seen from the ledger: routing the same dispute
/// record twice leaves the ledger exactly as routing it once does.
pub proof fn lemma_dispute_idempotent_engine(e: EngineView, l: LineView)
    requires
        l.kind is Dispute,
    ensures
        step(step(e, l), l) == step(e, l),
{
    if line_valid(l) && e.accounts.contains_key(l.client) {
        let e1 = step(e, l);
        lemma_dispute_idempotent(e.accounts[l.client], l);
        assert(e1.accounts.contains_key(l.client));
        assert(step(e1, l).accounts =~= e1.accounts);
        assert(step(e1, l) =~= e1);
    }
}

/// Lock finality: a locked account ignores every further operation, of any
/// kind; its balances, lock flag and transaction history stay unchanged.
pub proof fn lemma_locked_is_final(a: AccountView, l: LineView)
    requires
        a.locked,
    ensures
        app_acct(a, l) == a,
{
}

/// A record whose shape is invalid never reaches any account: the whole
/// ledger is left unchanged.
pub proof fn lemma_invalid_shape_rejected(e: EngineView, l: LineView)
    requires
        !line_valid(l),
    ensures
        step(e, l) == e,
{
}

/// Lazy creation, negative half: a withdrawal, dispute, resolve or
/// chargeback addressed to a client with no account creates none and
/// changes nothing.
pub proof fn lemma_no_account_no_creation(e: EngineView, l: LineView)
    requires
        !e.accounts.contains_key(l.client),
        !(l.kind is Deposit),
    ensures
        step(e, l) == e,
{
}

/// Lazy creation, positive half: a representable deposit to a client with
/// no account creates exactly one account, holding exactly the deposited
/// amount as available funds, nothing held, unlocked.
pub proof fn lemma_deposit_creates_account(e: EngineView, l: LineView, amt: int)
    requires
        !e.accounts.contains_key(l.client),
        l.kind is Deposit,
        l.amount == Some(amt),
        crate::account::fits(amt),
    ensures
        step(e, l).accounts.contains_key(l.client),
        step(e, l).accounts[l.client] == (AccountView {
            available: amt,
            held: 0,
            locked: false,
            deposits: Map::empty().insert(
                l.id,
                crate::transaction::TxView { amount: amt, disputed: false },
            ),
        }),
        step(e, l).order == e.order.push(l.client),
        forall|c: crate::ClientId|
            c != l.client ==> step(e, l).accounts.contains_key(c) == e.accounts.contains_key(c),
        forall|c: crate::ClientId|
            c != l.client && e.accounts.contains_key(c) ==> step(e, l).accounts[c]
                == e.accounts[c],
{
    assert(line_valid(l));
    assert(step(e, l).accounts[l.client] == app_deposit(empty_account(), l));
}

/// Insufficient funds: a withdrawal an account cannot cover is a no-op.
pub proof fn lemma_insufficient_withdrawal(a: AccountView, l: LineView, amt: int)
    requires
        l.kind is Withdrawal,
        l.amount == Some(amt),
        a.available < amt,
    ensures
        app_acct(a, l) == a,
{
}

} // verus!
