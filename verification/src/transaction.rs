//! Stored transactions: the per-account record of accepted deposits that a
//! later dispute, resolve or chargeback may refer back to.

use vstd::prelude::*;
use crate::amount::Amount;

verus! {

/// The kind of a stored transaction. Only deposits are ever stored, since
/// they are the only operations that may be disputed; the kind is kept for
/// extensibility.
#[derive(Clone, Copy, PartialEq, Eq, Structural, Debug)]
pub enum TransactionType {
    Deposit,
}

/// Abstract value of a stored transaction: its amount in ten-thousandths of
/// a currency unit, and whether it is currently under dispute.
pub ghost struct TxView {
    pub amount: int,
    pub disputed: bool,
}

/// A transaction stored in an account, keyed there by its `TransactionId`.
/// Created when a deposit is accepted; its `disputed` flag flips true on a
/// successful dispute and back to false on a resolve or chargeback. It is
/// never removed for the lifetime of the account.
#[derive(Clone, Copy, Debug)]
pub struct Transaction {
    kind: TransactionType,
    amount: Amount,
    disputed: bool,
}

impl View for Transaction {
    type V = TxView;

    closed spec fn view(&self) -> TxView {
        TxView { amount: self.amount@, disputed: self.disputed }
    }
}

impl Transaction {
    /// A freshly stored deposit of `amount`, not under dispute.
    pub fn deposit(amount: Amount) -> (r: Transaction)
        ensures
            r@ == (TxView { amount: amount@, disputed: false }),
    {
        Transaction { kind: TransactionType::Deposit, amount, disputed: false }
    }

    /// The deposited amount.
    pub fn amount(&self) -> (r: Amount)
        ensures
            r@ == self@.amount,
    {
        self.amount
    }

    /// Mark the transaction as disputed.
    pub fn dispute(&mut self)
        ensures
            final(self)@ == (TxView { amount: old(self)@.amount, disputed: true }),
    {
        if !self.disputed {
            self.disputed = true;
        }
    }

    /// Clear the disputed mark (after a resolve or a chargeback).
    pub fn undispute(&mut self)
        ensures
            final(self)@ == (TxView { amount: old(self)@.amount, disputed: false }),
    {
        if self.disputed {
            self.disputed = false;
        }
    }

    /// Whether the transaction is currently under dispute.
    pub fn disputed(&self) -> (r: bool)
        ensures
            r == self@.disputed,
    {
        self.disputed
    }
}

} // verus!
