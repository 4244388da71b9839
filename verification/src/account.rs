//! The per-client account state machine.
//!
//! An account owns one client's balances (`available` and `held`, both exact
//! fixed-point amounts) and the map of its accepted deposits, which later
//! disputes, resolves and chargebacks refer back to. The derived `total` is
//! always `available + held`; it is never stored. Applying an operation
//! whose result would not be representable in the fixed-point range is a
//! silent no-op, like every other semantically invalid operation.

use vstd::prelude::*;
use std::collections::HashMap;
use crate::amount::Amount;
use crate::io::{InputLine, InputLineType, LineView, line_valid};
use crate::transaction::{Transaction, TxView};
use crate::{ClientId, TransactionId};

verus! {

broadcast use vstd::std_specs::hash::group_hash_axioms;

/// Abstract state of one account.
#[verifier::ext_equal]
pub ghost struct AccountView {
    pub available: int,
    pub held: int,
    pub locked: bool,
    pub deposits: Map<TransactionId, TxView>,
}

/// Abstract value of a status snapshot row.
pub ghost struct StatusView {
    pub client: ClientId,
    pub available: int,
    pub held: int,
    pub total: int,
    pub locked: bool,
}

/// Whether `x` is representable as a fixed-point amount.
pub open spec fn fits(x: int) -> bool {
    i64::MIN <= x <= i64::MAX
}

/// Well-formedness of an account: both balances and the derived total are
/// representable. Every reachable account state satisfies this.
pub open spec fn account_wf(a: AccountView) -> bool {
    &&& fits(a.available)
    &&& fits(a.held)
    &&& fits(a.available + a.held)
}

/// The state of a brand-new account: zero balances, unlocked, no deposits.
pub open spec fn empty_account() -> AccountView {
    AccountView { available: 0, held: 0, locked: false, deposits: Map::empty() }
}

/// Effect of a deposit: credit `available` and store the transaction,
/// overwriting any entry with the same id. Dropped if the new balance or the
/// new total would be unrepresentable.
pub open spec fn app_deposit(a: AccountView, l: LineView) -> AccountView {
    match l.amount {
        Some(amt) => {
            if fits(a.available + amt) && fits(a.available + amt + a.held) {
                AccountView {
                    available: a.available + amt,
                    held: a.held,
                    locked: a.locked,
                    deposits: a.deposits.insert(l.id, TxView { amount: amt, disputed: false }),
                }
            } else {
                a
            }
        },
        None => a,
    }
}

/// Effect of a withdrawal: debit `available` if it covers the amount, else a
/// no-op. Dropped as well if the result would be unrepresentable.
pub open spec fn app_withdrawal(a: AccountView, l: LineView) -> AccountView {
    match l.amount {
        Some(amt) => {
            if a.available >= amt && fits(a.available - amt) && fits(a.available - amt + a.held) {
                AccountView {
                    available: a.available - amt,
                    held: a.held,
                    locked: a.locked,
                    deposits: a.deposits,
                }
            } else {
                a
            }
        },
        None => a,
    }
}

/// Effect of a dispute: if the named deposit exists and is not already
/// disputed, move its amount from `available` to `held` (possibly driving
/// `available` negative) and mark it disputed; else a no-op.
pub open spec fn app_dispute(a: AccountView, l: LineView) -> AccountView {
    if a.deposits.contains_key(l.id) {
        let t = a.deposits[l.id];
        if !t.disputed && fits(a.available - t.amount) && fits(a.held + t.amount) {
            AccountView {
                available: a.available - t.amount,
                held: a.held + t.amount,
                locked: a.locked,
                deposits: a.deposits.insert(l.id, TxView { amount: t.amount, disputed: true }),
            }
        } else {
            a
        }
    } else {
        a
    }
}

/// Effect of a resolve: if the named deposit exists and is under dispute,
/// move its amount back from `held` to `available` and clear the mark; else
/// a no-op.
pub open spec fn app_resolve(a: AccountView, l: LineView) -> AccountView {
    if a.deposits.contains_key(l.id) {
        let t = a.deposits[l.id];
        if t.disputed && fits(a.available + t.amount) && fits(a.held - t.amount) {
            AccountView {
                available: a.available + t.amount,
                held: a.held - t.amount,
                locked: a.locked,
                deposits: a.deposits.insert(l.id, TxView { amount: t.amount, disputed: false }),
            }
        } else {
            a
        }
    } else {
        a
    }
}

/// Effect of a chargeback: if the named deposit exists and is under dispute,
/// remove its amount from `held`, clear the mark, and lock the account for
/// good; else a no-op.
pub open spec fn app_chargeback(a: AccountView, l: LineView) -> AccountView {
    if a.deposits.contains_key(l.id) {
        let t = a.deposits[l.id];
        if t.disputed && fits(a.held - t.amount) && fits(a.available + a.held - t.amount) {
            AccountView {
                available: a.available,
                held: a.held - t.amount,
                locked: true,
                deposits: a.deposits.insert(l.id, TxView { amount: t.amount, disputed: false }),
            }
        } else {
            a
        }
    } else {
        a
    }
}

/// Effect of one operation record on one account. A locked account ignores
/// every operation.
pub open spec fn app_acct(a: AccountView, l: LineView) -> AccountView {
    if a.locked {
        a
    } else {
        match l.kind {
            InputLineType::Deposit => app_deposit(a, l),
            InputLineType::Withdrawal => app_withdrawal(a, l),
            InputLineType::Dispute => app_dispute(a, l),
            InputLineType::Resolve => app_resolve(a, l),
            InputLineType::Chargeback => app_chargeback(a, l),
        }
    }
}

/// Applying any operation to a well-formed account yields a well-formed
/// account: balances and the derived total stay representable, so the
/// conservation equation `total == available + held` is always exact.
pub proof fn lemma_app_acct_wf(a: AccountView, l: LineView)
    requires
        account_wf(a),
    ensures
        account_wf(app_acct(a, l)),
{
}

/// The status snapshot of account state `a` for client `client`; `total` is
/// derived as `available + held`.
pub open spec fn status_of(a: AccountView, client: ClientId) -> StatusView {
    StatusView {
        client,
        available: a.available,
        held: a.held,
        total: a.available + a.held,
        locked: a.locked,
    }
}

/// A status snapshot row for one client's account.
#[derive(Clone, Copy, PartialEq, Eq, Structural, Debug)]
pub struct AccountStatus {
    pub client: ClientId,
    pub available: Amount,
    pub held: Amount,
    pub total: Amount,
    pub locked: bool,
}

impl View for AccountStatus {
    type V = StatusView;

    open spec fn view(&self) -> StatusView {
        StatusView {
            client: self.client,
            available: self.available@,
            held: self.held@,
            total: self.total@,
            locked: self.locked,
        }
    }
}

/// One client's balances and dispute-eligible transaction history.
pub struct Account {
    available: i64,
    held: i64,
    locked: bool,
    deposits: HashMap<TransactionId, Transaction>,
}

impl View for Account {
    type V = AccountView;

    closed spec fn view(&self) -> AccountView {
        AccountView {
            available: self.available as int,
            held: self.held as int,
            locked: self.locked,
            deposits: self.deposits@.map_values(|t: Transaction| t@),
        }
    }
}

impl Default for Account {
    /// A brand-new account: zero balances, unlocked, empty history.
    fn default() -> (r: Self)
        ensures
            r@ == empty_account(),
    {
        let r = Account {
            available: 0,
            held: 0,
            locked: false,
            deposits: HashMap::new(),
        };
        proof {
            assert(r@.deposits =~= empty_account().deposits);
            assert(r@ =~= empty_account());
        }
        r
    }
}

impl Account {
    /// Apply one operation record, already validated for shape and routed to
    /// this account. A locked account is left byte-for-byte unchanged.
    pub fn process(&mut self, input_line: InputLine)
        requires
            line_valid(input_line@),
        ensures
            final(self)@ == app_acct(old(self)@, input_line@),
            old(self)@.locked ==> *final(self) == *old(self),
            account_wf(old(self)@) ==> account_wf(final(self)@),
    {
        if !self.locked {
            match input_line.kind {
                InputLineType::Deposit => self.deposit(input_line),
                InputLineType::Withdrawal => self.withdrawal(input_line),
                InputLineType::Dispute => self.dispute(input_line),
                InputLineType::Resolve => self.resolve(input_line),
                InputLineType::Chargeback => self.chargeback(input_line),
            }
        }
    }

    /// The status snapshot of this account, with the derived total.
    pub fn get_status(&self, client: ClientId) -> (r: AccountStatus)
        requires
            account_wf(self@),
        ensures
            r@ == status_of(self@, client),
    {
        AccountStatus {
            client,
            available: Amount::from_units(self.available),
            held: Amount::from_units(self.held),
            total: Amount::from_units(self.available + self.held),
            locked: self.locked,
        }
    }

    fn deposit(&mut self, input_line: InputLine)
        requires
            !old(self)@.locked,
            input_line@.kind is Deposit,
            line_valid(input_line@),
        ensures
            final(self)@ == app_deposit(old(self)@, input_line@),
    {
        let amount = input_line.amount.unwrap();
        match self.available.checked_add(amount.units()) {
            Some(new_available) => {
                if new_available.checked_add(self.held).is_some() {
                    self.available = new_available;
                    self.deposits.insert(input_line.id, Transaction::deposit(amount));
                    proof {
                        assert(self@.deposits =~= app_deposit(old(self)@, input_line@).deposits);
                    }
                }
            },
            None => {},
        }
    }

    fn withdrawal(&mut self, input_line: InputLine)
        requires
            !old(self)@.locked,
            input_line@.kind is Withdrawal,
            line_valid(input_line@),
        ensures
            final(self)@ == app_withdrawal(old(self)@, input_line@),
    {
        let amount = input_line.amount.unwrap();
        if self.available >= amount.units() {
            match self.available.checked_sub(amount.units()) {
                Some(new_available) => {
                    if new_available.checked_add(self.held).is_some() {
                        self.available = new_available;
                    }
                },
                None => {},
            }
        }
    }

    fn dispute(&mut self, input_line: InputLine)
        requires
            !old(self)@.locked,
        ensures
            final(self)@ == app_dispute(old(self)@, input_line@),
    {
        match self.deposits.get(&input_line.id) {
            Some(transaction) => {
                let mut transaction = *transaction;
                if !transaction.disputed() {
                    let amount = transaction.amount();
                    match (
                        self.available.checked_sub(amount.units()),
                        self.held.checked_add(amount.units()),
                    ) {
                        (Some(new_available), Some(new_held)) => {
                            transaction.dispute();
                            self.available = new_available;
                            self.held = new_held;
                            self.deposits.insert(input_line.id, transaction);
                            proof {
                                assert(self@.deposits =~= app_dispute(
                                    old(self)@,
                                    input_line@,
                                ).deposits);
                            }
                        },
                        _ => {},
                    }
                }
            },
            None => {},
        }
    }

    fn resolve(&mut self, input_line: InputLine)
        requires
            !old(self)@.locked,
        ensures
            final(self)@ == app_resolve(old(self)@, input_line@),
    {
        match self.deposits.get(&input_line.id) {
            Some(transaction) => {
                let mut transaction = *transaction;
                if transaction.disputed() {
                    let amount = transaction.amount();
                    match (
                        self.available.checked_add(amount.units()),
                        self.held.checked_sub(amount.units()),
                    ) {
                        (Some(new_available), Some(new_held)) => {
                            transaction.undispute();
                            self.available = new_available;
                            self.held = new_held;
                            self.deposits.insert(input_line.id, transaction);
                            proof {
                                assert(self@.deposits =~= app_resolve(
                                    old(self)@,
                                    input_line@,
                                ).deposits);
                            }
                        },
                        _ => {},
                    }
                }
            },
            None => {},
        }
    }

    fn chargeback(&mut self, input_line: InputLine)
        requires
            !old(self)@.locked,
        ensures
            final(self)@ == app_chargeback(old(self)@, input_line@),
    {
        match self.deposits.get(&input_line.id) {
            Some(transaction) => {
                let mut transaction = *transaction;
                if transaction.disputed() {
                    let amount = transaction.amount();
                    match self.held.checked_sub(amount.units()) {
                        Some(new_held) => {
                            if self.available.checked_add(new_held).is_some() {
                                transaction.undispute();
                                self.held = new_held;
                                self.deposits.insert(input_line.id, transaction);
                                self.lock();
                                proof {
                                    assert(self@.deposits =~= app_chargeback(
                                        old(self)@,
                                        input_line@,
                                    ).deposits);
                                }
                            }
                        },
                        None => {},
                    }
                }
            },
            None => {},
        }
    }

    fn lock(&mut self)
        ensures
            final(self)@ == (AccountView { locked: true, ..old(self)@ }),
    {
        self.locked = true;
    }
}

} // verus!
