//! Composable transactions over an account store.
//!
//! A transaction is an immutable description of one or more balance
//! mutations. Applying one is a one-shot mutation attempt: sub-steps run
//! in order and a failing step stops the rest, leaving whatever partial
//! effect the earlier steps had (there is no rollback).

use vstd::prelude::*;
use crate::errors::BankError;
use crate::storage::Balance;
use crate::storage::Storage;
use crate::storage::deposit_fits;
use crate::storage::deposit_ok;
use crate::storage::deposit_post;
use crate::storage::withdraw_err;
use crate::storage::withdraw_fits;
use crate::storage::withdraw_ok;
use crate::storage::withdraw_post;

verus! {

/// A balance mutation that can be applied against a store.
///
/// Each implementor describes its own effect through the three spec
/// functions: whether it succeeds on a given store, the store it leaves
/// behind (including the partial effect of a failed multi-step
/// transaction), and the error it reports on failure. `no_overflow`
/// bounds the arithmetic so the mutation fits the balance type.
pub trait Transaction {
    /// The balances this transaction touches stay within the balance type.
    spec fn no_overflow(&self, pre: Map<Seq<char>, int>) -> bool;

    /// Whether applying to a store with contents `pre` succeeds.
    spec fn succeeds(&self, pre: Map<Seq<char>, int>) -> bool;

    /// The store contents left behind, on success or failure.
    spec fn post_state(&self, pre: Map<Seq<char>, int>) -> Map<Seq<char>, int>;

    /// The error reported when the transaction does not succeed.
    spec fn error_of(&self, pre: Map<Seq<char>, int>) -> BankError;

    /// Mutates the store in place; `Ok` exactly when the whole
    /// transaction succeeded.
    fn apply(&self, accounts: &mut Storage) -> (r: Result<(), BankError>)
        requires
            old(accounts).wf(),
            self.no_overflow(old(accounts)@),
        ensures
            final(accounts).wf(),
            final(accounts)@ == self.post_state(old(accounts)@),
            r is Ok <==> self.succeeds(old(accounts)@),
            !self.succeeds(old(accounts)@) ==> r == Result::<(), BankError>::Err(
                self.error_of(old(accounts)@),
            ),
    ;
}

/// Adds an amount to one account's balance.
pub struct Deposit {
    pub account: String,
    pub amount: Balance,
}

impl Deposit {
    /// Describes a deposit of `amount` into `account`.
    pub fn new(account: &str, amount: Balance) -> (r: Self)
        ensures
            r.account@ == account@,
            r.amount == amount,
    {
        Self { account: account.to_owned(), amount }
    }
}

impl Transaction for Deposit {
    open spec fn no_overflow(&self, pre: Map<Seq<char>, int>) -> bool {
        deposit_fits(pre, self.account@, self.amount@)
    }

    open spec fn succeeds(&self, pre: Map<Seq<char>, int>) -> bool {
        deposit_ok(pre, self.account@)
    }

    open spec fn post_state(&self, pre: Map<Seq<char>, int>) -> Map<Seq<char>, int> {
        deposit_post(pre, self.account@, self.amount@)
    }

    open spec fn error_of(&self, pre: Map<Seq<char>, int>) -> BankError {
        BankError::UserNotFound
    }

    fn apply(&self, accounts: &mut Storage) -> (r: Result<(), BankError>) {
        accounts.deposit(&self.account, self.amount)
    }
}

/// Subtracts an amount from one account's balance, conditionally.
pub struct Withdraw {
    pub account: String,
    pub amount: Balance,
}

impl Withdraw {
    /// Describes a withdrawal of `amount` from `account`.
    pub fn new(account: &str, amount: Balance) -> (r: Self)
        ensures
            r.account@ == account@,
            r.amount == amount,
    {
        Self { account: account.to_owned(), amount }
    }
}

impl Transaction for Withdraw {
    open spec fn no_overflow(&self, pre: Map<Seq<char>, int>) -> bool {
        withdraw_fits(pre, self.account@, self.amount@)
    }

    open spec fn succeeds(&self, pre: Map<Seq<char>, int>) -> bool {
        withdraw_ok(pre, self.account@, self.amount@)
    }

    open spec fn post_state(&self, pre: Map<Seq<char>, int>) -> Map<Seq<char>, int> {
        withdraw_post(pre, self.account@, self.amount@)
    }

    open spec fn error_of(&self, pre: Map<Seq<char>, int>) -> BankError {
        withdraw_err(pre, self.account@)
    }

    fn apply(&self, accounts: &mut Storage) -> (r: Result<(), BankError>) {
        accounts.withdraw(&self.account, self.amount)
    }
}

/// Moves an amount from one account to another: a withdrawal from `from`
/// followed by a deposit into `to`.
///
/// The two steps are sequential with no rollback: when the withdrawal
/// succeeds but `to` is absent, the store keeps the debit and the
/// withdrawn amount is lost.
pub struct Transfer {
    pub from: String,
    pub to: String,
    pub amount: Balance,
}

impl Transfer {
    /// Describes a transfer of `amount` from `from` to `to`.
    pub fn new(from: &str, to: &str, amount: Balance) -> (r: Self)
        ensures
            r.from@ == from@,
            r.to@ == to@,
            r.amount == amount,
    {
        Self { from: from.to_owned(), to: to.to_owned(), amount }
    }
}

impl Transaction for Transfer {
    open spec fn no_overflow(&self, pre: Map<Seq<char>, int>) -> bool {
        &&& withdraw_fits(pre, self.from@, self.amount@)
        &&& (withdraw_ok(pre, self.from@, self.amount@) ==> deposit_fits(
            withdraw_post(pre, self.from@, self.amount@),
            self.to@,
            self.amount@,
        ))
    }

    open spec fn succeeds(&self, pre: Map<Seq<char>, int>) -> bool {
        &&& withdraw_ok(pre, self.from@, self.amount@)
        &&& deposit_ok(withdraw_post(pre, self.from@, self.amount@), self.to@)
    }

    open spec fn post_state(&self, pre: Map<Seq<char>, int>) -> Map<Seq<char>, int> {
        if withdraw_ok(pre, self.from@, self.amount@) {
            deposit_post(withdraw_post(pre, self.from@, self.amount@), self.to@, self.amount@)
        } else {
            pre
        }
    }

    open spec fn error_of(&self, pre: Map<Seq<char>, int>) -> BankError {
        if !withdraw_ok(pre, self.from@, self.amount@) {
            withdraw_err(pre, self.from@)
        } else {
            BankError::UserNotFound
        }
    }

    fn apply(&self, accounts: &mut Storage) -> (r: Result<(), BankError>) {
        match accounts.withdraw(&self.from, self.amount) {
            Ok(()) => accounts.deposit(&self.to, self.amount),
            Err(e) => Err(e),
        }
    }
}

/// Two transactions applied in sequence: the second runs only when the
/// first succeeded.
pub struct TxCombinator<T1, T2> {
    pub t1: T1,
    pub t2: T2,
}

impl<T1: Transaction, T2: Transaction> TxCombinator<T1, T2> {
    /// Combines two transactions into one, applied left to right.
    pub fn new(t1: T1, t2: T2) -> (r: Self)
        ensures
            r.t1 == t1,
            r.t2 == t2,
    {
        Self { t1, t2 }
    }
}

impl<T1: Transaction, T2: Transaction> Transaction for TxCombinator<T1, T2> {
    open spec fn no_overflow(&self, pre: Map<Seq<char>, int>) -> bool {
        &&& self.t1.no_overflow(pre)
        &&& (self.t1.succeeds(pre) ==> self.t2.no_overflow(self.t1.post_state(pre)))
    }

    open spec fn succeeds(&self, pre: Map<Seq<char>, int>) -> bool {
        &&& self.t1.succeeds(pre)
        &&& self.t2.succeeds(self.t1.post_state(pre))
    }

    open spec fn post_state(&self, pre: Map<Seq<char>, int>) -> Map<Seq<char>, int> {
        if self.t1.succeeds(pre) {
            self.t2.post_state(self.t1.post_state(pre))
        } else {
            self.t1.post_state(pre)
        }
    }

    open spec fn error_of(&self, pre: Map<Seq<char>, int>) -> BankError {
        if !self.t1.succeeds(pre) {
            self.t1.error_of(pre)
        } else {
            self.t2.error_of(self.t1.post_state(pre))
        }
    }

    fn apply(&self, accounts: &mut Storage) -> (r: Result<(), BankError>) {
        match self.t1.apply(accounts) {
            Ok(()) => self.t2.apply(accounts),
            Err(e) => Err(e),
        }
    }
}

/// A transfer between two existing accounts with sufficient funds
/// succeeds, debits the source by the amount, credits the destination
/// by the amount, and conserves their combined balance.
pub proof fn lemma_transfer_conserves(t: Transfer, pre: Map<Seq<char>, int>)
    requires
        pre.contains_key(t.from@),
        pre.contains_key(t.to@),
        pre[t.from@] >= t.amount@,
        t.from@ != t.to@,
    ensures
        t.succeeds(pre),
        t.post_state(pre)[t.from@] == pre[t.from@] - t.amount@,
        t.post_state(pre)[t.to@] == pre[t.to@] + t.amount@,
        t.post_state(pre)[t.from@] + t.post_state(pre)[t.to@] == pre[t.from@] + pre[t.to@],
{
}

/// A transfer whose destination does not exist fails with
/// `UserNotFound`, yet the source has already been debited by the
/// amount: the withdrawn funds are lost (the documented non-atomicity).
pub proof fn lemma_transfer_lossy(t: Transfer, pre: Map<Seq<char>, int>)
    requires
        pre.contains_key(t.from@),
        pre[t.from@] >= t.amount@,
        !pre.contains_key(t.to@),
    ensures
        !t.succeeds(pre),
        t.error_of(pre) == BankError::UserNotFound,
        t.post_state(pre)[t.from@] == pre[t.from@] - t.amount@,
        !t.post_state(pre).contains_key(t.to@),
{
}

} // verus!
