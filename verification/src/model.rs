use vstd::prelude::*;
use crate::ledger::{accepted_from, committed, execute, grouped, labelled, refused_in};

verus! {

/// An amount of money: a fixed-width number that can be compared,
/// subtracted and added without leaving its range.
pub trait Money: Copy + core::fmt::Debug {
    /// The amount as a mathematical integer.
    spec fn value(&self) -> int;

    /// `v` is the value of some amount of this type.
    spec fn representable(v: int) -> bool;

    proof fn lemma_value_representable(&self)
        ensures
            Self::representable(self.value()),
    ;

    fn exceeds(&self, other: &Self) -> (r: bool)
        ensures
            r == (self.value() > other.value()),
    ;

    fn checked_less(&self, other: &Self) -> (r: Option<Self>)
        ensures
            match r {
                Some(d) => Self::representable(self.value() - other.value()) && d.value() == self.value() - other.value(),
                None => !Self::representable(self.value() - other.value()),
            },
    ;

    fn checked_more(&self, other: &Self) -> (r: Option<Self>)
        ensures
            match r {
                Some(d) => Self::representable(self.value() + other.value()) && d.value() == self.value() + other.value(),
                None => !Self::representable(self.value() + other.value()),
            },
    ;
}

/// Why an account refused a request.
#[derive(Debug, Clone, Copy, PartialEq, Eq, Structural)]
pub enum AccountError {
    /// The account could not be locked.
    Locked,
    /// A debit asked for more than the balance holds.
    InsufficientFunds,
    /// The new balance would leave the range of the amount type.
    Overflow,
}

/// A change of one account's balance.
#[derive(Debug, Clone, Copy, PartialEq, Eq)]
pub enum BalanceOperation<Amount> {
    Credit(Amount),
    Debit(Amount),
}

/// The step of a transaction at which an account refused.
#[derive(Debug, Clone, Copy, PartialEq, Eq)]
pub enum TransactionOperation<Amount> {
    Lock,
    Balance(BalanceOperation<Amount>),
}

/// The account that refused, the step at which it refused, and why.
#[derive(Debug)]
pub struct TransactionError<T: Account> {
    pub account: T,
    pub operation: TransactionOperation<T::Amount>,
    pub err: AccountError,
}

/// Outcome of one balance operation on a balance: the new balance, or the
/// refusal. A debit is refused when it asks for more than the balance; an
/// operation is refused when the new balance cannot be represented.
pub open spec fn step<T: Money>(balance: int, op: BalanceOperation<T>) -> Result<int, AccountError> {
    match op {
        BalanceOperation::Debit(amount) => if amount.value() > balance {
            Err(AccountError::InsufficientFunds)
        } else if T::representable(balance - amount.value()) {
            Ok(balance - amount.value())
        } else {
            Err(AccountError::Overflow)
        },
        BalanceOperation::Credit(amount) => if T::representable(balance + amount.value()) {
            Ok(balance + amount.value())
        } else {
            Err(AccountError::Overflow)
        },
    }
}

/// `r` and `after` are what applying `op` to the balance `before` gives:
/// on refusal the balance stays as it was.
pub open spec fn applied<T: Money>(
    before: int,
    op: BalanceOperation<T>,
    r: Result<(), AccountError>,
    after: int,
) -> bool {
    match step(before, op) {
        Ok(b) => r is Ok && after == b,
        Err(e) => r == Err::<(), AccountError>(e) && after == before,
    }
}

/// Identifier of an account, compared by its view.
pub trait AccountKey: View + Sized {
    fn same_key(&self, other: &Self) -> (r: bool)
        ensures
            r == (self@ == other@),
    ;

    fn copy_key(&self) -> (r: Self)
        ensures
            r@ == self@,
    ;
}

/// An account held under an exclusive lock, with a balance that changes
/// only locally until it is committed.
pub trait LockedAccount: Sized {
    type Amount: Money;

    /// The balance as the pending operations have left it.
    spec fn balance(&self) -> Self::Amount;

    fn debit(&mut self, amount: Self::Amount) -> (r: Result<(), AccountError>)
        ensures
            applied(old(self).balance().value(), BalanceOperation::Debit(amount), r, final(self).balance().value()),
    ;

    fn credit(&mut self, amount: Self::Amount) -> (r: Result<(), AccountError>)
        ensures
            applied(old(self).balance().value(), BalanceOperation::Credit(amount), r, final(self).balance().value()),
    ;

    /// Writes the pending balance back to the account and releases the lock.
    fn commit(self);
}

/// An account that can be read and locked for a transaction.
pub trait Account: Sized + Clone {
    type AccountId: AccountKey;
    type Amount: Money;
    type LockedAccount<'a>: LockedAccount<Amount = Self::Amount> where Self: 'a;

    /// The identity of the account: accounts with equal keys are the same account.
    spec fn key(&self) -> <Self::AccountId as View>::V;

    /// `locked` is this account held under its lock.
    spec fn holds<'a>(&'a self, locked: Self::LockedAccount<'a>) -> bool;

    fn id(&self) -> (r: Self::AccountId)
        ensures
            r@ == self.key(),
    ;

    fn get_balance(&self) -> Result<Self::Amount, AccountError>;

    fn get_locked<'a>(&'a self) -> (r: Result<Self::LockedAccount<'a>, AccountError>)
        ensures
            r matches Ok(locked) ==> self.holds(locked),
    ;
}

/// A list of (account, amount) entries read through the references.
pub open spec fn deref_pairs<'a, A, T>(pairs: Seq<(&'a A, T)>) -> Seq<(A, T)> {
    pairs.map_values(|p: (&'a A, T)| (*p.0, p.1))
}

/// An optional (account, amount) entry read through the reference.
pub open spec fn deref_entry<'a, A, T>(entry: Option<(&'a A, T)>) -> Option<(A, T)> {
    match entry {
        Some(p) => Some((*p.0, p.1)),
        None => None,
    }
}

/// An operation on accounts: at most one account to debit and at most one
/// account to credit, each with its amount.
pub trait Operation<T: Account> {
    spec fn debit_entry(&self) -> Option<(T, T::Amount)>;

    spec fn credit_entry(&self) -> Option<(T, T::Amount)>;

    fn debit_account(&self) -> (r: Option<(&T, T::Amount)>)
        ensures
            deref_entry(r) == self.debit_entry(),
    ;

    fn credit_account(&self) -> (r: Option<(&T, T::Amount)>)
        ensures
            deref_entry(r) == self.credit_entry(),
    ;
}

/// A set of debits and credits to be applied to accounts all together or
/// not at all.
pub trait Transaction {
    type TransactionAccount: Account;

    spec fn debits(&self) -> Seq<(Self::TransactionAccount, <Self::TransactionAccount as Account>::Amount)>;

    spec fn credits(&self) -> Seq<(Self::TransactionAccount, <Self::TransactionAccount as Account>::Amount)>;

    fn debit_accounts(&self) -> (r: Vec<(&Self::TransactionAccount, <Self::TransactionAccount as Account>::Amount)>)
        ensures
            deref_pairs(r@) == self.debits(),
    ;

    fn credit_accounts(&self) -> (r: Vec<(&Self::TransactionAccount, <Self::TransactionAccount as Account>::Amount)>)
        ensures
            deref_pairs(r@) == self.credits(),
    ;

    /// Locks every account the transaction touches, runs each account's
    /// debits and then its credits on its locked balance, and commits all
    /// accounts only when every operation was accepted. A refusal names the
    /// account and the step that was refused.
    fn apply<'s>(&'s self) -> (r: Result<(), TransactionError<Self::TransactionAccount>>)
        ensures
            r matches Err(e) ==> refused_in(grouped(labelled(self.debits(), self.credits())), e),
            r is Ok ==> exists|balances: Seq<int>| accepted_from(grouped(labelled(self.debits(), self.credits())), balances),
            r is Ok ==> exists|
                start: Seq<<Self::TransactionAccount as Account>::LockedAccount<'s>>,
                finals: Seq<<Self::TransactionAccount as Account>::LockedAccount<'s>>,
            | committed(grouped(labelled(self.debits(), self.credits())), start, finals),
            self.debits().len() == 0 && self.credits().len() == 0 ==> r is Ok,
    {
        execute(self.debit_accounts(), self.credit_accounts())
    }
}

} // verus!
