use vstd::prelude::*;
use crate::model::{Account, Operation, Transaction};

verus! {

/// Takes an amount from one account.
pub struct Withdrawal<A: Account> {
    account: A,
    debit: A::Amount,
}

impl<A: Account> Withdrawal<A> {
    pub closed spec fn account(&self) -> A {
        self.account
    }

    pub closed spec fn debit(&self) -> A::Amount {
        self.debit
    }

    /// The withdrawal of `debit` from `account`.
    pub closed spec fn of(account: A, debit: A::Amount) -> Self {
        Self { account, debit }
    }

    pub fn new(account: A, debit: A::Amount) -> (r: Self)
        ensures
            r.account() == account,
            r.debit() == debit,
            r == Self::of(account, debit),
    {
        Self { account, debit }
    }
}

impl<A: Account> Operation<A> for Withdrawal<A> {
    open spec fn debit_entry(&self) -> Option<(A, A::Amount)> {
        Some((self.account(), self.debit()))
    }

    open spec fn credit_entry(&self) -> Option<(A, A::Amount)> {
        None
    }

    fn debit_account(&self) -> (r: Option<(&A, A::Amount)>) {
        Some((&self.account, self.debit))
    }

    fn credit_account(&self) -> (r: Option<(&A, A::Amount)>) {
        None
    }
}

impl<A: Account> Transaction for Withdrawal<A> {
    type TransactionAccount = A;

    open spec fn debits(&self) -> Seq<(A, A::Amount)> {
        seq![(self.account(), self.debit())]
    }

    open spec fn credits(&self) -> Seq<(A, A::Amount)> {
        Seq::empty()
    }

    fn debit_accounts(&self) -> (r: Vec<(&A, A::Amount)>) {
        let r = vec![(&self.account, self.debit)];
        assert(r@ =~= seq![(&self.account, self.debit)]);
        r
    }

    fn credit_accounts(&self) -> (r: Vec<(&A, A::Amount)>) {
        let r: Vec<(&A, A::Amount)> = Vec::new();
        assert(crate::model::deref_pairs(r@) =~= Seq::<(A, A::Amount)>::empty());
        r
    }
}

/// Adds an amount to one account.
pub struct Deposit<A: Account> {
    account: A,
    credit: A::Amount,
}

impl<A: Account> Deposit<A> {
    pub closed spec fn account(&self) -> A {
        self.account
    }

    pub closed spec fn credit(&self) -> A::Amount {
        self.credit
    }

    /// The deposit of `credit` to `account`.
    pub closed spec fn of(account: A, credit: A::Amount) -> Self {
        Self { account, credit }
    }

    pub fn new(account: A, credit: A::Amount) -> (r: Self)
        ensures
            r.account() == account,
            r.credit() == credit,
            r == Self::of(account, credit),
    {
        Self { account, credit }
    }
}

impl<A: Account> Operation<A> for Deposit<A> {
    open spec fn debit_entry(&self) -> Option<(A, A::Amount)> {
        None
    }

    open spec fn credit_entry(&self) -> Option<(A, A::Amount)> {
        Some((self.account(), self.credit()))
    }

    fn debit_account(&self) -> (r: Option<(&A, A::Amount)>) {
        None
    }

    fn credit_account(&self) -> (r: Option<(&A, A::Amount)>) {
        Some((&self.account, self.credit))
    }
}

impl<A: Account> Transaction for Deposit<A> {
    type TransactionAccount = A;

    open spec fn debits(&self) -> Seq<(A, A::Amount)> {
        Seq::empty()
    }

    open spec fn credits(&self) -> Seq<(A, A::Amount)> {
        seq![(self.account(), self.credit())]
    }

    fn debit_accounts(&self) -> (r: Vec<(&A, A::Amount)>) {
        let r: Vec<(&A, A::Amount)> = Vec::new();
        assert(crate::model::deref_pairs(r@) =~= Seq::<(A, A::Amount)>::empty());
        r
    }

    fn credit_accounts(&self) -> (r: Vec<(&A, A::Amount)>) {
        let r = vec![(&self.account, self.credit)];
        assert(r@ =~= seq![(&self.account, self.credit)]);
        r
    }
}

/// Moves an amount from one account to another.
pub struct Transfer<A: Account> {
    from_account: A,
    to_account: A,
    amount: A::Amount,
}

impl<A: Account> Transfer<A> {
    pub closed spec fn from_account(&self) -> A {
        self.from_account
    }

    pub closed spec fn to_account(&self) -> A {
        self.to_account
    }

    pub closed spec fn amount(&self) -> A::Amount {
        self.amount
    }

    pub fn new(from_account: A, to_account: A, amount: A::Amount) -> (r: Self)
        ensures
            r.from_account() == from_account,
            r.to_account() == to_account,
            r.amount() == amount,
    {
        Self { from_account, to_account, amount }
    }
}

impl<A: Account> Operation<A> for Transfer<A> {
    open spec fn debit_entry(&self) -> Option<(A, A::Amount)> {
        Some((self.from_account(), self.amount()))
    }

    open spec fn credit_entry(&self) -> Option<(A, A::Amount)> {
        Some((self.to_account(), self.amount()))
    }

    fn debit_account(&self) -> (r: Option<(&A, A::Amount)>) {
        Some((&self.from_account, self.amount))
    }

    fn credit_account(&self) -> (r: Option<(&A, A::Amount)>) {
        Some((&self.to_account, self.amount))
    }
}

} // verus!
