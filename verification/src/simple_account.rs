use vstd::prelude::*;
use std::sync::Arc;
use std::sync::RwLock;
use std::sync::RwLockWriteGuard;
use crate::model::{Account, AccountError, AccountKey, LockedAccount, Money};
use crate::operations::{Deposit, Withdrawal};

verus! {

/// Declares `std::sync::RwLock` to Verus as an opaque type.
#[verifier::external_type_specification]
#[verifier::external_body]
#[verifier::reject_recursive_types(T)]
pub struct ExRwLock<T: ?Sized>(RwLock<T>);

/// Declares `std::sync::RwLockWriteGuard` to Verus as an opaque type.
#[verifier::external_type_specification]
#[verifier::external_body]
#[verifier::reject_recursive_types(T)]
pub struct ExRwLockWriteGuard<'a, T: ?Sized + 'a>(RwLockWriteGuard<'a, T>);

/// Calls `std::sync::RwLock::new`. Nothing is claimed: what the lock holds
/// is shared state that changes behind `&` references, so it is not a
/// value that a contract could name.
#[verifier::external_body]
fn new_balance_lock<T>(balance: T) -> RwLock<T> {
    RwLock::new(balance)
}

/// Calls `std::sync::RwLock::try_read`, which never blocks, and copies the
/// value out of the guard; `None` when the lock is held for writing
/// (`WouldBlock`) or is poisoned. Nothing is claimed of the value read.
#[verifier::external_body]
fn read_balance<T: Copy>(lock: &RwLock<T>) -> Option<T> {
    match lock.try_read() {
        Ok(guard) => Some(*guard),
        Err(_) => None,
    }
}

/// Calls `std::sync::RwLock::try_write`, which never blocks, and returns the
/// value held together with the guard; `None` when the lock is already held
/// (`WouldBlock`) or is poisoned. Nothing is claimed of the value read.
#[verifier::external_body]
fn write_balance_lock<'a, T: Copy>(lock: &'a RwLock<T>) -> Option<(T, RwLockWriteGuard<'a, T>)> {
    match lock.try_write() {
        Ok(guard) => {
            let balance = *guard;
            Some((balance, guard))
        },
        Err(_) => None,
    }
}

/// Stores `balance` through the write guard (`DerefMut` of
/// `std::sync::RwLockWriteGuard`) and drops the guard, which releases the
/// lock. The effect is on shared state, so nothing is claimed.
#[verifier::external_body]
fn store_and_release<'a, T>(guard: RwLockWriteGuard<'a, T>, balance: T) {
    let mut guard = guard;
    *guard = balance;
}

/// Calls `<str as PartialEq>::eq`; claims that two string slices are equal
/// exactly when they hold the same characters, as std documents.
#[verifier::external_body]
fn str_eq(a: &str, b: &str) -> (r: bool)
    ensures
        r == (a@ == b@),
{
    a == b
}

impl<'s> AccountKey for &'s str {
    fn same_key(&self, other: &Self) -> (r: bool) {
        str_eq(*self, *other)
    }

    fn copy_key(&self) -> (r: Self) {
        *self
    }
}

impl AccountKey for u64 {
    fn same_key(&self, other: &Self) -> (r: bool) {
        *self == *other
    }

    fn copy_key(&self) -> (r: Self) {
        *self
    }
}

/// An account whose balance sits behind a reader-writer lock, shared
/// through an `Arc`. The lock is never waited for: when it is already held,
/// reading or locking the account is refused with `AccountError::Locked`.
#[derive(Debug)]
#[verifier::reject_recursive_types(Amount)]
pub struct SimpleAccount<AccountId: AccountKey, Amount: Money> {
    id: AccountId,
    balance: RwLock<Amount>,
}

impl<AccountId: AccountKey, Amount: Money> SimpleAccount<AccountId, Amount> {
    pub closed spec fn account_id(&self) -> AccountId {
        self.id
    }

    pub fn new(id: AccountId, balance: Amount) -> (r: Arc<Self>)
        ensures
            r.account_id() == id,
    {
        Arc::new(Self { id, balance: new_balance_lock(balance) })
    }
}

impl<AccountId: AccountKey + 'static, Amount: Money + 'static> Account for Arc<SimpleAccount<AccountId, Amount>> {
    type AccountId = AccountId;
    type Amount = Amount;
    type LockedAccount<'a> = LockedSimpleAccount<'a, Self, Amount>;

    open spec fn key(&self) -> <AccountId as View>::V {
        self.account_id()@
    }

    open spec fn holds<'a>(&'a self, locked: LockedSimpleAccount<'a, Self, Amount>) -> bool {
        locked.account() == *self
    }

    fn id(&self) -> (r: AccountId) {
        self.id.copy_key()
    }

    fn get_balance(&self) -> (r: Result<Amount, AccountError>)
        ensures
            r matches Err(e) ==> e == AccountError::Locked,
    {
        match read_balance(&self.balance) {
            Some(b) => Ok(b),
            None => Err(AccountError::Locked),
        }
    }

    fn get_locked<'a>(&'a self) -> (r: Result<LockedSimpleAccount<'a, Self, Amount>, AccountError>)
        ensures
            r matches Err(e) ==> e == AccountError::Locked,
    {
        match write_balance_lock(&self.balance) {
            Some((balance, guard)) => Ok(LockedSimpleAccount { account: self, non_commited_balance: balance, guard }),
            None => Err(AccountError::Locked),
        }
    }
}

/// A simple account held under its write lock, with the balance that the
/// pending operations have left.
#[derive(Debug)]
#[verifier::reject_recursive_types(Amount)]
pub struct LockedSimpleAccount<'a, A, Amount: Money> {
    account: &'a A,
    non_commited_balance: Amount,
    guard: RwLockWriteGuard<'a, Amount>,
}

impl<'a, A, Amount: Money> LockedSimpleAccount<'a, A, Amount> {
    pub closed spec fn account(&self) -> A {
        *self.account
    }

    /// The pending balance has been handed, through the write guard, to the
    /// lock of the account: the store that `commit` makes, with exactly this
    /// balance, whatever its value.
    pub closed spec fn writes_back(self) -> bool {
        call_ensures(store_and_release::<Amount>, (self.guard, self.non_commited_balance), ())
    }
}

impl<'a, A, Amount: Money> LockedAccount for LockedSimpleAccount<'a, A, Amount> {
    type Amount = Amount;

    closed spec fn balance(&self) -> Amount {
        self.non_commited_balance
    }

    fn debit(&mut self, amount: Amount) -> (r: Result<(), AccountError>) {
        proof {
            self.non_commited_balance.lemma_value_representable();
        }
        if amount.exceeds(&self.non_commited_balance) {
            Err(AccountError::InsufficientFunds)
        } else {
            match self.non_commited_balance.checked_less(&amount) {
                Some(b) => {
                    self.non_commited_balance = b;
                    Ok(())
                },
                None => Err(AccountError::Overflow),
            }
        }
    }

    fn credit(&mut self, amount: Amount) -> (r: Result<(), AccountError>) {
        match self.non_commited_balance.checked_more(&amount) {
            Some(b) => {
                self.non_commited_balance = b;
                Ok(())
            },
            None => Err(AccountError::Overflow),
        }
    }

    fn commit(self)
        ensures
            self.writes_back(),
    {
        store_and_release(self.guard, self.non_commited_balance);
    }
}

/// An amount, to be added to or taken from an account with `+` and `-`.
pub struct AmountWrapper<Amount>(Amount);

impl<Amount> AmountWrapper<Amount> {
    pub closed spec fn amount(&self) -> Amount {
        self.0
    }

    /// The wrapper of `amount`.
    pub closed spec fn wrap(amount: Amount) -> Self {
        AmountWrapper(amount)
    }
}

impl<Amount> From<Amount> for AmountWrapper<Amount> {
    fn from(amount: Amount) -> (r: Self)
        ensures
            r.amount() == amount,
            r == Self::wrap(amount),
    {
        Self(amount)
    }
}

impl<Amount> vstd::std_specs::convert::FromSpecImpl<Amount> for AmountWrapper<Amount> {
    open spec fn obeys_from_spec() -> bool {
        true
    }

    open spec fn from_spec(amount: Amount) -> Self {
        AmountWrapper::wrap(amount)
    }
}

impl<AccountId: AccountKey + 'static, Amount: Money + 'static> std::ops::Add<AmountWrapper<Amount>> for Arc<SimpleAccount<AccountId, Amount>> {
    type Output = Deposit<Self>;

    fn add(self, credit: AmountWrapper<Amount>) -> (r: Deposit<Self>)
        ensures
            r.account() == self,
            r.credit() == credit.amount(),
    {
        Deposit::new(self, credit.0)
    }
}

impl<AccountId: AccountKey + 'static, Amount: Money + 'static> vstd::std_specs::ops::AddSpecImpl<AmountWrapper<Amount>> for Arc<SimpleAccount<AccountId, Amount>> {
    open spec fn obeys_add_spec() -> bool {
        true
    }

    open spec fn add_req(self, credit: AmountWrapper<Amount>) -> bool {
        true
    }

    open spec fn add_spec(self, credit: AmountWrapper<Amount>) -> Deposit<Self> {
        Deposit::of(self, credit.amount())
    }
}

impl<AccountId: AccountKey + 'static, Amount: Money + 'static> std::ops::Sub<AmountWrapper<Amount>> for Arc<SimpleAccount<AccountId, Amount>> {
    type Output = Withdrawal<Self>;

    fn sub(self, debit: AmountWrapper<Amount>) -> (r: Withdrawal<Self>)
        ensures
            r.account() == self,
            r.debit() == debit.amount(),
    {
        Withdrawal::new(self, debit.0)
    }
}

impl<AccountId: AccountKey + 'static, Amount: Money + 'static> vstd::std_specs::ops::SubSpecImpl<AmountWrapper<Amount>> for Arc<SimpleAccount<AccountId, Amount>> {
    open spec fn obeys_sub_spec() -> bool {
        true
    }

    open spec fn sub_req(self, debit: AmountWrapper<Amount>) -> bool {
        true
    }

    open spec fn sub_spec(self, debit: AmountWrapper<Amount>) -> Withdrawal<Self> {
        Withdrawal::of(self, debit.amount())
    }
}

} // verus!
