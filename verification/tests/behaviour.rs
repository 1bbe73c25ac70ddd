use accounts::{
    Account, AccountError, AccountKey, BalanceOperation, Deposit, LockedAccount,
    MultipleOperationTransaction, Operation, PairedOperationTransaction, SimpleAccount,
    SingleOperationTransaction, Transaction, TransactionError, TransactionOperation, Transfer,
    Withdrawal,
};

/// An account whose lock is always refused.
#[derive(Clone, Debug)]
struct Frozen(u64);

/// A locked `Frozen` account: there is none, since its lock is always refused.
enum NeverHeld {}

impl LockedAccount for NeverHeld {
    type Amount = u64;

    fn balance(&self) -> u64 {
        match *self {}
    }
    fn debit(&mut self, _amount: u64) -> Result<(), AccountError> {
        match *self {}
    }
    fn credit(&mut self, _amount: u64) -> Result<(), AccountError> {
        match *self {}
    }
    fn commit(self) {
        match self {}
    }
}

impl Account for Frozen {
    type AccountId = u64;
    type Amount = u64;
    type LockedAccount<'a> = NeverHeld;

    fn key(&self) -> u64 {
        self.0
    }

    fn holds<'a>(&'a self, _locked: NeverHeld) -> bool {
        true
    }

    fn id(&self) -> u64 {
        self.0
    }
    fn get_balance(&self) -> Result<u64, AccountError> {
        Err(AccountError::Locked)
    }
    fn get_locked<'a>(&'a self) -> Result<NeverHeld, AccountError> {
        Err(AccountError::Locked)
    }
}

#[test]
fn lock_refused_on_a_debit_is_reported_as_the_lock() {
    let res = Withdrawal::new(Frozen(1), 5).apply();
    assert!(matches!(
        res,
        Err(TransactionError { account: Frozen(1), operation: TransactionOperation::Lock, err: AccountError::Locked })
    ));
}

#[test]
fn lock_refused_on_a_credit_is_reported_as_that_credit() {
    let res = Deposit::new(Frozen(2), 5).apply();
    assert!(matches!(
        res,
        Err(TransactionError {
            account: Frozen(2),
            operation: TransactionOperation::Balance(BalanceOperation::Credit(5)),
            err: AccountError::Locked,
        })
    ));
}

#[test]
fn overflowing_credit_is_refused_and_changes_nothing() {
    let a = SimpleAccount::new("a", u64::MAX - 1);
    let res = Deposit::new(a.clone(), 2).apply();
    assert!(matches!(
        res,
        Err(TransactionError {
            operation: TransactionOperation::Balance(BalanceOperation::Credit(2)),
            err: AccountError::Overflow,
            ..
        })
    ));
    assert!(matches!(a.get_balance(), Ok(b) if b == u64::MAX - 1));
    assert!(matches!(Deposit::new(a.clone(), 1).apply(), Ok(())));
    assert!(matches!(a.get_balance(), Ok(u64::MAX)));
}

#[test]
fn refused_transaction_commits_nothing() {
    let alice = SimpleAccount::new("alice", 10);
    let bob = SimpleAccount::new("bob", 20);
    let res = PairedOperationTransaction::new(
        Deposit::new(alice.clone(), 50),
        Withdrawal::new(bob.clone(), 1000),
    )
    .apply();
    assert!(matches!(
        res,
        Err(TransactionError {
            operation: TransactionOperation::Balance(BalanceOperation::Debit(1000)),
            err: AccountError::InsufficientFunds,
            ..
        })
    ));
    assert!(matches!(alice.get_balance(), Ok(10)));
    assert!(matches!(bob.get_balance(), Ok(20)));
}

#[test]
fn debits_run_before_credits_on_the_same_account() {
    let a = SimpleAccount::new("a", 0);
    let res = PairedOperationTransaction::new(Deposit::new(a.clone(), 50), Withdrawal::new(a.clone(), 30)).apply();
    assert!(matches!(
        res,
        Err(TransactionError {
            operation: TransactionOperation::Balance(BalanceOperation::Debit(30)),
            err: AccountError::InsufficientFunds,
            ..
        })
    ));
    assert!(matches!(a.get_balance(), Ok(0)));
    let b = SimpleAccount::new("b", 30);
    assert!(matches!(
        PairedOperationTransaction::new(Deposit::new(b.clone(), 50), Withdrawal::new(b.clone(), 30)).apply(),
        Ok(())
    ));
    assert!(matches!(b.get_balance(), Ok(50)));
}

#[test]
fn first_refusing_account_in_order_of_appearance_is_reported() {
    let a = SimpleAccount::new("a", 1);
    let b = SimpleAccount::new("b", 1);
    let res = PairedOperationTransaction::new(Withdrawal::new(a.clone(), 5), Withdrawal::new(b.clone(), 7)).apply();
    match res {
        Err(TransactionError { account, operation, err }) => {
            assert_eq!(account.id(), "a");
            assert_eq!(operation, TransactionOperation::Balance(BalanceOperation::Debit(5)));
            assert_eq!(err, AccountError::InsufficientFunds);
        },
        Ok(()) => panic!("the withdrawal must be refused"),
    }
}

#[test]
fn transfers_keep_the_total() {
    let a = SimpleAccount::new("a", 70);
    let b = SimpleAccount::new("b", 30);
    let c = SimpleAccount::new("c", 10);
    assert!(matches!(
        MultipleOperationTransaction::new(vec![
            Box::new(Transfer::new(a.clone(), b.clone(), 60)),
            Box::new(Transfer::new(b.clone(), c.clone(), 25)),
            Box::new(Transfer::new(c.clone(), a.clone(), 5)),
        ])
        .apply(),
        Ok(())
    ));
    let total = a.get_balance().unwrap() + b.get_balance().unwrap() + c.get_balance().unwrap();
    assert_eq!(total, 110);
    assert_eq!(a.get_balance().unwrap(), 15);
    assert_eq!(b.get_balance().unwrap(), 65);
    assert_eq!(c.get_balance().unwrap(), 30);
}

#[test]
fn deposit_then_withdrawal_of_the_same_amount_restores() {
    let a = SimpleAccount::new("a", 42);
    assert!(matches!((a.clone() + 17.into()).apply(), Ok(())));
    assert!(matches!(a.get_balance(), Ok(59)));
    assert!(matches!((a.clone() - 17.into()).apply(), Ok(())));
    assert!(matches!(a.get_balance(), Ok(42)));
}

#[test]
fn transfer_to_itself_changes_nothing() {
    let a = SimpleAccount::new("a", 5);
    assert!(matches!(SingleOperationTransaction::new(Transfer::new(a.clone(), a.clone(), 5)).apply(), Ok(())));
    assert!(matches!(a.get_balance(), Ok(5)));
    assert!(matches!(
        SingleOperationTransaction::new(Transfer::new(a.clone(), a.clone(), 6)).apply(),
        Err(TransactionError { err: AccountError::InsufficientFunds, .. })
    ));
}

#[test]
fn accounts_with_equal_ids_are_one_account() {
    let first = SimpleAccount::new("same", 10);
    let second = SimpleAccount::new("same", 0);
    assert!(matches!(
        SingleOperationTransaction::new(Transfer::new(first.clone(), second.clone(), 10)).apply(),
        Ok(())
    ));
    assert!(matches!(first.get_balance(), Ok(10)));
    assert!(matches!(second.get_balance(), Ok(0)));
}

#[test]
fn empty_transaction_succeeds() {
    let ops: Vec<Box<dyn Operation<std::sync::Arc<SimpleAccount<&str, i32>>>>> = Vec::new();
    assert!(matches!(MultipleOperationTransaction::new(ops).apply(), Ok(())));
}

#[test]
fn operations_name_their_accounts() {
    let a = SimpleAccount::new("a", 1);
    let b = SimpleAccount::new("b", 2);
    let t = Transfer::new(a.clone(), b.clone(), 3);
    assert!(matches!(t.debit_account(), Some((x, 3)) if x.id() == "a"));
    assert!(matches!(t.credit_account(), Some((x, 3)) if x.id() == "b"));
    let w = Withdrawal::new(a.clone(), 4);
    assert!(matches!(w.debit_account(), Some((x, 4)) if x.id() == "a"));
    assert!(w.credit_account().is_none());
    let d = Deposit::new(b.clone(), 5);
    assert!(d.debit_account().is_none());
    assert!(matches!(d.credit_account(), Some((x, 5)) if x.id() == "b"));
    let p = PairedOperationTransaction::new(Transfer::new(a.clone(), b.clone(), 1), Deposit::new(a.clone(), 2));
    let debits: Vec<(&str, u64)> = p.debit_accounts().iter().map(|(x, n)| (x.id(), *n)).collect();
    let credits: Vec<(&str, u64)> = p.credit_accounts().iter().map(|(x, n)| (x.id(), *n)).collect();
    assert_eq!(debits, vec![("a", 1)]);
    assert_eq!(credits, vec![("b", 1), ("a", 2)]);
}

#[test]
fn keys_compare_by_content() {
    let owned = String::from("alice");
    let borrowed: &str = owned.as_str();
    assert!("alice".same_key(&borrowed));
    assert!(!"alice".same_key(&"alicf"));
    assert_eq!("bob".copy_key(), "bob");
    assert!(7u64.same_key(&7));
    assert!(!7u64.same_key(&8));
}

#[test]
fn numeric_ids_work_as_account_ids() {
    let a = SimpleAccount::new(1u64, 10);
    let b = SimpleAccount::new(2u64, 0);
    assert_eq!(a.id(), 1);
    assert!(matches!(SingleOperationTransaction::new(Transfer::new(a.clone(), b.clone(), 4)).apply(), Ok(())));
    assert!(matches!(a.get_balance(), Ok(6)));
    assert!(matches!(b.get_balance(), Ok(4)));
}

#[test]
fn locked_simple_account_runs_operations_locally_until_commit() {
    let a = SimpleAccount::new("a", 10);
    {
        let mut locked = a.get_locked().unwrap();
        assert!(matches!(locked.debit(11), Err(AccountError::InsufficientFunds)));
        assert!(matches!(locked.debit(4), Ok(())));
        assert!(matches!(locked.credit(u64::MAX), Err(AccountError::Overflow)));
        assert!(matches!(locked.credit(1), Ok(())));
        locked.commit();
    }
    assert!(matches!(a.get_balance(), Ok(7)));
    {
        let mut locked = a.get_locked().unwrap();
        assert!(matches!(locked.debit(7), Ok(())));
    }
    assert!(matches!(a.get_balance(), Ok(7)));
}

#[test]
fn held_lock_refuses_reading_locking_and_applying() {
    let a = SimpleAccount::new("a", 10u64);
    let held = a.get_locked().unwrap();
    assert!(matches!(a.get_balance(), Err(AccountError::Locked)));
    assert!(matches!(a.get_locked(), Err(AccountError::Locked)));
    assert!(matches!(
        Withdrawal::new(a.clone(), 1).apply(),
        Err(TransactionError { operation: TransactionOperation::Lock, err: AccountError::Locked, .. })
    ));
    held.commit();
    assert!(matches!(a.get_balance(), Ok(10)));
}

#[test]
fn signed_amounts_refuse_a_balance_out_of_range() {
    let a = SimpleAccount::new("a", i32::MAX);
    let res = Withdrawal::new(a.clone(), -1).apply();
    assert!(matches!(
        res,
        Err(TransactionError {
            operation: TransactionOperation::Balance(BalanceOperation::Debit(-1)),
            err: AccountError::Overflow,
            ..
        })
    ));
    assert!(matches!(a.get_balance(), Ok(i32::MAX)));
    assert!(matches!(Withdrawal::new(a.clone(), -1).apply(), Err(_)));
    let b = SimpleAccount::new("b", -5i64);
    assert!(matches!(Deposit::new(b.clone(), 3).apply(), Ok(())));
    assert!(matches!(b.get_balance(), Ok(-2)));
    assert!(matches!(
        Withdrawal::new(b.clone(), 3).apply(),
        Err(TransactionError { err: AccountError::InsufficientFunds, .. })
    ));
}
