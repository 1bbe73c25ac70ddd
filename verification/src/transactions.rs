use vstd::prelude::*;
use std::marker::PhantomData;
use crate::model::{deref_entry, deref_pairs, Account, Operation, Transaction};

verus! {

/// The entries of an optional entry: none or one.
pub open spec fn entries_of<A, T>(entry: Option<(A, T)>) -> Seq<(A, T)> {
    match entry {
        Some(p) => seq![p],
        None => Seq::empty(),
    }
}

/// Appends an optional entry to a list of entries.
fn push_entry<'a, A, T>(entries: &mut Vec<(&'a A, T)>, entry: Option<(&'a A, T)>)
    ensures
        deref_pairs(final(entries)@) == deref_pairs(old(entries)@) + entries_of(deref_entry(entry)),
{
    let ghost before = entries@;
    match entry {
        Some(p) => {
            entries.push(p);
            assert(deref_pairs(entries@) =~= deref_pairs(before) + entries_of(deref_entry(entry)));
        },
        None => {
            assert(deref_pairs(entries@) =~= deref_pairs(before) + entries_of(deref_entry(entry)));
        },
    }
}

/// A transaction made of one operation.
#[verifier::reject_recursive_types(A)]
pub struct SingleOperationTransaction<T, A> where T: Operation<A>, A: Account {
    operation: T,
    marker: PhantomData<A>,
}

impl<T: Operation<A>, A: Account> SingleOperationTransaction<T, A> {
    pub closed spec fn operation(&self) -> T {
        self.operation
    }

    pub fn new(operation: T) -> (r: Self)
        ensures
            r.operation() == operation,
    {
        Self { operation, marker: PhantomData }
    }
}

impl<T: Operation<A>, A: Account> Transaction for SingleOperationTransaction<T, A> {
    type TransactionAccount = A;

    open spec fn debits(&self) -> Seq<(A, A::Amount)> {
        entries_of(self.operation().debit_entry())
    }

    open spec fn credits(&self) -> Seq<(A, A::Amount)> {
        entries_of(self.operation().credit_entry())
    }

    fn debit_accounts(&self) -> (r: Vec<(&A, A::Amount)>) {
        let mut r: Vec<(&A, A::Amount)> = Vec::new();
        push_entry(&mut r, self.operation.debit_account());
        assert(deref_pairs(r@) =~= self.debits());
        r
    }

    fn credit_accounts(&self) -> (r: Vec<(&A, A::Amount)>) {
        let mut r: Vec<(&A, A::Amount)> = Vec::new();
        push_entry(&mut r, self.operation.credit_account());
        assert(deref_pairs(r@) =~= self.credits());
        r
    }
}

/// A transaction made of two operations.
#[verifier::reject_recursive_types(A)]
pub struct PairedOperationTransaction<T1, T2, A> where T1: Operation<A>, T2: Operation<A>, A: Account {
    first_operation: T1,
    second_operation: T2,
    marker: PhantomData<A>,
}

impl<T1: Operation<A>, T2: Operation<A>, A: Account> PairedOperationTransaction<T1, T2, A> {
    pub closed spec fn first_operation(&self) -> T1 {
        self.first_operation
    }

    pub closed spec fn second_operation(&self) -> T2 {
        self.second_operation
    }

    pub fn new(first_operation: T1, second_operation: T2) -> (r: Self)
        ensures
            r.first_operation() == first_operation,
            r.second_operation() == second_operation,
    {
        Self { first_operation, second_operation, marker: PhantomData }
    }
}

impl<T1: Operation<A>, T2: Operation<A>, A: Account> Transaction for PairedOperationTransaction<T1, T2, A> {
    type TransactionAccount = A;

    open spec fn debits(&self) -> Seq<(A, A::Amount)> {
        entries_of(self.first_operation().debit_entry()) + entries_of(self.second_operation().debit_entry())
    }

    open spec fn credits(&self) -> Seq<(A, A::Amount)> {
        entries_of(self.first_operation().credit_entry()) + entries_of(self.second_operation().credit_entry())
    }

    fn debit_accounts(&self) -> (r: Vec<(&A, A::Amount)>) {
        let mut r: Vec<(&A, A::Amount)> = Vec::new();
        push_entry(&mut r, self.first_operation.debit_account());
        push_entry(&mut r, self.second_operation.debit_account());
        assert(deref_pairs(r@) =~= self.debits());
        r
    }

    fn credit_accounts(&self) -> (r: Vec<(&A, A::Amount)>) {
        let mut r: Vec<(&A, A::Amount)> = Vec::new();
        push_entry(&mut r, self.first_operation.credit_account());
        push_entry(&mut r, self.second_operation.credit_account());
        assert(deref_pairs(r@) =~= self.credits());
        r
    }
}

/// The debit entries of a list of operations, in order.
pub open spec fn debit_entries<T: Account>(operations: Seq<Box<dyn Operation<T>>>) -> Seq<(T, T::Amount)>
    decreases operations.len(),
{
    if operations.len() == 0 {
        Seq::empty()
    } else {
        debit_entries(operations.drop_last()) + entries_of(operations.last().debit_entry())
    }
}

/// The credit entries of a list of operations, in order.
pub open spec fn credit_entries<T: Account>(operations: Seq<Box<dyn Operation<T>>>) -> Seq<(T, T::Amount)>
    decreases operations.len(),
{
    if operations.len() == 0 {
        Seq::empty()
    } else {
        credit_entries(operations.drop_last()) + entries_of(operations.last().credit_entry())
    }
}

/// A transaction made of any number of operations.
#[verifier::reject_recursive_types(T)]
pub struct MultipleOperationTransaction<T: Account> {
    operations: Vec<Box<dyn Operation<T>>>,
}

impl<T: Account> MultipleOperationTransaction<T> {
    pub closed spec fn operations(&self) -> Seq<Box<dyn Operation<T>>> {
        self.operations@
    }

    pub fn new(operations: Vec<Box<dyn Operation<T>>>) -> (r: Self)
        ensures
            r.operations() == operations@,
    {
        Self { operations }
    }
}

impl<T: Account> Transaction for MultipleOperationTransaction<T> {
    type TransactionAccount = T;

    open spec fn debits(&self) -> Seq<(T, T::Amount)> {
        debit_entries(self.operations())
    }

    open spec fn credits(&self) -> Seq<(T, T::Amount)> {
        credit_entries(self.operations())
    }

    fn debit_accounts(&self) -> (r: Vec<(&T, T::Amount)>) {
        let mut r: Vec<(&T, T::Amount)> = Vec::new();
        let mut i: usize = 0;
        while i < self.operations.len()
            invariant
                i <= self.operations@.len(),
                deref_pairs(r@) == debit_entries(self.operations@.take(i as int)),
            decreases self.operations.len() - i,
        {
            proof {
                assert(self.operations@.take(i + 1).drop_last() =~= self.operations@.take(i as int));
            }
            push_entry(&mut r, self.operations[i].debit_account());
            i = i + 1;
        }
        assert(self.operations@.take(i as int) =~= self.operations@);
        r
    }

    fn credit_accounts(&self) -> (r: Vec<(&T, T::Amount)>) {
        let mut r: Vec<(&T, T::Amount)> = Vec::new();
        let mut i: usize = 0;
        while i < self.operations.len()
            invariant
                i <= self.operations@.len(),
                deref_pairs(r@) == credit_entries(self.operations@.take(i as int)),
            decreases self.operations.len() - i,
        {
            proof {
                assert(self.operations@.take(i + 1).drop_last() =~= self.operations@.take(i as int));
            }
            push_entry(&mut r, self.operations[i].credit_account());
            i = i + 1;
        }
        assert(self.operations@.take(i as int) =~= self.operations@);
        r
    }
}

} // verus!
