use vstd::prelude::*;
use crate::laws::{group_ops, lemma_run_groups_sum};
use crate::model::{
    deref_pairs, step, Account, AccountError, AccountKey, BalanceOperation, LockedAccount, Money, TransactionError,
    TransactionOperation,
};

verus! {

/// The key of an account of type `A`, as a spec value.
pub type KeyOf<A> = <<A as Account>::AccountId as View>::V;

/// A balance operation on an account of type `A`.
pub type OpOf<A> = BalanceOperation<<A as Account>::Amount>;

/// (account, amount) entries, each tagged as a debit of its account.
pub open spec fn as_debits<A, T: Money>(debits: Seq<(A, T)>) -> Seq<(A, BalanceOperation<T>)> {
    debits.map_values(|p: (A, T)| (p.0, BalanceOperation::Debit(p.1)))
}

/// (account, amount) entries, each tagged as a credit of its account.
pub open spec fn as_credits<A, T: Money>(credits: Seq<(A, T)>) -> Seq<(A, BalanceOperation<T>)> {
    credits.map_values(|p: (A, T)| (p.0, BalanceOperation::Credit(p.1)))
}

/// The debits followed by the credits of a transaction, each entry tagged
/// with the operation it asks of its account.
pub open spec fn labelled<A, T: Money>(debits: Seq<(A, T)>, credits: Seq<(A, T)>) -> Seq<(A, BalanceOperation<T>)> {
    as_debits(debits) + as_credits(credits)
}

/// Some group of `groups` belongs to the account with key `key`.
pub open spec fn has_key<A: Account>(groups: Seq<(A, Seq<OpOf<A>>)>, key: KeyOf<A>) -> bool {
    exists|i: int| 0 <= i < groups.len() && (#[trigger] groups[i]).0.key() == key
}

/// The position of the group of the account with key `key`.
pub open spec fn key_index<A: Account>(groups: Seq<(A, Seq<OpOf<A>>)>, key: KeyOf<A>) -> int {
    choose|i: int| 0 <= i < groups.len() && (#[trigger] groups[i]).0.key() == key
}

/// The entries gathered per account: one group per account, in the order in
/// which the accounts first occur, holding the account of that first
/// occurrence and the operations asked of it, in order.
pub open spec fn grouped<A: Account>(entries: Seq<(A, OpOf<A>)>) -> Seq<(A, Seq<OpOf<A>>)>
    decreases entries.len(),
{
    if entries.len() == 0 {
        Seq::empty()
    } else {
        let rest = grouped(entries.drop_last());
        let e = entries.last();
        if has_key(rest, e.0.key()) {
            let i = key_index(rest, e.0.key());
            rest.update(i, (rest[i].0, rest[i].1.push(e.1)))
        } else {
            rest.push((e.0, seq![e.1]))
        }
    }
}

/// No two groups belong to the same account.
pub open spec fn distinct_keys<A: Account>(groups: Seq<(A, Seq<OpOf<A>>)>) -> bool {
    forall|i: int, j: int|
        0 <= i < groups.len() && 0 <= j < groups.len() && i != j
            ==> (#[trigger] groups[i]).0.key() != (#[trigger] groups[j]).0.key()
}

/// Every group holds at least one operation.
pub open spec fn nonempty_groups<A: Account>(groups: Seq<(A, Seq<OpOf<A>>)>) -> bool {
    forall|i: int| 0 <= i < groups.len() ==> (#[trigger] groups[i]).1.len() > 0
}

/// Grouping never gives one account two groups, nor a group no operation.
pub proof fn lemma_grouped_wf<A: Account>(entries: Seq<(A, OpOf<A>)>)
    ensures
        distinct_keys(grouped(entries)),
        nonempty_groups(grouped(entries)),
    decreases entries.len(),
{
    if entries.len() > 0 {
        lemma_grouped_wf(entries.drop_last());
    }
}

/// Running a sequence of operations on a balance: the final balance, or the
/// position of the first refused operation and the refusal.
pub open spec fn run_ops<T: Money>(balance: int, ops: Seq<BalanceOperation<T>>) -> Result<int, (int, AccountError)>
    decreases ops.len(),
{
    if ops.len() == 0 {
        Ok(balance)
    } else {
        match run_ops(balance, ops.drop_last()) {
            Ok(b) => match step(b, ops.last()) {
                Ok(b2) => Ok(b2),
                Err(e) => Err(((ops.len() - 1) as int, e)),
            },
            Err(x) => Err(x),
        }
    }
}

/// Running each group's operations on its own starting balance, group after
/// group: the final balances, or the first refusal (group, operation, error).
pub open spec fn run_groups<T: Money>(ops: Seq<Seq<BalanceOperation<T>>>, balances: Seq<int>) -> Result<Seq<int>, (int, int, AccountError)>
    decreases ops.len(),
{
    if ops.len() == 0 {
        Ok(Seq::empty())
    } else {
        match run_groups(ops.drop_last(), balances) {
            Ok(fs) => match run_ops(balances[ops.len() - 1], ops.last()) {
                Ok(b) => Ok(fs.push(b)),
                Err((k, e)) => Err(((ops.len() - 1) as int, k, e)),
            },
            Err(x) => Err(x),
        }
    }
}

/// The operations asked of one account in a transaction, with the account
/// as it first occurred.
pub struct Group<'a, A: Account> {
    pub account: &'a A,
    pub id: A::AccountId,
    pub operations: Vec<OpOf<A>>,
}

impl<'a, A: Account> Group<'a, A> {
    pub open spec fn view_pair(&self) -> (A, Seq<OpOf<A>>) {
        (*self.account, self.operations@)
    }
}

/// The groups as (account, operations) pairs.
pub open spec fn groups_view<'a, A: Account>(groups: Seq<Group<'a, A>>) -> Seq<(A, Seq<OpOf<A>>)> {
    groups.map_values(|g: Group<'a, A>| g.view_pair())
}

/// Tagged entries read through the references.
pub open spec fn deref_entries<'a, A, T: Money>(entries: Seq<(&'a A, BalanceOperation<T>)>) -> Seq<(A, BalanceOperation<T>)> {
    entries.map_values(|e: (&'a A, BalanceOperation<T>)| (*e.0, e.1))
}


/// Gathers the debits and credits of a transaction per account.
pub fn group_entries<'a, A: Account>(
    debits: &Vec<(&'a A, A::Amount)>,
    credits: &Vec<(&'a A, A::Amount)>,
) -> (groups: Vec<Group<'a, A>>)
    ensures
        groups_view(groups@) == grouped(labelled(deref_pairs(debits@), deref_pairs(credits@))),
        forall|i: int| 0 <= i < groups.len() ==> (#[trigger] groups@[i]).id@ == groups@[i].account.key(),
{
    let mut entries: Vec<(&'a A, OpOf<A>)> = Vec::new();
    let ghost target = labelled(deref_pairs(debits@), deref_pairs(credits@));
    let mut i: usize = 0;
    while i < debits.len()
        invariant
            i <= debits.len(),
            target == labelled(deref_pairs(debits@), deref_pairs(credits@)),
            deref_entries(entries@) == target.take(i as int),
        decreases debits.len() - i,
    {
        let (a, amount) = debits[i];
        proof {
            assert(deref_pairs(debits@)[i as int] == (*a, amount));
            assert(target[i as int] == (*a, BalanceOperation::Debit(amount)));
        }
        let ghost before = entries@;
        entries.push((a, BalanceOperation::Debit(amount)));
        assert(deref_entries(entries@) =~= deref_entries(before).push((*a, BalanceOperation::Debit(amount))));
        i = i + 1;
        assert(deref_entries(entries@) =~= target.take(i as int));
    }
    let mut j: usize = 0;
    while j < credits.len()
        invariant
            j <= credits.len(),
            target == labelled(deref_pairs(debits@), deref_pairs(credits@)),
            deref_entries(entries@) == target.take(debits.len() + j),
        decreases credits.len() - j,
    {
        let (a, amount) = credits[j];
        proof {
            assert(deref_pairs(credits@)[j as int] == (*a, amount));
            assert(target[debits.len() + j] == (*a, BalanceOperation::Credit(amount)));
        }
        let ghost before = entries@;
        entries.push((a, BalanceOperation::Credit(amount)));
        assert(deref_entries(entries@) =~= deref_entries(before).push((*a, BalanceOperation::Credit(amount))));
        j = j + 1;
        assert(deref_entries(entries@) =~= target.take(debits.len() + j));
    }
    assert(target.take(debits.len() + credits.len()) =~= target);

    let mut groups: Vec<Group<'a, A>> = Vec::new();
    let mut k: usize = 0;
    while k < entries.len()
        invariant
            k <= entries.len(),
            deref_entries(entries@) == target,
            groups_view(groups@) == grouped(target.take(k as int)),
            forall|g: int| 0 <= g < groups.len() ==> (#[trigger] groups@[g]).id@ == groups@[g].account.key(),
        decreases entries.len() - k,
    {
        let (a, op) = entries[k];
        let id = a.id();
        proof {
            lemma_grouped_wf(target.take(k as int));
            assert(target.take(k + 1).drop_last() =~= target.take(k as int));
        }
        let mut g: usize = 0;
        let mut found = false;
        while !found && g < groups.len()
            invariant
                g <= groups.len(),
                forall|h: int| 0 <= h < g ==> (#[trigger] groups@[h]).id@ != id@,
                found ==> g < groups.len() && groups@[g as int].id@ == id@,
            decreases groups.len() - g, (if found { 0int } else { 1int }),
        {
            if groups[g].id.same_key(&id) {
                found = true;
            } else {
                g = g + 1;
            }
        }
        let ghost prev = groups_view(groups@);
        if found {
            proof {
                assert(prev[g as int].0.key() == a.key());
                assert(has_key(prev, a.key()));
                let c = key_index(prev, a.key());
                assert(c == g);
            }
            groups[g].operations.push(op);
            proof {
                assert(groups_view(groups@) =~= prev.update(g as int, (prev[g as int].0, prev[g as int].1.push(op))));
            }
        } else {
            proof {
                assert forall|h: int| 0 <= h < prev.len() implies (#[trigger] prev[h]).0.key() != a.key() by {
                    assert(groups@[h].id@ == groups@[h].account.key());
                }
                assert(!has_key(prev, a.key()));
            }
            let mut ops: Vec<OpOf<A>> = Vec::new();
            ops.push(op);
            groups.push(Group { account: a, id, operations: ops });
            proof {
                assert(groups_view(groups@) =~= prev.push((*a, seq![op])));
            }
        }
        k = k + 1;
    }
    groups
}

/// The step reported when the lock of a group's account is refused: the
/// lock itself when the account is first met among the debits, the credit
/// that first met it otherwise.
pub open spec fn lock_operation<T: Money>(ops: Seq<BalanceOperation<T>>) -> TransactionOperation<T> {
    match ops[0] {
        BalanceOperation::Debit(_) => TransactionOperation::Lock,
        BalanceOperation::Credit(a) => TransactionOperation::Balance(BalanceOperation::Credit(a)),
    }
}

/// The operations of each group.
pub open spec fn operations_of<'a, A: Account>(groups: Seq<Group<'a, A>>) -> Seq<Seq<OpOf<A>>> {
    groups.map_values(|g: Group<'a, A>| g.operations@)
}

/// The pending balance of each locked account.
pub open spec fn balances_of<L: LockedAccount>(locked: Seq<L>) -> Seq<int> {
    locked.map_values(|l: L| l.balance().value())
}

/// Locks the account of each group, in order, stopping at the first refusal.
pub fn lock_groups<'a, A: Account>(groups: &Vec<Group<'a, A>>) -> (r: Result<Vec<A::LockedAccount<'a>>, TransactionError<A>>)
    requires
        nonempty_groups(groups_view(groups@)),
    ensures
        r matches Ok(ls) ==> ls.len() == groups.len()
            && forall|i: int| 0 <= i < ls.len() ==> (*groups@[i].account).holds(#[trigger] ls@[i]),
        r matches Err(e) ==> exists|g: int|
            0 <= g < groups.len() && e.operation == lock_operation(#[trigger] groups@[g].operations@)
                && cloned(*groups@[g].account, e.account)
                && lock_refused(groups@[g].account, e.err),
{
    let mut locked: Vec<A::LockedAccount<'a>> = Vec::new();
    let mut i: usize = 0;
    while i < groups.len()
        invariant
            i <= groups.len(),
            locked.len() == i,
            forall|j: int| 0 <= j < i ==> (*groups@[j].account).holds(#[trigger] locked@[j]),
            nonempty_groups(groups_view(groups@)),
        decreases groups.len() - i,
    {
        match groups[i].account.get_locked() {
            Ok(l) => {
                locked.push(l);
            },
            Err(err) => {
                proof {
                    assert(groups_view(groups@)[i as int].1.len() > 0);
                }
                let operation = match groups[i].operations[0] {
                    BalanceOperation::Debit(_) => TransactionOperation::Lock,
                    BalanceOperation::Credit(a) => TransactionOperation::Balance(BalanceOperation::Credit(a)),
                };
                let account = groups[i].account.clone();
                return Err(TransactionError { account, operation, err });
            },
        }
        i = i + 1;
    }
    Ok(locked)
}

/// A refusal among the first `n` operations is the refusal of the whole run.
pub proof fn lemma_run_ops_prefix_err<T: Money>(balance: int, ops: Seq<BalanceOperation<T>>, n: int)
    requires
        0 <= n <= ops.len(),
        run_ops(balance, ops.take(n)) is Err,
    ensures
        run_ops(balance, ops) == run_ops(balance, ops.take(n)),
    decreases ops.len(),
{
    if n == ops.len() {
        assert(ops.take(n) =~= ops);
    } else {
        assert(ops.drop_last().take(n) =~= ops.take(n));
        lemma_run_ops_prefix_err(balance, ops.drop_last(), n);
    }
}

/// A refusal in the first `n` groups is the refusal of the whole run.
pub proof fn lemma_run_groups_prefix_err<T: Money>(ops: Seq<Seq<BalanceOperation<T>>>, balances: Seq<int>, n: int)
    requires
        0 <= n <= ops.len(),
        run_groups(ops.take(n), balances) is Err,
    ensures
        run_groups(ops, balances) == run_groups(ops.take(n), balances),
    decreases ops.len(),
{
    if n == ops.len() {
        assert(ops.take(n) =~= ops);
    } else {
        assert(ops.drop_last().take(n) =~= ops.take(n));
        lemma_run_groups_prefix_err(ops.drop_last(), balances, n);
    }
}

/// A refusal names an operation that the run holds.
pub proof fn lemma_run_ops_err_bounds<T: Money>(balance: int, ops: Seq<BalanceOperation<T>>)
    ensures
        run_ops(balance, ops) matches Err((k, _)) ==> 0 <= k < ops.len(),
    decreases ops.len(),
{
    if ops.len() > 0 {
        lemma_run_ops_err_bounds(balance, ops.drop_last());
    }
}

/// A refusal names a group of the run and an operation of that group.
pub proof fn lemma_run_groups_err_bounds<T: Money>(ops: Seq<Seq<BalanceOperation<T>>>, balances: Seq<int>)
    ensures
        run_groups(ops, balances) matches Err((g, k, _)) ==> 0 <= g < ops.len() && 0 <= k < ops[g].len(),
    decreases ops.len(),
{
    if ops.len() > 0 {
        lemma_run_groups_err_bounds(ops.drop_last(), balances);
        lemma_run_ops_err_bounds(balances[ops.len() - 1], ops.last());
    }
}

/// The refused operation is refused against the balance that the
/// operations before it left, and everything before it was accepted.
pub proof fn lemma_run_ops_err_cause<T: Money>(balance: int, ops: Seq<BalanceOperation<T>>)
    ensures
        run_ops(balance, ops) matches Err((k, e)) ==> 0 <= k < ops.len()
            && run_ops(balance, ops.take(k)) is Ok
            && step(run_ops(balance, ops.take(k))->Ok_0, ops[k]) == Err::<int, AccountError>(e),
    decreases ops.len(),
{
    if ops.len() > 0 {
        lemma_run_ops_err_cause(balance, ops.drop_last());
        if let Err((k, e)) = run_ops(balance, ops) {
            if run_ops(balance, ops.drop_last()) is Ok {
                assert(ops.take(ops.len() - 1) =~= ops.drop_last());
            } else {
                assert(ops.drop_last().take(k) =~= ops.take(k));
            }
        }
    }
}

/// The refusal of a run of groups is the refusal of the run of the refused
/// group's operations on that group's balance.
pub proof fn lemma_run_groups_err_cause<T: Money>(ops: Seq<Seq<BalanceOperation<T>>>, balances: Seq<int>)
    ensures
        run_groups(ops, balances) matches Err((g, k, e)) ==> 0 <= g < ops.len()
            && run_ops(balances[g], ops[g]) == Err::<int, (int, AccountError)>((k, e)),
    decreases ops.len(),
{
    if ops.len() > 0 {
        lemma_run_groups_err_cause(ops.drop_last(), balances);
    }
}

/// A refused debit is refused for insufficient funds or, when what would be
/// left cannot be represented, for overflow; a refused credit for overflow.
pub proof fn lemma_step_err_kind<T: Money>(balance: int, op: BalanceOperation<T>)
    ensures
        step(balance, op) matches Err(e) ==> match op {
            BalanceOperation::Debit(_) => e == AccountError::InsufficientFunds || e == AccountError::Overflow,
            BalanceOperation::Credit(_) => e == AccountError::Overflow,
        },
{
}

/// Runs each group's operations on its locked account, group after group,
/// stopping at the first refusal. The locked accounts come back only when
/// every operation was accepted, so that nothing can be committed otherwise.
pub fn apply_locked<'a, A: Account, L: LockedAccount<Amount = A::Amount>>(
    groups: &Vec<Group<'a, A>>,
    locked: Vec<L>,
) -> (r: Result<Vec<L>, TransactionError<A>>)
    requires
        locked.len() == groups.len(),
    ensures
        match run_groups(operations_of(groups@), balances_of(locked@)) {
            Ok(finals) => r matches Ok(ls) && balances_of(ls@) == finals,
            Err((g, k, e)) => r matches Err(te) && te.err == e
                && te.operation == TransactionOperation::Balance(groups@[g].operations@[k])
                && cloned(*groups@[g].account, te.account),
        },
{
    let ghost ops = operations_of(groups@);
    let ghost init = balances_of(locked@);
    let mut held = locked;
    let mut i: usize = 0;
    proof {
        assert(ops.take(0) =~= Seq::<Seq<OpOf<A>>>::empty());
        assert(balances_of(held@).take(0) =~= Seq::<int>::empty());
    }
    while i < groups.len()
        invariant
            i <= groups.len(),
            held.len() == groups.len(),
            ops == operations_of(groups@),
            init.len() == groups.len(),
            init == balances_of(locked@),
            forall|j: int| i <= j < groups.len() ==> (#[trigger] held@[j]).balance().value() == init[j],
            run_groups(ops.take(i as int), init) == Ok::<Seq<int>, (int, int, AccountError)>(balances_of(held@).take(i as int)),
        decreases groups.len() - i,
    {
        let n = groups[i].operations.len();
        let mut k: usize = 0;
        proof {
            assert(ops[i as int].take(0) =~= Seq::<OpOf<A>>::empty());
        }
        while k < n
            invariant
                i < groups.len(),
                k <= n,
                n == groups@[i as int].operations@.len(),
                held.len() == groups.len(),
                ops == operations_of(groups@),
                init.len() == groups.len(),
                init == balances_of(locked@),
                forall|j: int| i < j < groups.len() ==> (#[trigger] held@[j]).balance().value() == init[j],
                run_groups(ops.take(i as int), init) == Ok::<Seq<int>, (int, int, AccountError)>(balances_of(held@).take(i as int)),
                run_ops(init[i as int], ops[i as int].take(k as int)) == Ok::<int, (int, AccountError)>(held@[i as int].balance().value()),
            decreases n - k,
        {
            let op = groups[i].operations[k];
            let ghost before = held@;
            let res = match op {
                BalanceOperation::Debit(amount) => held[i].debit(amount),
                BalanceOperation::Credit(amount) => held[i].credit(amount),
            };
            proof {
                assert(ops[i as int].take(k + 1).drop_last() =~= ops[i as int].take(k as int));
                assert(balances_of(held@).take(i as int) =~= balances_of(before).take(i as int));
            }
            match res {
                Ok(()) => {},
                Err(err) => {
                    proof {
                        assert(ops[i as int][k as int] == op);
                        assert(ops[i as int].take(k + 1).last() == op);
                        assert(run_ops(init[i as int], ops[i as int].take(k + 1)) == Err::<int, (int, AccountError)>((k as int, err)));
                        lemma_run_ops_prefix_err(init[i as int], ops[i as int], k + 1);
                        assert(ops.take(i + 1).last() == ops[i as int]);
                        assert(ops.take(i + 1).drop_last() =~= ops.take(i as int));
                        assert(run_groups(ops.take(i + 1), init) == Err::<Seq<int>, (int, int, AccountError)>((i as int, k as int, err)));
                        lemma_run_groups_prefix_err(ops, init, i + 1);
                        assert(run_groups(ops, init) == Err::<Seq<int>, (int, int, AccountError)>((i as int, k as int, err)));
                    }
                    let account = groups[i].account.clone();
                    return Err(TransactionError { account, operation: TransactionOperation::Balance(op), err });
                },
            }
            k = k + 1;
        }
        proof {
            assert(ops[i as int].take(n as int) =~= ops[i as int]);
            assert(ops.take(i + 1).drop_last() =~= ops.take(i as int));
            assert(balances_of(held@).take(i + 1) =~= balances_of(held@).take(i as int).push(held@[i as int].balance().value()));
        }
        i = i + 1;
    }
    proof {
        assert(ops.take(groups.len() as int) =~= ops);
        assert(balances_of(held@).take(groups.len() as int) =~= balances_of(held@));
    }
    Ok(held)
}

/// Commits every locked account, in order: `commit` is called on each of
/// them.
pub fn commit_all<L: LockedAccount>(locked: Vec<L>)
    ensures
        forall|i: int| 0 <= i < locked.len() ==> call_ensures(L::commit, (#[trigger] locked@[i],), ()),
{
    let mut rest = locked;
    let mut n: usize = 0;
    while rest.len() > 0
        invariant
            n <= locked.len(),
            rest@ == locked@.skip(n as int),
            forall|i: int| 0 <= i < n ==> call_ensures(L::commit, (#[trigger] locked@[i],), ()),
        decreases rest.len(),
    {
        let ghost before = rest@;
        let l = rest.remove(0);
        assert(l == locked@[n as int]);
        l.commit();
        n = n + 1;
        assert(rest@ =~= locked@.skip(n as int));
    }
}

/// Every operation of every group is accepted when the groups start from
/// the balances `balances`, one per group.
pub open spec fn accepted_from<A: Account>(groups: Seq<(A, Seq<OpOf<A>>)>, balances: Seq<int>) -> bool {
    balances.len() == groups.len() && run_groups(group_ops(groups), balances) is Ok
}

/// Starting from the balances `balances`, one per group, the first refused
/// operation is operation `k` of group `g`, refused with `err`.
pub open spec fn refused_from<A: Account>(
    groups: Seq<(A, Seq<OpOf<A>>)>,
    balances: Seq<int>,
    g: int,
    k: int,
    err: AccountError,
) -> bool {
    balances.len() == groups.len()
        && run_groups(group_ops(groups), balances) == Err::<Seq<int>, (int, int, AccountError)>((g, k, err))
}

/// `err` is a refusal that asking for the lock of `account` can give: a
/// call `account.get_locked()` that returned `Err(err)` is what makes it hold.
pub open spec fn lock_refused<'a, A: Account + 'a>(account: &'a A, err: AccountError) -> bool {
    call_ensures(A::get_locked, (account,), Err::<A::LockedAccount<'a>, AccountError>(err))
}

/// The refusal `e` names an account of one of `groups` and a step asked of
/// it: the lock of its account, refused by that account's `get_locked`, or one of its balance operations that is
/// the first refused operation, with the reported error, for some starting
/// balances, one per group. (When `execute` reports it, those balances are
/// the ones the locks gave; no contract can name them.)
/// A refused debit is always refused for insufficient funds or overflow; a
/// refused lock or credit may carry the refusal of the account's lock.
pub open spec fn refused_in<A: Account>(groups: Seq<(A, Seq<OpOf<A>>)>, e: TransactionError<A>) -> bool {
    &&& exists|g: int|
        0 <= g < groups.len() && cloned((#[trigger] groups[g]).0, e.account) && (
            (e.operation == lock_operation(groups[g].1) && lock_refused(&groups[g].0, e.err))
            || exists|k: int, balances: Seq<int>| 0 <= k < groups[g].1.len()
                && e.operation == TransactionOperation::Balance(#[trigger] groups[g].1[k])
                && #[trigger] refused_from(groups, balances, g, k, e.err))
    &&& e.operation matches TransactionOperation::Balance(BalanceOperation::Debit(_))
        ==> e.err == AccountError::InsufficientFunds || e.err == AccountError::Overflow
}

/// `start` are the locks of the accounts of `groups`, one per group and in
/// order, as obtained; `finals` are the same locked accounts after every
/// group's operations ran on them, holding the balances of that run; and
/// every one of `finals` was committed.
pub open spec fn committed<'a, A: Account + 'a>(
    groups: Seq<(A, Seq<OpOf<A>>)>,
    start: Seq<A::LockedAccount<'a>>,
    finals: Seq<A::LockedAccount<'a>>,
) -> bool {
    &&& start.len() == groups.len()
    &&& finals.len() == groups.len()
    &&& forall|i: int| 0 <= i < groups.len() ==> (&groups[i].0).holds(#[trigger] start[i])
    &&& run_groups(group_ops(groups), balances_of(start)) == Ok::<Seq<int>, (int, int, AccountError)>(balances_of(finals))
    &&& forall|i: int| 0 <= i < groups.len()
        ==> call_ensures(<A::LockedAccount<'a> as LockedAccount>::commit, (#[trigger] finals[i],), ())
}

/// Applies a transaction given by its debits and credits: locks every
/// account it touches, runs each account's operations on its locked
/// balance, and commits all accounts only when every operation was accepted.
pub fn execute<'a, A: Account>(
    debits: Vec<(&'a A, A::Amount)>,
    credits: Vec<(&'a A, A::Amount)>,
) -> (r: Result<(), TransactionError<A>>)
    ensures
        r matches Err(e) ==> refused_in(grouped(labelled(deref_pairs(debits@), deref_pairs(credits@))), e),
        r is Ok ==> exists|balances: Seq<int>|
            accepted_from(grouped(labelled(deref_pairs(debits@), deref_pairs(credits@))), balances),
        r is Ok ==> exists|start: Seq<A::LockedAccount<'a>>, finals: Seq<A::LockedAccount<'a>>|
            committed(grouped(labelled(deref_pairs(debits@), deref_pairs(credits@))), start, finals),
        debits.len() == 0 && credits.len() == 0 ==> r is Ok,
{
    let groups = group_entries(&debits, &credits);
    let ghost gv = grouped(labelled(deref_pairs(debits@), deref_pairs(credits@)));
    proof {
        lemma_grouped_wf(labelled(deref_pairs(debits@), deref_pairs(credits@)));
    }
    let locked = match lock_groups(&groups) {
        Ok(ls) => ls,
        Err(e) => {
            proof {
                let g = choose|g: int| 0 <= g < groups.len() && e.operation == lock_operation(#[trigger] groups@[g].operations@)
                    && cloned(*groups@[g].account, e.account) && lock_refused(groups@[g].account, e.err);
                assert(gv[g] == groups@[g].view_pair());
                assert(lock_refused(groups@[g].account, e.err));
                assert(gv[g].0 == *groups@[g].account);
                assert(lock_refused(&gv[g].0, e.err));
            }
            return Err(e);
        },
    };
    let ghost bals = balances_of(locked@);
    let ghost start = locked@;
    proof {
        assert(group_ops(gv) =~= operations_of(groups@));
        assert forall|i: int| 0 <= i < gv.len() implies (&gv[i].0).holds(#[trigger] start[i]) by {
            assert(gv[i] == groups@[i].view_pair());
            assert((*groups@[i].account).holds(locked@[i]));
        }
    }
    match apply_locked(&groups, locked) {
        Ok(held) => {
            proof {
                assert(accepted_from(gv, bals));
            }
            let ghost finals = held@;
            commit_all(held);
            proof {
                lemma_run_groups_sum(group_ops(gv), bals);
                assert(balances_of(finals).len() == finals.len());
                assert(start.len() == gv.len());
                assert(finals.len() == gv.len());
                assert(run_groups(group_ops(gv), balances_of(start)) == Ok::<Seq<int>, (int, int, AccountError)>(balances_of(finals)));
                assert(forall|i: int| 0 <= i < gv.len()
                    ==> call_ensures(<A::LockedAccount<'a> as LockedAccount>::commit, (#[trigger] finals[i],), ()));
                assert(committed(gv, start, finals));
            }
            Ok(())
        },
        Err(e) => {
            proof {
                let ops = operations_of(groups@);
                lemma_run_groups_err_bounds(ops, bals);
                let (g, k, err) = run_groups(ops, bals)->Err_0;
                lemma_run_groups_err_cause(ops, bals);
                lemma_run_ops_err_cause(bals[g], ops[g]);
                let before = run_ops(bals[g], ops[g].take(k))->Ok_0;
                lemma_step_err_kind(before, ops[g][k]);
                assert(gv[g] == groups@[g].view_pair());
                assert(gv[g].1[k] == groups@[g].operations@[k]);
                assert(refused_from(gv, bals, g, k, e.err));
            }
            Err(e)
        },
    }
}

} // verus!
