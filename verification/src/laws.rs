use vstd::prelude::*;
use crate::ledger::{
    accepted_from, as_credits, as_debits, balances_of, committed, distinct_keys, lock_refused, refused_from,
    refused_in, grouped, has_key, key_index, labelled, lemma_grouped_wf,
    run_groups, run_ops, KeyOf, OpOf,
};
use crate::model::{step, Account, AccountError, BalanceOperation, LockedAccount, Money, Transaction, TransactionError, TransactionOperation};
use crate::operations::{Deposit, Transfer, Withdrawal};
use crate::model::Operation;
use crate::transactions::{
    credit_entries, debit_entries, entries_of, MultipleOperationTransaction, PairedOperationTransaction,
    SingleOperationTransaction,
};

verus! {

/// The operations that `entries` ask of the account with key `key`, in order.
pub open spec fn ops_for<A: Account>(entries: Seq<(A, OpOf<A>)>, key: KeyOf<A>) -> Seq<OpOf<A>>
    decreases entries.len(),
{
    if entries.len() == 0 {
        Seq::empty()
    } else {
        let rest = ops_for(entries.drop_last(), key);
        if entries.last().0.key() == key {
            rest.push(entries.last().1)
        } else {
            rest
        }
    }
}

proof fn lemma_ops_for_absent<A: Account>(entries: Seq<(A, OpOf<A>)>, key: KeyOf<A>)
    requires
        forall|i: int| 0 <= i < entries.len() ==> (#[trigger] entries[i]).0.key() != key,
    ensures
        ops_for(entries, key) == Seq::<OpOf<A>>::empty(),
    decreases entries.len(),
{
    if entries.len() > 0 {
        assert forall|i: int| 0 <= i < entries.drop_last().len() implies (#[trigger] entries.drop_last()[i]).0.key() != key by {
            assert(entries.drop_last()[i] == entries[i]);
        }
        lemma_ops_for_absent(entries.drop_last(), key);
        assert(entries[entries.len() - 1].0.key() != key);
    }
}

/// The operations asked of an account by two lists of entries one after the
/// other are those asked by the first list followed by those asked by the second.
pub proof fn lemma_ops_for_append<A: Account>(
    a: Seq<(A, OpOf<A>)>,
    b: Seq<(A, OpOf<A>)>,
    key: KeyOf<A>,
)
    ensures
        ops_for(a + b, key) == ops_for(a, key) + ops_for(b, key),
    decreases b.len(),
{
    if b.len() == 0 {
        assert(a + b =~= a);
        assert(ops_for(a, key) + ops_for(b, key) =~= ops_for(a, key));
    } else {
        assert((a + b).drop_last() =~= a + b.drop_last());
        lemma_ops_for_append(a, b.drop_last(), key);
        assert((a + b).last() == b.last());
        if b.last().0.key() == key {
            assert(ops_for(a, key) + ops_for(b.drop_last(), key).push(b.last().1)
                =~= (ops_for(a, key) + ops_for(b.drop_last(), key)).push(b.last().1));
        }
    }
}

/// Grouping gives each account exactly the operations asked of it, in the
/// order in which they were asked, and gives a group to every account asked
/// for something; no account gets two groups.
pub proof fn lemma_grouped_ops<A: Account>(entries: Seq<(A, OpOf<A>)>)
    ensures
        distinct_keys(grouped(entries)),
        forall|g: int| 0 <= g < grouped(entries).len()
            ==> (#[trigger] grouped(entries)[g]).1 == ops_for(entries, grouped(entries)[g].0.key()),
        forall|i: int| 0 <= i < entries.len() ==> has_key(grouped(entries), (#[trigger] entries[i]).0.key()),
    decreases entries.len(),
{
    lemma_grouped_wf(entries);
    if entries.len() > 0 {
        let prev = entries.drop_last();
        let rest = grouped(prev);
        let e = entries.last();
        lemma_grouped_ops(prev);
        lemma_grouped_wf(prev);
        let gs = grouped(entries);
        if has_key(rest, e.0.key()) {
            let c = key_index(rest, e.0.key());
            assert forall|g: int| 0 <= g < gs.len() implies (#[trigger] gs[g]).1 == ops_for(entries, gs[g].0.key()) by {
                if g != c {
                    assert(rest[g].0.key() != rest[c].0.key());
                }
            }
            assert forall|i: int| 0 <= i < entries.len() implies has_key(gs, (#[trigger] entries[i]).0.key()) by {
                if i < prev.len() {
                    assert(prev[i] == entries[i]);
                    let j = key_index(rest, entries[i].0.key());
                    assert(gs[j].0 == rest[j].0);
                } else {
                    assert(gs[c].0 == rest[c].0);
                }
            }
        } else {
            assert forall|i: int| 0 <= i < prev.len() implies (#[trigger] prev[i]).0.key() != e.0.key() by {
                if prev[i].0.key() == e.0.key() {
                    assert(has_key(rest, prev[i].0.key()));
                }
            }
            lemma_ops_for_absent(prev, e.0.key());
            assert forall|g: int| 0 <= g < gs.len() implies (#[trigger] gs[g]).1 == ops_for(entries, gs[g].0.key()) by {
                if g < rest.len() {
                    assert(rest[g].0.key() != e.0.key());
                } else {
                    assert(ops_for(entries, e.0.key()) =~= seq![e.1]);
                }
            }
            assert forall|i: int| 0 <= i < entries.len() implies has_key(gs, (#[trigger] entries[i]).0.key()) by {
                if i < prev.len() {
                    assert(prev[i] == entries[i]);
                    let j = key_index(rest, entries[i].0.key());
                    assert(gs[j] == rest[j]);
                } else {
                    assert(gs[rest.len() as int].0 == e.0);
                }
            }
        }
    }
}

/// Applying a transaction asks of each account it touches its own debits,
/// in order, then its own credits, in order, all in one group: no account
/// is locked twice, and every account named by an entry is locked.
pub proof fn lemma_transaction_groups<A: Account>(debits: Seq<(A, A::Amount)>, credits: Seq<(A, A::Amount)>)
    ensures
        distinct_keys(grouped(labelled(debits, credits))),
        forall|g: int| 0 <= g < grouped(labelled(debits, credits)).len()
            ==> (#[trigger] grouped(labelled(debits, credits))[g]).1
                == ops_for(as_debits(debits), grouped(labelled(debits, credits))[g].0.key())
                    + ops_for(as_credits(credits), grouped(labelled(debits, credits))[g].0.key()),
        forall|i: int| 0 <= i < debits.len() ==> has_key(grouped(labelled(debits, credits)), (#[trigger] debits[i]).0.key()),
        forall|i: int| 0 <= i < credits.len() ==> has_key(grouped(labelled(debits, credits)), (#[trigger] credits[i]).0.key()),
{
    let entries = labelled(debits, credits);
    lemma_grouped_ops(entries);
    assert forall|g: int| 0 <= g < grouped(entries).len() implies (#[trigger] grouped(entries)[g]).1
        == ops_for(as_debits(debits), grouped(entries)[g].0.key()) + ops_for(as_credits(credits), grouped(entries)[g].0.key()) by {
        lemma_ops_for_append(as_debits(debits), as_credits(credits), grouped(entries)[g].0.key());
    }
    assert forall|i: int| 0 <= i < debits.len() implies has_key(grouped(entries), (#[trigger] debits[i]).0.key()) by {
        assert(entries[i].0 == debits[i].0);
    }
    assert forall|i: int| 0 <= i < credits.len() implies has_key(grouped(entries), (#[trigger] credits[i]).0.key()) by {
        assert(entries[debits.len() + i].0 == credits[i].0);
    }
}

/// What a sequence of operations adds to a balance: its credits less its debits.
pub open spec fn net<T: Money>(ops: Seq<BalanceOperation<T>>) -> int
    decreases ops.len(),
{
    if ops.len() == 0 {
        0
    } else {
        net(ops.drop_last()) + match ops.last() {
            BalanceOperation::Credit(a) => a.value(),
            BalanceOperation::Debit(a) => -a.value(),
        }
    }
}

/// The sum of the amounts of (account, amount) entries.
pub open spec fn sum_amounts<A, T: Money>(entries: Seq<(A, T)>) -> int
    decreases entries.len(),
{
    if entries.len() == 0 {
        0
    } else {
        sum_amounts(entries.drop_last()) + entries.last().1.value()
    }
}

/// The sum of balances.
pub open spec fn sum_balances(balances: Seq<int>) -> int
    decreases balances.len(),
{
    if balances.len() == 0 {
        0
    } else {
        sum_balances(balances.drop_last()) + balances.last()
    }
}

/// The sum of what each group of operations adds to its balance.
pub open spec fn sum_net<T: Money>(ops: Seq<Seq<BalanceOperation<T>>>) -> int
    decreases ops.len(),
{
    if ops.len() == 0 {
        0
    } else {
        sum_net(ops.drop_last()) + net(ops.last())
    }
}

/// The operations of tagged entries.
pub open spec fn entry_ops<A, T: Money>(entries: Seq<(A, BalanceOperation<T>)>) -> Seq<BalanceOperation<T>> {
    entries.map_values(|e: (A, BalanceOperation<T>)| e.1)
}

/// The operations of groups.
pub open spec fn group_ops<A, T: Money>(groups: Seq<(A, Seq<BalanceOperation<T>>)>) -> Seq<Seq<BalanceOperation<T>>> {
    groups.map_values(|g: (A, Seq<BalanceOperation<T>>)| g.1)
}

/// An accepted run leaves the balance changed by exactly the credits less
/// the debits.
pub proof fn lemma_run_ops_net<T: Money>(balance: int, ops: Seq<BalanceOperation<T>>)
    ensures
        run_ops(balance, ops) matches Ok(f) ==> f == balance + net(ops),
    decreases ops.len(),
{
    if ops.len() > 0 {
        lemma_run_ops_net(balance, ops.drop_last());
    }
}

/// An accepted run of groups leaves the total of the balances changed by
/// exactly the total credits less the total debits.
pub proof fn lemma_run_groups_sum<T: Money>(ops: Seq<Seq<BalanceOperation<T>>>, balances: Seq<int>)
    requires
        ops.len() <= balances.len(),
    ensures
        run_groups(ops, balances) matches Ok(fs) ==> fs.len() == ops.len()
            && sum_balances(fs) == sum_balances(balances.take(ops.len() as int)) + sum_net(ops),
    decreases ops.len(),
{
    if ops.len() > 0 {
        lemma_run_groups_sum(ops.drop_last(), balances);
        lemma_run_ops_net(balances[ops.len() - 1], ops.last());
        if let Ok(fs) = run_groups(ops, balances) {
            let prev = run_groups(ops.drop_last(), balances)->Ok_0;
            assert(fs.drop_last() =~= prev);
            assert(balances.take(ops.len() as int).drop_last() =~= balances.take(ops.len() - 1));
        }
    }
}

proof fn lemma_net_append<T: Money>(a: Seq<BalanceOperation<T>>, b: Seq<BalanceOperation<T>>)
    ensures
        net(a + b) == net(a) + net(b),
    decreases b.len(),
{
    if b.len() == 0 {
        assert(a + b =~= a);
    } else {
        assert((a + b).drop_last() =~= a + b.drop_last());
        lemma_net_append(a, b.drop_last());
    }
}

proof fn lemma_sum_net_update<T: Money>(ops: Seq<Seq<BalanceOperation<T>>>, i: int, t: Seq<BalanceOperation<T>>)
    requires
        0 <= i < ops.len(),
    ensures
        sum_net(ops.update(i, t)) == sum_net(ops) - net(ops[i]) + net(t),
    decreases ops.len(),
{
    if i < ops.len() - 1 {
        assert(ops.update(i, t).drop_last() =~= ops.drop_last().update(i, t));
        lemma_sum_net_update(ops.drop_last(), i, t);
    } else {
        assert(ops.update(i, t).drop_last() =~= ops.drop_last());
    }
}

/// Grouping neither adds nor loses an amount: what the groups add up to is
/// what the entries add up to.
pub proof fn lemma_grouped_net<A: Account>(entries: Seq<(A, OpOf<A>)>)
    ensures
        sum_net(group_ops(grouped(entries))) == net(entry_ops(entries)),
    decreases entries.len(),
{
    if entries.len() > 0 {
        let prev = entries.drop_last();
        let rest = grouped(prev);
        let e = entries.last();
        lemma_grouped_net(prev);
        assert(entry_ops(entries).drop_last() =~= entry_ops(prev));
        if has_key(rest, e.0.key()) {
            let c = key_index(rest, e.0.key());
            assert(0 <= c < rest.len() && rest[c].0.key() == e.0.key());
            assert(group_ops(grouped(entries)) =~= group_ops(rest).update(c, rest[c].1.push(e.1)));
            lemma_sum_net_update(group_ops(rest), c, rest[c].1.push(e.1));
            assert(rest[c].1.push(e.1).drop_last() =~= rest[c].1);
            assert(group_ops(rest)[c] == rest[c].1);
            assert(entry_ops(entries).last() == e.1);
            assert(net(rest[c].1.push(e.1)) == net(rest[c].1) + net(entry_ops(entries)) - net(entry_ops(prev)));
            assert(sum_net(group_ops(grouped(entries))) == net(entry_ops(entries)));
        } else {
            assert(group_ops(grouped(entries)) =~= group_ops(rest).push(seq![e.1]));
            assert(group_ops(grouped(entries)).drop_last() =~= group_ops(rest));
            assert(seq![e.1].drop_last() =~= Seq::<OpOf<A>>::empty());
            assert(entry_ops(entries).last() == e.1);
            assert(net(Seq::<OpOf<A>>::empty()) == 0);
            assert(net(seq![e.1]) == net(entry_ops(entries)) - net(entry_ops(prev)));
            assert(sum_net(group_ops(grouped(entries))) == net(entry_ops(entries)));
        }
    }
}

proof fn lemma_debits_net<A, T: Money>(debits: Seq<(A, T)>)
    ensures
        net(entry_ops(as_debits(debits))) == -sum_amounts(debits),
    decreases debits.len(),
{
    if debits.len() > 0 {
        assert(entry_ops(as_debits(debits)).drop_last() =~= entry_ops(as_debits(debits.drop_last())));
        lemma_debits_net(debits.drop_last());
    }
}

proof fn lemma_credits_net<A, T: Money>(credits: Seq<(A, T)>)
    ensures
        net(entry_ops(as_credits(credits))) == sum_amounts(credits),
    decreases credits.len(),
{
    if credits.len() > 0 {
        assert(entry_ops(as_credits(credits)).drop_last() =~= entry_ops(as_credits(credits.drop_last())));
        lemma_credits_net(credits.drop_last());
    }
}

/// When every account accepts its operations, the total of the balances of
/// the accounts a transaction touches grows by exactly what it credits less
/// what it debits; in particular a transaction that debits in total what it
/// credits (any transfer) leaves that total as it was.
pub proof fn lemma_transaction_conserves_total<A: Account>(
    debits: Seq<(A, A::Amount)>,
    credits: Seq<(A, A::Amount)>,
    balances: Seq<int>,
)
    requires
        balances.len() == grouped(labelled(debits, credits)).len(),
    ensures
        run_groups(group_ops(grouped(labelled(debits, credits))), balances) matches Ok(finals)
            ==> sum_balances(finals) == sum_balances(balances) + sum_amounts(credits) - sum_amounts(debits),
        sum_amounts(debits) == sum_amounts(credits) ==> (
            run_groups(group_ops(grouped(labelled(debits, credits))), balances) matches Ok(finals)
            ==> sum_balances(finals) == sum_balances(balances)),
{
    let entries = labelled(debits, credits);
    let ops = group_ops(grouped(entries));
    lemma_run_groups_sum(ops, balances);
    assert(balances.take(ops.len() as int) =~= balances);
    lemma_grouped_net(entries);
    assert(entry_ops(entries) =~= entry_ops(as_debits(debits)) + entry_ops(as_credits(credits)));
    lemma_net_append(entry_ops(as_debits(debits)), entry_ops(as_credits(credits)));
    lemma_debits_net(debits);
    lemma_credits_net(credits);
}

/// A credit followed by a debit of the same amount gives a balance that is
/// not negative back.
pub proof fn lemma_credit_then_debit_restores<T: Money>(balance: int, amount: T)
    requires
        T::representable(balance),
        0 <= balance,
    ensures
        step(balance, BalanceOperation::Credit(amount)) matches Ok(b)
            ==> step(b, BalanceOperation::Debit(amount)) == Ok::<int, AccountError>(balance),
{
}

/// A debit followed by a credit of the same amount gives the balance back.
pub proof fn lemma_debit_then_credit_restores<T: Money>(balance: int, amount: T)
    requires
        T::representable(balance),
    ensures
        step(balance, BalanceOperation::Debit(amount)) matches Ok(b)
            ==> step(b, BalanceOperation::Credit(amount)) == Ok::<int, AccountError>(balance),
{
}

/// A debit is accepted exactly when the balance covers it and what is left
/// can be represented, a credit exactly when the new balance can be
/// represented.
pub proof fn lemma_step_accepts<T: Money>(balance: int, amount: T)
    ensures
        step(balance, BalanceOperation::Debit(amount)) is Ok
            <==> amount.value() <= balance && T::representable(balance - amount.value()),
        step(balance, BalanceOperation::Credit(amount)) is Ok <==> T::representable(balance + amount.value()),
{
}

/// A withdrawal asks the same of its account whether it is applied on its
/// own or as the one operation of a transaction.
pub proof fn lemma_single_withdrawal<A: Account>(
    w: Withdrawal<A>,
    t: SingleOperationTransaction<Withdrawal<A>, A>,
)
    requires
        t.operation() == w,
    ensures
        t.debits() == w.debits(),
        t.credits() == w.credits(),
{
    assert(t.debits() =~= w.debits());
    assert(t.credits() =~= w.credits());
}

/// A deposit asks the same of its account whether it is applied on its own
/// or as the one operation of a transaction.
pub proof fn lemma_single_deposit<A: Account>(
    d: Deposit<A>,
    t: SingleOperationTransaction<Deposit<A>, A>,
)
    requires
        t.operation() == d,
    ensures
        t.debits() == d.debits(),
        t.credits() == d.credits(),
{
    assert(t.debits() =~= d.debits());
    assert(t.credits() =~= d.credits());
}

/// A transfer is a withdrawal from its source paired with a deposit of the
/// same amount to its destination.
pub proof fn lemma_transfer_is_withdrawal_and_deposit<A: Account>(
    t: SingleOperationTransaction<Transfer<A>, A>,
    p: PairedOperationTransaction<Withdrawal<A>, Deposit<A>, A>,
)
    requires
        p.first_operation().account() == t.operation().from_account(),
        p.first_operation().debit() == t.operation().amount(),
        p.second_operation().account() == t.operation().to_account(),
        p.second_operation().credit() == t.operation().amount(),
    ensures
        t.debits() == p.debits(),
        t.credits() == p.credits(),
        sum_amounts(t.debits()) == sum_amounts(t.credits()),
{
    assert(t.debits() =~= p.debits());
    assert(t.credits() =~= p.credits());
    assert(t.debits().drop_last() =~= Seq::<(A, A::Amount)>::empty());
    assert(t.credits().drop_last() =~= Seq::<(A, A::Amount)>::empty());
}

/// The sum of a list of amounts.
pub open spec fn amount_sum<T: Money>(amounts: Seq<T>) -> int
    decreases amounts.len(),
{
    if amounts.len() == 0 {
        0
    } else {
        amount_sum(amounts.drop_last()) + amounts.last().value()
    }
}

/// Each amount as a debit.
pub open spec fn debit_ops<T>(amounts: Seq<T>) -> Seq<BalanceOperation<T>> {
    amounts.map_values(|a: T| BalanceOperation::Debit(a))
}

/// Each amount as a credit.
pub open spec fn credit_ops<T>(amounts: Seq<T>) -> Seq<BalanceOperation<T>> {
    amounts.map_values(|a: T| BalanceOperation::Credit(a))
}

/// The amounts that (account, amount) entries give the account with key
/// `key`, in order.
pub open spec fn amounts_for<A: Account>(entries: Seq<(A, A::Amount)>, key: KeyOf<A>) -> Seq<A::Amount>
    decreases entries.len(),
{
    if entries.len() == 0 {
        Seq::empty()
    } else {
        let rest = amounts_for(entries.drop_last(), key);
        if entries.last().0.key() == key {
            rest.push(entries.last().1)
        } else {
            rest
        }
    }
}

/// Starting from `balance`, the debits `debits` in order, then the credits
/// `credits` in order, are all accepted: every prefix of the debits is
/// covered by the balance and leaves a representable balance, and every
/// prefix of the credits, added to what the debits left, is representable.
/// Credits never help to cover a debit.
pub open spec fn covered<T: Money>(balance: int, debits: Seq<T>, credits: Seq<T>) -> bool {
    &&& forall|j: int| 0 <= j < debits.len()
        ==> amount_sum(#[trigger] debits.take(j + 1)) <= balance
            && T::representable(balance - amount_sum(debits.take(j + 1)))
    &&& forall|i: int| 0 <= i < credits.len()
        ==> T::representable(balance - amount_sum(debits) + amount_sum(#[trigger] credits.take(i + 1)))
}

/// A run is accepted exactly when each operation is accepted against the
/// balance that the operations before it left.
pub proof fn lemma_run_ops_stepwise<T: Money>(balance: int, ops: Seq<BalanceOperation<T>>)
    ensures
        run_ops(balance, ops) is Ok <==> forall|j: int| 0 <= j < ops.len()
            ==> (#[trigger] step(balance + net(ops.take(j)), ops[j])) is Ok,
    decreases ops.len(),
{
    if ops.len() > 0 {
        let n = ops.len() - 1;
        let prev = ops.drop_last();
        lemma_run_ops_stepwise(balance, prev);
        lemma_run_ops_net(balance, prev);
        assert forall|j: int| 0 <= j < n implies prev.take(j) == ops.take(j) && prev[j] == ops[j] by {
            assert(prev.take(j) =~= ops.take(j));
        }
        assert(ops.take(n) =~= prev);
        if run_ops(balance, ops) is Ok {
            assert forall|j: int| 0 <= j < ops.len() implies (#[trigger] step(balance + net(ops.take(j)), ops[j])) is Ok by {
                if j < n {
                    assert(step(balance + net(prev.take(j)), prev[j]) is Ok);
                }
            }
        }
        if forall|j: int| 0 <= j < ops.len() ==> (#[trigger] step(balance + net(ops.take(j)), ops[j])) is Ok {
            assert forall|j: int| 0 <= j < prev.len() implies (#[trigger] step(balance + net(prev.take(j)), prev[j])) is Ok by {
                assert(step(balance + net(ops.take(j)), ops[j]) is Ok);
            }
            assert(step(balance + net(ops.take(n)), ops[n]) is Ok);
        }
    }
}

proof fn lemma_debit_ops_net<T: Money>(amounts: Seq<T>)
    ensures
        net(debit_ops(amounts)) == -amount_sum(amounts),
    decreases amounts.len(),
{
    if amounts.len() > 0 {
        assert(debit_ops(amounts).drop_last() =~= debit_ops(amounts.drop_last()));
        lemma_debit_ops_net(amounts.drop_last());
    }
}

proof fn lemma_credit_ops_net<T: Money>(amounts: Seq<T>)
    ensures
        net(credit_ops(amounts)) == amount_sum(amounts),
    decreases amounts.len(),
{
    if amounts.len() > 0 {
        assert(credit_ops(amounts).drop_last() =~= credit_ops(amounts.drop_last()));
        lemma_credit_ops_net(amounts.drop_last());
    }
}

proof fn lemma_amount_sum_step<T: Money>(amounts: Seq<T>, j: int)
    requires
        0 <= j < amounts.len(),
    ensures
        amount_sum(amounts.take(j + 1)) == amount_sum(amounts.take(j)) + amounts[j].value(),
{
    assert(amounts.take(j + 1).drop_last() =~= amounts.take(j));
}

/// Debits then credits on one account are accepted exactly when they are
/// covered: each prefix of the debits fits within the starting balance,
/// whatever the credits.
pub proof fn lemma_debits_then_credits_accepted<T: Money>(balance: int, debits: Seq<T>, credits: Seq<T>)
    ensures
        run_ops(balance, debit_ops(debits) + credit_ops(credits)) is Ok <==> covered(balance, debits, credits),
{
    let ops = debit_ops(debits) + credit_ops(credits);
    let nd = debits.len() as int;
    lemma_run_ops_stepwise(balance, ops);
    assert forall|j: int| 0 <= j < nd implies
        net(#[trigger] ops.take(j)) == -amount_sum(debits.take(j)) && ops[j] == BalanceOperation::Debit(debits[j]) by {
        assert(ops.take(j) =~= debit_ops(debits.take(j)));
        lemma_debit_ops_net(debits.take(j));
    }
    assert forall|i: int| 0 <= i < credits.len() implies
        net(#[trigger] ops.take(nd + i)) == -amount_sum(debits) + amount_sum(credits.take(i))
            && ops[nd + i] == BalanceOperation::Credit(credits[i]) by {
        assert(ops.take(nd + i) =~= debit_ops(debits) + credit_ops(credits.take(i)));
        lemma_net_append(debit_ops(debits), credit_ops(credits.take(i)));
        lemma_debit_ops_net(debits);
        lemma_credit_ops_net(credits.take(i));
    }
    if run_ops(balance, ops) is Ok {
        assert forall|j: int| 0 <= j < debits.len() implies amount_sum(#[trigger] debits.take(j + 1)) <= balance
            && T::representable(balance - amount_sum(debits.take(j + 1))) by {
            assert(step(balance + net(ops.take(j)), ops[j]) is Ok);
            lemma_amount_sum_step(debits, j);
        }
        assert forall|i: int| 0 <= i < credits.len() implies T::representable(
            balance - amount_sum(debits) + amount_sum(#[trigger] credits.take(i + 1))) by {
            assert(step(balance + net(ops.take(nd + i)), ops[nd + i]) is Ok);
            lemma_amount_sum_step(credits, i);
        }
    }
    if covered(balance, debits, credits) {
        assert forall|j: int| 0 <= j < ops.len() implies (#[trigger] step(balance + net(ops.take(j)), ops[j])) is Ok by {
            if j < nd {
                lemma_amount_sum_step(debits, j);
                assert(amount_sum(debits.take(j + 1)) <= balance);
                assert(T::representable(balance - amount_sum(debits.take(j + 1))));
                assert(net(ops.take(j)) == -amount_sum(debits.take(j)));
                assert(ops[j] == BalanceOperation::Debit(debits[j]));
            } else {
                let i = j - nd;
                lemma_amount_sum_step(credits, i);
                assert(T::representable(balance - amount_sum(debits) + amount_sum(credits.take(i + 1))));
                assert(net(ops.take(nd + i)) == -amount_sum(debits) + amount_sum(credits.take(i)));
                assert(ops[nd + i] == BalanceOperation::Credit(credits[i]));
                assert(nd + i == j);
            }
        }
    }
}

proof fn lemma_ops_for_debits<A: Account>(debits: Seq<(A, A::Amount)>, key: KeyOf<A>)
    ensures
        ops_for(as_debits(debits), key) == debit_ops(amounts_for(debits, key)),
    decreases debits.len(),
{
    if debits.len() > 0 {
        assert(as_debits(debits).drop_last() =~= as_debits(debits.drop_last()));
        lemma_ops_for_debits(debits.drop_last(), key);
        assert(debit_ops(amounts_for(debits.drop_last(), key).push(debits.last().1))
            =~= debit_ops(amounts_for(debits.drop_last(), key)).push(BalanceOperation::Debit(debits.last().1)));
    } else {
        assert(debit_ops(amounts_for(debits, key)) =~= Seq::<OpOf<A>>::empty());
    }
}

proof fn lemma_ops_for_credits<A: Account>(credits: Seq<(A, A::Amount)>, key: KeyOf<A>)
    ensures
        ops_for(as_credits(credits), key) == credit_ops(amounts_for(credits, key)),
    decreases credits.len(),
{
    if credits.len() > 0 {
        assert(as_credits(credits).drop_last() =~= as_credits(credits.drop_last()));
        lemma_ops_for_credits(credits.drop_last(), key);
        assert(credit_ops(amounts_for(credits.drop_last(), key).push(credits.last().1))
            =~= credit_ops(amounts_for(credits.drop_last(), key)).push(BalanceOperation::Credit(credits.last().1)));
    } else {
        assert(credit_ops(amounts_for(credits, key)) =~= Seq::<OpOf<A>>::empty());
    }
}

/// A run of groups is accepted exactly when every group's run is accepted
/// from its own balance.
pub proof fn lemma_run_groups_ok<T: Money>(ops: Seq<Seq<BalanceOperation<T>>>, balances: Seq<int>)
    requires
        ops.len() <= balances.len(),
    ensures
        run_groups(ops, balances) is Ok <==> forall|g: int| 0 <= g < ops.len() ==> (#[trigger] run_ops(balances[g], ops[g])) is Ok,
    decreases ops.len(),
{
    if ops.len() > 0 {
        let prev = ops.drop_last();
        lemma_run_groups_ok(prev, balances);
        assert forall|g: int| 0 <= g < prev.len() implies prev[g] == ops[g] by {}
        if forall|g: int| 0 <= g < ops.len() ==> (#[trigger] run_ops(balances[g], ops[g])) is Ok {
            assert forall|g: int| 0 <= g < prev.len() implies (#[trigger] run_ops(balances[g], prev[g])) is Ok by {
                assert(run_ops(balances[g], ops[g]) is Ok);
            }
            assert(run_ops(balances[ops.len() - 1], ops[ops.len() - 1]) is Ok);
        }
    }
}

/// Starting from given balances, one per account in order of first
/// appearance, a transaction is accepted exactly when every account's
/// debits, in order, are covered by its balance and every new balance can
/// be represented; an account's credits never help to cover its debits,
/// wherever they stand in the transaction.
pub proof fn lemma_transaction_accepted<A: Account>(
    debits: Seq<(A, A::Amount)>,
    credits: Seq<(A, A::Amount)>,
    balances: Seq<int>,
)
    requires
        balances.len() == grouped(labelled(debits, credits)).len(),
    ensures
        accepted_from(grouped(labelled(debits, credits)), balances) <==> forall|g: int| 0 <= g < balances.len()
            ==> covered(
                balances[g],
                amounts_for(debits, (#[trigger] grouped(labelled(debits, credits))[g]).0.key()),
                amounts_for(credits, grouped(labelled(debits, credits))[g].0.key()),
            ),
{
    let gs = grouped(labelled(debits, credits));
    let ops = group_ops(gs);
    lemma_transaction_groups(debits, credits);
    lemma_run_groups_ok(ops, balances);
    assert forall|g: int| 0 <= g < balances.len() implies
        (run_ops(balances[g], ops[g]) is Ok <==> covered(balances[g], amounts_for(debits, (#[trigger] gs[g]).0.key()), amounts_for(credits, gs[g].0.key()))) by {
        let k = gs[g].0.key();
        lemma_ops_for_debits(debits, k);
        lemma_ops_for_credits(credits, k);
        assert(ops[g] == gs[g].1);
        lemma_debits_then_credits_accepted(balances[g], amounts_for(debits, k), amounts_for(credits, k));
    }
    if accepted_from(gs, balances) {
        assert forall|g: int| 0 <= g < balances.len() implies covered(balances[g], amounts_for(debits, (#[trigger] gs[g]).0.key()), amounts_for(credits, gs[g].0.key())) by {
            assert(run_ops(balances[g], ops[g]) is Ok);
        }
    }
    if forall|g: int| 0 <= g < balances.len() ==> covered(balances[g], amounts_for(debits, (#[trigger] gs[g]).0.key()), amounts_for(credits, gs[g].0.key())) {
        assert forall|g: int| 0 <= g < ops.len() implies (#[trigger] run_ops(balances[g], ops[g])) is Ok by {
            assert(covered(balances[g], amounts_for(debits, gs[g].0.key()), amounts_for(credits, gs[g].0.key())));
        }
    }
}

proof fn lemma_entries_filter_map<T: Account>(operations: Seq<Box<dyn Operation<T>>>)
    ensures
        debit_entries(operations) == operations.filter_map(|op: Box<dyn Operation<T>>| op.debit_entry()),
        credit_entries(operations) == operations.filter_map(|op: Box<dyn Operation<T>>| op.credit_entry()),
    decreases operations.len(),
{
    if operations.len() > 0 {
        lemma_entries_filter_map(operations.drop_last());
        let op = operations.last();
        if op.debit_entry() is Some {
            assert(entries_of(op.debit_entry()) =~= seq![op.debit_entry()->Some_0]);
        } else {
            assert(debit_entries(operations.drop_last()) + entries_of(op.debit_entry()) =~= debit_entries(operations.drop_last()));
        }
        if op.credit_entry() is Some {
            assert(entries_of(op.credit_entry()) =~= seq![op.credit_entry()->Some_0]);
        } else {
            assert(credit_entries(operations.drop_last()) + entries_of(op.credit_entry()) =~= credit_entries(operations.drop_last()));
        }
    }
}

/// A transaction of many operations debits what each operation debits and
/// credits what each operation credits, in the order of the operations,
/// skipping an operation's side that names no account; the debit side of an
/// operation does not depend on its credit side, nor the other way round.
pub proof fn lemma_multiple_entries<T: Account>(t: MultipleOperationTransaction<T>)
    ensures
        t.debits() == t.operations().filter_map(|op: Box<dyn Operation<T>>| op.debit_entry()),
        t.credits() == t.operations().filter_map(|op: Box<dyn Operation<T>>| op.credit_entry()),
{
    lemma_entries_filter_map(t.operations());
}

proof fn lemma_filter_map_options<A>(first: Option<A>, second: Option<A>)
    ensures
        seq![first].filter_map(|o: Option<A>| o) == entries_of_option(first),
        seq![first, second].filter_map(|o: Option<A>| o) == entries_of_option(first) + entries_of_option(second),
{
    let f = |o: Option<A>| o;
    let one = seq![first];
    let two = seq![first, second];
    assert(one.drop_last() =~= Seq::<Option<A>>::empty());
    assert(two.drop_last() =~= one);
    assert(Seq::<Option<A>>::empty().filter_map(f) =~= Seq::<A>::empty());
    assert(one.filter_map(f) =~= entries_of_option(first));
    assert(two.filter_map(f) =~= entries_of_option(first) + entries_of_option(second));
}

/// The one or no element of an option.
pub open spec fn entries_of_option<A>(o: Option<A>) -> Seq<A> {
    match o {
        Some(x) => seq![x],
        None => Seq::empty(),
    }
}

/// A transaction of two operations debits what the first and then the
/// second debit, and credits what the first and then the second credit,
/// whatever the other side of each operation.
pub proof fn lemma_paired_entries<T1: Operation<A>, T2: Operation<A>, A: Account>(
    t: PairedOperationTransaction<T1, T2, A>,
)
    ensures
        t.debits() == seq![t.first_operation().debit_entry(), t.second_operation().debit_entry()]
            .filter_map(|o: Option<(A, A::Amount)>| o),
        t.credits() == seq![t.first_operation().credit_entry(), t.second_operation().credit_entry()]
            .filter_map(|o: Option<(A, A::Amount)>| o),
{
    lemma_filter_map_options(t.first_operation().debit_entry(), t.second_operation().debit_entry());
    lemma_filter_map_options(t.first_operation().credit_entry(), t.second_operation().credit_entry());
    assert(entries_of(t.first_operation().debit_entry()) =~= entries_of_option(t.first_operation().debit_entry()));
    assert(entries_of(t.second_operation().debit_entry()) =~= entries_of_option(t.second_operation().debit_entry()));
    assert(entries_of(t.first_operation().credit_entry()) =~= entries_of_option(t.first_operation().credit_entry()));
    assert(entries_of(t.second_operation().credit_entry()) =~= entries_of_option(t.second_operation().credit_entry()));
}

/// A transaction of one operation debits what the operation debits and
/// credits what it credits.
pub proof fn lemma_single_entries<T: Operation<A>, A: Account>(t: SingleOperationTransaction<T, A>)
    ensures
        t.debits() == seq![t.operation().debit_entry()].filter_map(|o: Option<(A, A::Amount)>| o),
        t.credits() == seq![t.operation().credit_entry()].filter_map(|o: Option<(A, A::Amount)>| o),
{
    lemma_filter_map_options(t.operation().debit_entry(), t.operation().debit_entry());
    lemma_filter_map_options(t.operation().credit_entry(), t.operation().credit_entry());
    assert(entries_of(t.operation().debit_entry()) =~= entries_of_option(t.operation().debit_entry()));
    assert(entries_of(t.operation().credit_entry()) =~= entries_of_option(t.operation().credit_entry()));
}

/// An accepted run of groups ends each group at the end of its own run.
pub proof fn lemma_run_groups_each<T: Money>(ops: Seq<Seq<BalanceOperation<T>>>, balances: Seq<int>)
    requires
        ops.len() <= balances.len(),
    ensures
        run_groups(ops, balances) matches Ok(fs) ==> fs.len() == ops.len() && forall|i: int| 0 <= i < ops.len()
            ==> (#[trigger] run_ops(balances[i], ops[i])) == Ok::<int, (int, AccountError)>(fs[i]),
    decreases ops.len(),
{
    if ops.len() > 0 {
        lemma_run_groups_each(ops.drop_last(), balances);
        lemma_run_groups_sum(ops, balances);
        if let Ok(fs) = run_groups(ops, balances) {
            let prev = run_groups(ops.drop_last(), balances)->Ok_0;
            assert forall|i: int| 0 <= i < ops.len() implies (#[trigger] run_ops(balances[i], ops[i]))
                == Ok::<int, (int, AccountError)>(fs[i]) by {
                if i < ops.len() - 1 {
                    assert(ops.drop_last()[i] == ops[i]);
                    assert(fs[i] == prev[i]);
                }
            }
        }
    }
}

/// When a transaction is applied, every account it touches is committed,
/// each from its own lock, with its locked balance plus its credits less its
/// debits.
pub proof fn lemma_commits_every_account<'a, A: Account + 'a>(
    groups: Seq<(A, Seq<OpOf<A>>)>,
    start: Seq<A::LockedAccount<'a>>,
    finals: Seq<A::LockedAccount<'a>>,
)
    requires
        committed(groups, start, finals),
    ensures
        forall|i: int| 0 <= i < groups.len() ==> {
            &&& (&groups[i].0).holds(start[i])
            &&& call_ensures(<A::LockedAccount<'a> as LockedAccount>::commit, (finals[i],), ())
            &&& (#[trigger] finals[i]).balance().value() == start[i].balance().value() + net(groups[i].1)
        },
{
    let ops = group_ops(groups);
    let bals = balances_of(start);
    lemma_run_groups_each(ops, bals);
    assert forall|i: int| 0 <= i < groups.len() implies (#[trigger] finals[i]).balance().value()
        == start[i].balance().value() + net(groups[i].1) by {
        lemma_run_ops_net(bals[i], ops[i]);
        assert(run_ops(bals[i], ops[i]) == Ok::<int, (int, AccountError)>(balances_of(finals)[i]));
    }
}

/// A refusal at a lock comes from that account's own `get_locked`: when no
/// account of the transaction can refuse its lock, every refusal is that of
/// a balance operation, the first refused from some starting balances.
pub proof fn lemma_lock_refusal_needs_a_refusing_lock<A: Account>(
    groups: Seq<(A, Seq<OpOf<A>>)>,
    e: TransactionError<A>,
)
    requires
        refused_in(groups, e),
        forall|g: int, err: AccountError| 0 <= g < groups.len() ==> !(#[trigger] lock_refused(&groups[g].0, err)),
    ensures
        exists|g: int, k: int, balances: Seq<int>|
            0 <= g < groups.len() && 0 <= k < groups[g].1.len()
                && e.operation == TransactionOperation::Balance(#[trigger] groups[g].1[k])
                && #[trigger] refused_from(groups, balances, g, k, e.err),
{
}

} // verus!
