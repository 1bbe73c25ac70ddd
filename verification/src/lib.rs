//! Accounts, balance operations and all-or-nothing transactions over them.

mod model;
pub use model::{
    applied, deref_entry, deref_pairs, step, Account, AccountError, AccountKey, BalanceOperation,
    LockedAccount, Money, Operation, Transaction, TransactionError, TransactionOperation,
};

mod money;

mod ledger;
pub use ledger::{
    accepted_from, apply_locked, committed, as_credits, as_debits, balances_of, commit_all, deref_entries, distinct_keys,
    execute, group_entries, grouped, groups_view, has_key, key_index, labelled, lemma_grouped_wf,
    lemma_run_groups_err_bounds, lemma_run_groups_err_cause, lemma_run_groups_prefix_err,
    lemma_run_ops_err_bounds, lemma_run_ops_err_cause, lemma_run_ops_prefix_err,
    lemma_step_err_kind, lock_groups, lock_operation, lock_refused, nonempty_groups, operations_of, refused_from, refused_in,
    run_groups, run_ops, Group, KeyOf, OpOf,
};

mod operations;
pub use operations::{Deposit, Transfer, Withdrawal};

mod transactions;
pub use transactions::{
    credit_entries, debit_entries, entries_of, MultipleOperationTransaction,
    PairedOperationTransaction, SingleOperationTransaction,
};

mod simple_account;
pub use simple_account::{AmountWrapper, LockedSimpleAccount, SimpleAccount};

mod laws;
pub use laws::{
    amount_sum, amounts_for, covered, credit_ops, debit_ops, entry_ops, group_ops, lemma_commits_every_account, lemma_credit_then_debit_restores, lemma_debit_then_credit_restores,
    lemma_debits_then_credits_accepted, lemma_grouped_net, lemma_grouped_ops, lemma_lock_refusal_needs_a_refusing_lock, lemma_multiple_entries, lemma_paired_entries,
    lemma_run_groups_each, lemma_single_entries, entries_of_option, lemma_ops_for_append, lemma_run_groups_ok, lemma_run_groups_sum, lemma_run_ops_stepwise,
    lemma_run_ops_net, lemma_single_deposit, lemma_single_withdrawal, lemma_step_accepts,
    lemma_transaction_accepted, lemma_transaction_conserves_total, lemma_transaction_groups,
    lemma_transfer_is_withdrawal_and_deposit, net, ops_for, sum_amounts, sum_balances, sum_net,
};
