# accounts

Accounts, balance operations (withdrawals, deposits, transfers) and
transactions that apply a set of them all together or not at all, verified
with Verus. Amounts are of any type implementing `Money` (`i32`, `i64`,
`u32`, `u64` here); a balance operation whose result would leave the range
of that type is refused with `AccountError::Overflow`.

- `src/model.rs`: errors, balance operations, and the traits `Money`,
  `Account`, `LockedAccount`, `Operation`, `Transaction`;
  `Transaction::apply` is the default way a transaction is carried out.
- `src/money.rs`: `Money` for the integer types.
- `src/ledger.rs`: the steps of `apply`: gathering each account's operations,
  locking each group's own account, running the operations on the locked
  balances and committing; with the spec functions that describe them.
- `src/operations.rs`, `src/transactions.rs`: the operations and the
  transactions built from one, two or many of them.
- `src/simple_account.rs`: an account whose balance sits behind
  `std::sync::RwLock`, shared through `Arc`. The lock is never waited for:
  reading or locking an account whose lock is already held (or poisoned) is
  refused with `AccountError::Locked`. `+` and `-` build deposits and
  withdrawals.
- `src/laws.rs`: properties proved of the whole, over the balances the locks
  give (the balances held in the locks themselves cannot be named by a
  contract): each account gets exactly its own operations, debits before
  credits; a transaction is accepted exactly when every account's debits, in
  order, are covered by its starting balance; an accepted transaction changes
  the total of those balances by what it credits less what it debits. That
  nothing is committed unless all is accepted follows from the locked
  accounts being handed back only on acceptance; the commit's effect on the
  stored balances is not stated.
- `app/main.rs`: the program's entry point.
