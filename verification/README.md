# Balance withdraw scheduler

Transactions that withdraw from balances are scheduled here as soon as their withdraw reservations
are secured: because the guaranteed minimum balance of every account that they withdraw from covers
them, or because the accumulator version that they depend on is settled.

- `src/` is the scheduler, verified with Verus.
  - `types.rs`, `balance_read.rs`: the values it works on, and where settled balances come from.
  - `account_state.rs`, `registration.rs`, `pending.rs`: one account, one waiting transaction, one
    accumulator version.
  - `dash_maps.rs`: the two concurrent maps that hold accounts and versions, and what is believed
    of them without proof.
  - `model.rs`: the state of a scheduler as a mathematical value, and what each operation makes of
    it.
  - `scheduler.rs`: the scheduler itself; its contracts speak of the model.
  - `account_laws.rs`, `laws.rs`: what holds of each operation, on one account and on a scheduler.
  - `books.rs`: how balances, reservations and versions add up.
  - `arrival.rs`: why the order in which settlements arrive makes no difference.
  - `history.rs`: what holds after every sequence of calls.
- `app/` shares a scheduler between tasks: settlements arrive through one channel, and each waiting
  transaction is told through a channel of its own.
- `tests/` runs the scheduler on examples.
