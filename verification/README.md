# non_blocking_mutex

A mutex that never blocks: the first caller to raise the shared task count from zero
runs its own task, then every task that other callers scheduled meanwhile, until the
count falls back to zero; the other callers only push their task to a `ShardedQueue`.

- `src/` is verified with Verus.
  - `decisions.rs`: what a caller does with each value it reads from the task count.
  - `protocol.rs`: the whole mutex as a transition system of atomic steps, its
    invariant, and the laws proved of every reachable state (one holder at a time,
    every task run exactly once, the holder's pop always finds a task, ...).
  - `task_queue.rs`: the contract of the `ShardedQueue` calls the library makes.
  - `interleaving.rs`: an executable run of the protocol, stepped one atomic step at
    a time, whose every step is the model's transition.
- `app/` holds the concurrent mutex types themselves (atomics, `UnsafeCell`, the guard,
  the task loops); each branch of their loops is taken on a decision of `src/decisions.rs`.
- `tests/` exercises the decisions and runs scenarios on `Interleaving`.
