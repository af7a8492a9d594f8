# whorl

A small single-threaded executor for asynchronous tasks, verified with Verus.

- `src/` is the verified library. `runtime` holds the queue of tasks, the interface through
  which users send futures and wait for them, and the executor that says which task is polled
  next and what becomes of it; its contracts say exactly what each call does to what it holds.
  `futures` holds a future that sleeps; what its polls come to is exact for each answer of the
  clock. `runtime/order.rs`, `runtime/history.rs`, `runtime/fairness.rs` and `runtime/turns.rs`
  state and prove what holds of a runtime as a whole.
- `tests/` runs the library.
- `app/` runs an executor on a thread of its own, with futures of `async` code.
