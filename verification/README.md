# veritas

A linearizability checker. Several threads drive a concurrent object; a
`History` records every invocation and response; an `ImmutableChecker`
searches for an order of the recorded operations that respects their
real-time order and in which a sequential model gives every recorded
response.

Layout:

- `src/action.rs`: the traits that users implement (`Action`, `Runner`,
  `Model`) and the model's step as a function (`model_step`).
- `src/history.rs`: events (`Entry`, `EntryData`), complete histories, and the
  `History` recorder with its invariant.
- `src/live.rs`: the persistent vector of the `im` crate that holds the events
  still to be explained.
- `src/checker.rs`: the search (`search_from`), the histories on which it runs
  without failing (`search_safe`, which every complete history is), one step
  of it (`expand`, with `finishes` and `branches`), the `Tally` that gathers
  the answers of one step's branches in any order, and `check`.
- `src/linearizability.rs`: linearizability of a history, the proof that the
  search decides it for every nonempty complete history, and the laws on
  loosening the real-time order, exchanging adjacent events of one kind, and
  renaming operations.
- `app/lib.rs`: the threads: `Checker` runs the implementation under test and
  records with `History`; `CheckerRunner` hands the branches of each step of
  the search to a pool of threads and settles each step with a `Tally`.
