# eviction_mempool

A priority-fee transaction pool, verified with Verus.

Pending transactions sit in buckets keyed by fee (a `BTreeMap<u64, Vec<Transaction>>`).
The pool enforces a minimum fee, replace-by-fee for a sender's nonce, per-sender nonce
order against the pool and against what a `StateProvider` reports of the chain, and a
capacity bound: at capacity, a newcomer that outbids the worst pending transaction evicts it,
and subscribers receive a copy of each evicted transaction over a tokio broadcast channel.

A replacement keeps its slot's place in the sender's nonce order: it is checked against the
pending transaction it replaces (it must pay strictly more), not against the next expected
nonce, and it neither needs room nor evicts. An offer that is turned away changes nothing but
the rejection count.

Layout:

- `src/model.rs` — the pool as plain values (`PoolState`, a map from fee to the bucket's
  transactions), the step function `accept_tx` that says what an offer does, and the lemmas
  about counting and ordering.
- `src/mempool.rs` — the executable pool; each operation's contract is stated over the model,
  including what is handed to the eviction subscription (`notices`).
- `src/laws.rs` — properties of the pool as a whole: offers and removals keep it well formed,
  the best and worst transactions are the highest- and lowest-paying ones, listings are sorted,
  an accepted transaction is pending afterwards, a rejection adds nothing, and how the counters move.
- `src/runs.rs` — properties over any sequence of calls: the pool stays well formed, the
  counters count evictions and rejections, the channel of a subscription is handed the evictions
  in order,
  repeated removal of the worst drains the pool in fee order, and a snapshot previews by fee
  what repeated removal of the best would take.
- `src/errors.rs` — rejections and their messages; `src/transaction.rs`, `src/state.rs`.
- `src/channel.rs` — the tokio broadcast channel, behind trusted declarations: what is handed to
  a sending half, and which receiving halves belong to its channel. Delivery itself is tokio's.
- `app/` — the demo program: a task that offers transactions and one that logs snapshots,
  plus the floating-point average-fee metrics.
