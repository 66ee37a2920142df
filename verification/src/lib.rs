//! A fee-prioritised transaction pool: pending transactions are kept in
//! buckets keyed by fee, so that both the best-paying and the worst-paying
//! transaction can be reached quickly. The pool enforces a minimum fee,
//! replace-by-fee for a sender's nonce, per-sender nonce order and a capacity
//! bound, evicting its worst transaction for a better-paying newcomer.

pub mod channel;
pub mod contents;
pub mod errors;
pub mod keys;
pub mod laws;
pub mod mempool;
pub mod model;
pub mod runs;
pub mod state;
pub mod transaction;

pub use errors::{MempoolError, Rejection};
pub use mempool::Mempool;
pub use state::{MockStateProvider, StateProvider};
pub use transaction::{Transaction, TxView};
