use vstd::prelude::*;
use tokio::sync::broadcast::{Receiver, Sender};

use crate::transaction::{Transaction, TxView};

verus! {

/// The sending half of a tokio broadcast channel, carried through unopened.
#[verifier::external_type_specification]
#[verifier::external_body]
#[verifier::reject_recursive_types(T)]
pub struct ExBroadcastSender<T>(Sender<T>);

/// The receiving half of a tokio broadcast channel, carried through unopened.
#[verifier::external_type_specification]
#[verifier::external_body]
#[verifier::reject_recursive_types(T)]
pub struct ExBroadcastReceiver<T>(Receiver<T>);

/// The transactions handed to `send` through this sending half, oldest first.
/// Whether tokio delivers them depends on the receivers still listening; this
/// names only what was sent.
pub uninterp spec fn sent_log(ch: Sender<Transaction>) -> Seq<TxView>;

/// `rx` is a receiving half of the channel that `tx` sends into.
pub uninterp spec fn pairs_with(tx: Sender<Transaction>, rx: Receiver<Transaction>) -> bool;

/// Calls `tokio::sync::broadcast::channel(capacity)`, which panics when
/// `capacity` is zero or above `usize::MAX / 2`; those inputs are excluded.
/// Claims that the two halves belong to one channel, as tokio documents, and
/// that nothing has been sent through the new sending half yet.
#[verifier::external_body]
pub(crate) fn open_broadcast(capacity: usize) -> (halves: (Sender<Transaction>, Receiver<Transaction>))
    requires
        0 < capacity <= usize::MAX / 2,
    ensures
        pairs_with(halves.0, halves.1),
        sent_log(halves.0) == Seq::<TxView>::empty(),
{
    tokio::sync::broadcast::channel(capacity)
}

/// Calls `tokio::sync::broadcast::Sender::send` with `tx`. Claims that `tx`
/// joins what was sent through `ch`, and that `ch` still sends into the same
/// channel. Whether any receiver is still listening
/// decides whether tokio delivers it; that outcome is not reported or claimed.
#[verifier::external_body]
pub(crate) fn broadcast_send(ch: &mut Sender<Transaction>, tx: Transaction)
    ensures
        sent_log(*final(ch)) == sent_log(*old(ch)).push(tx@),
        forall|rx: Receiver<Transaction>| #[trigger] pairs_with(*old(ch), rx) ==> pairs_with(*final(ch), rx),
{
    let _ = ch.send(tx);
}

} // verus!
