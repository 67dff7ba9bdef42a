//! The channel on which commits hand their batches to the flush.
//!
//! The channel is tokio's unbounded one. The functions here are the library's only
//! calls into that crate; their contracts are taken on trust.

use tokio::sync::mpsc::UnboundedReceiver;
use tokio::sync::mpsc::UnboundedSender;
use vstd::prelude::*;

use crate::bigtable::store::index_batch::BatchMessage;

verus! {

/// `tokio::sync::mpsc::UnboundedSender`, opaque: the end that batches go in.
#[verifier::external_type_specification]
#[verifier::external_body]
#[verifier::reject_recursive_types(T)]
pub struct ExUnboundedSender<T>(UnboundedSender<T>);

/// `tokio::sync::mpsc::UnboundedReceiver`, opaque: the end that batches come out.
/// What it holds is named by [`queued_batches`].
#[verifier::external_type_specification]
#[verifier::external_body]
#[verifier::reject_recursive_types(T)]
pub struct ExUnboundedReceiver<T>(UnboundedReceiver<T>);

/// The batches that were sent and not received yet, the oldest first.
pub uninterp spec fn queued_batches(receiver: UnboundedReceiver<BatchMessage>) -> Seq<BatchMessage>;

/// The two are the ends of one channel, and the only ones.
pub uninterp spec fn ends_of_one_channel(
    sender: UnboundedSender<BatchMessage>,
    receiver: UnboundedReceiver<BatchMessage>,
) -> bool;

/// `tokio::sync::mpsc::unbounded_channel`: a channel without batches, as its two
/// ends.
#[verifier::external_body]
pub(crate) fn open_channel() -> (ends: (UnboundedSender<BatchMessage>, UnboundedReceiver<BatchMessage>))
    ensures
        ends_of_one_channel(ends.0, ends.1),
        queued_batches(ends.1) == Seq::<BatchMessage>::empty(),
{
    tokio::sync::mpsc::unbounded_channel()
}

/// `UnboundedSender::send`, on a channel whose receiver is still there, as
/// `receiver` shows: puts one batch behind the others. The channel counts up to
/// `usize::MAX / 2` batches and aborts the process beyond.
#[verifier::external_body]
pub(crate) fn send_batch(
    sender: &UnboundedSender<BatchMessage>,
    receiver: &mut UnboundedReceiver<BatchMessage>,
    batch: BatchMessage,
)
    requires
        ends_of_one_channel(*sender, *old(receiver)),
        queued_batches(*old(receiver)).len() < usize::MAX / 2,
    ensures
        ends_of_one_channel(*sender, *final(receiver)),
        queued_batches(*final(receiver)) == queued_batches(*old(receiver)).push(batch),
{
    let _open = receiver;
    sender.send(batch).expect("bitmap buffer receiver dropped");
}

/// `UnboundedReceiver::try_recv`, on a channel that nobody sends on meanwhile, as
/// `sender` shows: takes the oldest batch out, or finds none.
#[verifier::external_body]
pub(crate) fn receive_batch(
    sender: &mut UnboundedSender<BatchMessage>,
    receiver: &mut UnboundedReceiver<BatchMessage>,
) -> (batch: Option<BatchMessage>)
    requires
        ends_of_one_channel(*old(sender), *old(receiver)),
    ensures
        ends_of_one_channel(*final(sender), *final(receiver)),
        match batch {
            Some(batch) => {
                &&& queued_batches(*old(receiver)).len() > 0
                &&& batch == queued_batches(*old(receiver)).first()
                &&& queued_batches(*final(receiver)) == queued_batches(*old(receiver)).drop_first()
            },
            None => {
                &&& queued_batches(*old(receiver)).len() == 0
                &&& queued_batches(*final(receiver)).len() == 0
            },
        },
{
    let _idle = sender;
    receiver.try_recv().ok()
}

} // verus!
