use crossbeam_channel::{Receiver, RecvError, SendError, Sender};
use std::sync::Arc;
use vstd::prelude::*;

verus! {

/// The sending end of a channel.
#[verifier::external_type_specification]
#[verifier::external_body]
#[verifier::reject_recursive_types(T)]
pub struct ExSender<T>(Sender<T>);

/// The receiving end of a channel.
#[verifier::external_type_specification]
#[verifier::external_body]
#[verifier::reject_recursive_types(T)]
pub struct ExReceiver<T>(Receiver<T>);

/// The error of a send: the channel is disconnected.
#[verifier::external_type_specification]
#[verifier::external_body]
#[verifier::reject_recursive_types(T)]
pub struct ExSendError<T>(SendError<T>);

/// The error of a receive: the channel is empty and disconnected.
#[verifier::external_type_specification]
#[verifier::external_body]
pub struct ExRecvError(RecvError);

/// Calls `crossbeam_channel::bounded`, which makes a channel that holds up to
/// `capacity` messages and hands out its two ends. Nothing is claimed of the
/// ends. The library makes channels of one slot and of no other size, so one
/// is the only capacity admitted; on it the call does not panic.
#[verifier::external_body]
pub(crate) fn bounded<T>(capacity: usize) -> (ends: (Sender<T>, Receiver<T>))
    requires
        capacity == 1,
{
    crossbeam_channel::bounded(capacity)
}

/// Calls `Sender::send`, which blocks until the message is in the channel or
/// the channel is disconnected. Whether it succeeds depends on the other end,
/// so nothing is claimed of the result.
#[verifier::external_body]
pub(crate) fn send<T>(link: &Sender<T>, message: T) -> (sent: Result<(), SendError<T>>)
{
    link.send(message)
}

/// Calls `Receiver::recv`, which blocks until a message arrives or the channel
/// is empty and disconnected. What arrives is what the other end sent, so
/// nothing is claimed of the result.
#[verifier::external_body]
pub(crate) fn recv<T>(link: &Receiver<T>) -> (received: Result<T, RecvError>)
{
    link.recv()
}

/// Calls `Arc::clone`, which makes another handle on the same value.
#[verifier::external_body]
pub(crate) fn share<S>(view: &Arc<S>) -> (shared: Arc<S>)
    ensures
        *shared == **view,
{
    Arc::clone(view)
}

/// Calls `Arc::get_mut`, which lends the value out for writing if `view` is the
/// only handle on it, and gives `None` otherwise. Whether it is the only one is
/// not something a contract here can tell. What is claimed: the reference
/// starts at the value behind `view`, and what is written through it is what
/// `view` holds afterwards; with `None` the value stays as it was.
#[verifier::external_body]
pub(crate) fn exclusive<S>(view: &mut Arc<S>) -> (lent: Option<&mut S>)
    ensures
        match lent {
            Some(state) => *state == **old(view) && **final(view) == *final(state),
            None => **final(view) == **old(view),
        },
{
    Arc::get_mut(view)
}

} // verus!
