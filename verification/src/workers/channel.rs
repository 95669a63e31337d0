use std::sync::mpsc::{Receiver, TryRecvError};
use vstd::prelude::*;

verus! {

/// The receiving end of the channel on which worker threads send their results.
#[verifier::external_type_specification]
#[verifier::external_body]
#[verifier::reject_recursive_types(T)]
pub struct ExReceiver<T>(Receiver<T>);

/// Proof, in hand, that every sender on a channel is gone, so that nothing more
/// can come on it. Only the receiving calls of this module make one, when they
/// find the channel disconnected; no other code can.
pub struct SendersGone {
    seen: (),
}

/// What a look at the channel finds without waiting: a message, nothing yet,
/// or that every sender is gone.
pub enum Polled<T> {
    Message(T),
    Empty,
    Disconnected(SendersGone),
}

/// `Receiver::try_recv`, without waiting: a result that a worker thread has
/// already sent, `Empty` when none has come yet, or `Disconnected` once every
/// sender is gone. What comes back depends on the worker threads, so nothing is
/// promised about it; the variant is the one `try_recv` gave.
#[verifier::external_body]
pub(crate) fn try_receive<T>(receiver: &Receiver<T>) -> (res: Polled<T>) {
    match receiver.try_recv() {
        Ok(message) => Polled::Message(message),
        Err(TryRecvError::Empty) => Polled::Empty,
        Err(TryRecvError::Disconnected) => Polled::Disconnected(SendersGone { seen: () }),
    }
}

/// `Receiver::recv`: waits for the next result that a worker thread sends, and
/// gives `Err` only once every sender is gone, which is the one error `recv`
/// has. What comes back depends on the worker threads, so nothing is promised
/// about it.
#[verifier::external_body]
pub(crate) fn receive<T>(receiver: &Receiver<T>) -> (res: Result<T, SendersGone>) {
    match receiver.recv() {
        Ok(message) => Ok(message),
        Err(_) => Err(SendersGone { seen: () }),
    }
}

} // verus!
