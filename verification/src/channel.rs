use vstd::prelude::*;
use crossbeam::channel::{Receiver, Sender};

verus! {

#[verifier::external_type_specification]
#[verifier::external_body]
#[verifier::reject_recursive_types(T)]
pub struct ExSender<T>(crossbeam::channel::Sender<T>);

#[verifier::external_type_specification]
#[verifier::external_body]
#[verifier::reject_recursive_types(T)]
pub struct ExReceiver<T>(crossbeam::channel::Receiver<T>);

/// What one non-blocking receive found.
pub enum TryRecvOutcome<T> {
    /// A message was waiting.
    Received(T),
    /// No message was waiting.
    Empty,
    /// No message was waiting and every sender is gone.
    Disconnected,
}

/// `crossbeam::channel::unbounded`: a new channel without a capacity limit.
/// Nothing is stated of the two ends.
#[verifier::external_body]
pub(crate) fn unbounded_channel<T>() -> (Sender<T>, Receiver<T>) {
    crossbeam::channel::unbounded()
}

/// `Sender::try_send`: either the message is queued, or it comes back
/// unchanged (crossbeam documents that the error holds the message it
/// was given). Which one happens depends on the other end, so nothing more is
/// stated.
#[verifier::external_body]
pub(crate) fn try_send<T>(tx: &Sender<T>, msg: T) -> (r: Result<(), T>)
    ensures
        r matches Err(back) ==> back == msg,
{
    match tx.try_send(msg) {
        Ok(()) => Ok(()),
        Err(e) => Err(e.into_inner()),
    }
}

/// `Receiver::try_recv`, with its result and its two error variants told
/// apart. What arrives depends on other threads, so nothing is stated.
#[verifier::external_body]
pub(crate) fn try_recv<T>(rx: &Receiver<T>) -> TryRecvOutcome<T> {
    match rx.try_recv() {
        Ok(msg) => TryRecvOutcome::Received(msg),
        Err(crossbeam::channel::TryRecvError::Empty) => TryRecvOutcome::Empty,
        Err(crossbeam::channel::TryRecvError::Disconnected) => TryRecvOutcome::Disconnected,
    }
}

} // verus!
