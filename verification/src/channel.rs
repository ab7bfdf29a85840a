//! The channels between a socket and the application.
//!
//! A channel is shared with whoever holds a handle to it, on any thread, so
//! what it holds at one moment says nothing certain of the next.

use vstd::prelude::*;

verus! {

/// Declares `crossbeam_channel::Sender`, the sending end of a channel.
/// Nothing is known of what is inside.
#[verifier::external_type_specification]
#[verifier::external_body]
#[verifier::reject_recursive_types(T)]
pub struct ExSender<T>(crossbeam_channel::Sender<T>);

/// Declares `crossbeam_channel::Receiver`, the receiving end of a channel.
/// Nothing is known of what is inside.
#[verifier::external_type_specification]
#[verifier::external_body]
#[verifier::reject_recursive_types(T)]
pub struct ExReceiver<T>(crossbeam_channel::Receiver<T>);

/// What an attempt to take a message from a channel gave.
pub enum Received<T> {
    Message(T),
    /// The channel holds no message now.
    Empty,
    /// The channel holds no message and no sender is left to give it one.
    Disconnected,
}

/// Calls `crossbeam_channel::unbounded`: a new channel that takes any
/// number of messages, as its two ends. Nothing is claimed of them.
#[verifier::external_body]
pub(crate) fn unbounded<T>() -> (r: (crossbeam_channel::Sender<T>, crossbeam_channel::Receiver<T>)) {
    crossbeam_channel::unbounded()
}

/// Calls `Sender::send`. It fails only when every receiver of the channel is
/// gone, and then gives back the message it was given; that is all that is
/// claimed.
#[verifier::external_body]
pub(crate) fn send<T>(sender: &crossbeam_channel::Sender<T>, message: T) -> (r: Result<(), T>)
    ensures
        r matches Err(m) ==> m == message,
{
    match sender.send(message) {
        Ok(()) => Ok(()),
        Err(e) => Err(e.0),
    }
}

/// Calls `Receiver::try_recv`, which does not wait. Nothing is claimed of
/// what it gives: other holders of the channel put messages in and take
/// them out.
#[verifier::external_body]
pub(crate) fn try_recv<T>(receiver: &crossbeam_channel::Receiver<T>) -> (r: Received<T>) {
    match receiver.try_recv() {
        Ok(message) => Received::Message(message),
        Err(crossbeam_channel::TryRecvError::Empty) => Received::Empty,
        Err(crossbeam_channel::TryRecvError::Disconnected) => Received::Disconnected,
    }
}

/// Calls `Receiver::len`: how many messages the channel held at some
/// moment of the call. Nothing is claimed of the number.
#[verifier::external_body]
pub(crate) fn len<T>(receiver: &crossbeam_channel::Receiver<T>) -> (r: usize) {
    receiver.len()
}

/// Calls `Sender::clone`: another handle to the sending end of the same
/// channel.
#[verifier::external_body]
pub(crate) fn clone_sender<T>(sender: &crossbeam_channel::Sender<T>) -> (r:
    crossbeam_channel::Sender<T>) {
    sender.clone()
}

/// Calls `Receiver::clone`: another handle to the receiving end of the same
/// channel.
#[verifier::external_body]
pub(crate) fn clone_receiver<T>(receiver: &crossbeam_channel::Receiver<T>) -> (r:
    crossbeam_channel::Receiver<T>) {
    receiver.clone()
}

} // verus!
