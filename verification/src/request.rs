//! A command on its way to a shard, with the place for the answer.

use tokio::sync::oneshot::{Receiver, Sender};
use vstd::prelude::*;

use crate::cmd::Command;
use crate::frame::Frame;

verus! {

/// `tokio::sync::oneshot::Sender`, the sending end of a channel for one
/// value. It is carried, never looked into.
#[verifier::external_type_specification]
#[verifier::external_body]
#[verifier::reject_recursive_types(T)]
pub struct ExSender<T>(tokio::sync::oneshot::Sender<T>);

/// `tokio::sync::oneshot::Receiver`, the receiving end of such a channel. It
/// is carried, never looked into.
#[verifier::external_type_specification]
#[verifier::external_body]
#[verifier::reject_recursive_types(T)]
pub struct ExReceiver<T>(tokio::sync::oneshot::Receiver<T>);

/// `tokio::sync::oneshot::error::RecvError`, which awaiting a receiver may
/// give. It is named because the receiver's type mentions it.
#[verifier::external_type_specification]
#[verifier::external_body]
pub struct ExRecvError(tokio::sync::oneshot::error::RecvError);

/// `tokio::sync::oneshot::channel`: a fresh channel for one frame. Nothing is
/// claimed of the two ends.
#[verifier::external_body]
fn reply_channel() -> (ends: (Sender<Frame>, Receiver<Frame>)) {
    tokio::sync::oneshot::channel::<Frame>()
}

/// A command together with the single-use destination of its answer.
#[derive(Debug)]
pub struct Request {
    pub cmd: Command,
    pub sender: Sender<Frame>,
}

impl Request {
    /// A request for `cmd`, and the end on which its answer will arrive.
    pub fn new(cmd: Command) -> (made: (Request, Receiver<Frame>))
        ensures
            made.0.cmd == cmd,
    {
        let (sender, receiver) = reply_channel();
        let request = Request { cmd, sender };
        (request, receiver)
    }

    /// Puts `cmd` in the place of the request's command.
    pub fn set_command(&mut self, cmd: Command)
        ensures
            final(self).cmd == cmd,
            final(self).sender == old(self).sender,
    {
        self.cmd = cmd
    }
}

} // verus!
