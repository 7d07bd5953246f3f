//! What a connection does with each request frame.

use vstd::prelude::*;

use crate::cmd::select::Client;
use crate::cmd::{Command, CommandView};
use crate::db::NUM_DBS;
use crate::frame::{Frame, FrameView};

verus! {

/// What is to be done with a request.
#[derive(Debug, PartialEq)]
pub enum Routing {
    /// Answer it with this frame.
    Reply(Frame),
    /// Send `cmd` to the shard `index` and answer with what comes back.
    Forward { index: usize, cmd: Command },
}

/// The model of a routing decision.
pub ghost enum RoutingView {
    Reply(FrameView),
    Forward { index: usize, cmd: CommandView },
}

impl View for Routing {
    type V = RoutingView;

    open spec fn view(&self) -> RoutingView {
        match self {
            Routing::Reply(frame) => RoutingView::Reply(frame@),
            Routing::Forward { index, cmd } => RoutingView::Forward { index: *index, cmd: cmd@ },
        }
    }
}

/// The active shard after a request frame was handled.
pub open spec fn next_index(index: usize, frame: FrameView) -> usize {
    match Command::parsed(frame) {
        Ok(CommandView::Select(chosen)) => if chosen < NUM_DBS {
            chosen
        } else {
            index
        },
        _ => index,
    }
}

/// What a connection whose active shard is `index` does with a request frame.
///
/// A frame that is no valid command is answered with its error. SELECT is
/// answered by the connection itself. Every other command goes to the active
/// shard.
pub open spec fn routed(index: usize, frame: FrameView) -> RoutingView {
    match Command::parsed(frame) {
        Err(e) => RoutingView::Reply(FrameView::Error(e.text())),
        Ok(CommandView::Select(chosen)) => RoutingView::Reply(
            if chosen < NUM_DBS {
                FrameView::Simple("OK"@)
            } else {
                FrameView::Error(
                    crate::error::Error::Parse(crate::error::ParseError::InvalidRange).text(),
                )
            },
        ),
        Ok(cmd) => RoutingView::Forward { index, cmd },
    }
}

impl Client {
    /// Handles one request frame: decides what is to be done with it and
    /// changes the active shard if the request is a valid SELECT.
    pub fn route(&mut self, frame: Frame) -> (routing: Routing)
        ensures
            final(self)@ == next_index(old(self)@, frame@),
            routing@ == routed(old(self)@, frame@),
            final(self)@ < NUM_DBS,
            Command::parsed(frame@) is Err ==> final(self)@ == old(self)@,
    {
        let index = self.index();
        match Command::from_frame(frame) {
            Ok(Command::Select(select)) => Routing::Reply(select.apply(self)),
            Ok(cmd) => Routing::Forward { index, cmd },
            Err(e) => Routing::Reply(e.to_frame()),
        }
    }
}

} // verus!
