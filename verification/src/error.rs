//! What can go wrong while a request is decoded, parsed and executed.

use vstd::prelude::*;

use crate::frame::{Frame, FrameView};

verus! {

/// A request frame that does not form a valid command.
#[derive(Clone, Copy, Debug, PartialEq, Eq, Structural)]
pub enum ParseError {
    /// An operand the command needs is not there.
    MissingArgument,
    /// More operands than the command takes.
    TrailingArgument,
    /// An operand that should be a number is not one.
    InvalidNumber,
    /// A number outside the values the command accepts.
    InvalidRange,
}

/// The failures this library decides on.
#[derive(Clone, Copy, Debug, PartialEq, Eq, Structural)]
pub enum Error {
    /// Bytes or frames that break the wire protocol.
    Protocol,
    /// A well-formed frame that is not a valid command.
    Parse(ParseError),
    /// An operation against a key that holds another kind of value.
    WrongType,
    /// A reply or notification could not be handed over.
    Delivery,
}

impl Error {
    /// The text a client is sent for this failure.
    pub open spec fn text(self) -> Seq<char> {
        match self {
            Error::Protocol => "ERR protocol error"@,
            Error::Parse(ParseError::MissingArgument) => "ERR missing argument"@,
            Error::Parse(ParseError::TrailingArgument) => "ERR trailing argument"@,
            Error::Parse(ParseError::InvalidNumber) => "ERR value is not a number"@,
            Error::Parse(ParseError::InvalidRange) => "ERR value is out of range"@,
            Error::WrongType => "WRONGTYPE Operation against a key holding the wrong kind of value"@,
            Error::Delivery => "ERR delivery failed"@,
        }
    }

    /// The text a client is sent for this failure.
    pub fn message(&self) -> (text: String)
        ensures
            text@ == self.text(),
    {
        let text = match self {
            Error::Protocol => "ERR protocol error",
            Error::Parse(ParseError::MissingArgument) => "ERR missing argument",
            Error::Parse(ParseError::TrailingArgument) => "ERR trailing argument",
            Error::Parse(ParseError::InvalidNumber) => "ERR value is not a number",
            Error::Parse(ParseError::InvalidRange) => "ERR value is out of range",
            Error::WrongType => "WRONGTYPE Operation against a key holding the wrong kind of value",
            Error::Delivery => "ERR delivery failed",
        };
        text.to_owned()
    }

    /// The error frame a client is sent for this failure.
    pub fn to_frame(&self) -> (frame: Frame)
        ensures
            frame@ == FrameView::Error(self.text()),
    {
        Frame::Error(self.message())
    }
}

} // verus!
