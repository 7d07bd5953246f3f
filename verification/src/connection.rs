//! The bytes a connection has received and not yet read as frames.

use vstd::prelude::*;

use crate::buf::append;
use crate::error::Error;
use crate::frame::{decoding, Decoded, Frame};

verus! {

/// The receiving end of a connection: bytes are fed in as they arrive and
/// frames are taken out as they become whole.
pub struct Connection {
    buffer: Vec<u8>,
}

impl View for Connection {
    type V = Seq<u8>;

    /// The bytes received and not yet read, in order.
    closed spec fn view(&self) -> Seq<u8> {
        self.buffer@
    }
}

impl Connection {
    /// A connection that has received nothing.
    pub fn new() -> (connection: Connection)
        ensures
            connection@ == Seq::<u8>::empty(),
    {
        Connection { buffer: Vec::new() }
    }

    /// Takes in `bytes`, which have just arrived.
    pub fn feed(&mut self, bytes: &[u8])
        ensures
            final(self)@ == old(self)@ + bytes@,
    {
        append(&mut self.buffer, bytes);
    }

    /// Takes the next frame out of what was received, if a whole one is
    /// there; otherwise nothing changes. Nothing is handed out when only the
    /// beginning of a frame is there, and `Error::Protocol` when the bytes
    /// begin no frame.
    pub fn parse_frame(&mut self) -> (frame: Result<Option<Frame>, Error>)
        ensures
            match decoding(old(self)@, 0) {
                Decoded::Whole { frame: read, end } => {
                    &&& frame matches Ok(Some(f))
                    &&& f@ == read
                    &&& 0 < end <= old(self)@.len()
                    &&& final(self)@ == old(self)@.skip(end)
                },
                Decoded::Partial => frame matches Ok(None) && final(self)@ == old(self)@,
                Decoded::Broken => frame matches Err(e) && e == Error::Protocol && final(self)@
                    == old(self)@,
            },
    {
        match Frame::decode(self.buffer.as_slice()) {
            Ok(Some((frame, end))) => {
                let rest = self.buffer.split_off(end);
                self.buffer = rest;
                Ok(Some(frame))
            },
            Ok(None) => Ok(None),
            Err(e) => Err(e),
        }
    }

    /// What the end of the stream means: a clean close when every byte
    /// received was read as part of a frame, and `Error::Protocol` when the
    /// stream ends in the middle of a frame.
    pub fn close(&self) -> (closed: Result<(), Error>)
        ensures
            closed == if self@.len() == 0 {
                Ok::<(), Error>(())
            } else {
                Err::<(), Error>(Error::Protocol)
            },
    {
        if self.buffer.len() == 0 {
            Ok(())
        } else {
            Err(Error::Protocol)
        }
    }
}

} // verus!
