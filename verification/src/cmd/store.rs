//! SET: store a byte string at a key.

use bytes::Bytes;
use vstd::prelude::*;

use crate::buf::contents;
use crate::error::{Error, ParseError};
use crate::frame::FrameView;
use crate::parse::{data_of, text_of, Parse};

verus! {

/// A request to store `value` at `key`.
#[derive(Debug, PartialEq)]
pub struct Store {
    key: String,
    value: Bytes,
}

impl View for Store {
    type V = (Seq<char>, Seq<u8>);

    /// The key and the value.
    closed spec fn view(&self) -> (Seq<char>, Seq<u8>) {
        (self.key@, contents(self.value))
    }
}

impl Store {
    /// What the operands `args` of SET mean: exactly a key and a value.
    pub open spec fn parsed(args: Seq<FrameView>) -> Result<(Seq<char>, Seq<u8>), Error> {
        if args.len() == 0 {
            Err(Error::Parse(ParseError::MissingArgument))
        } else if text_of(args[0]) is None {
            Err(Error::Protocol)
        } else if args.len() == 1 {
            Err(Error::Parse(ParseError::MissingArgument))
        } else if data_of(args[1]) is None {
            Err(Error::Protocol)
        } else if args.len() > 2 {
            Err(Error::Parse(ParseError::TrailingArgument))
        } else {
            Ok((text_of(args[0])->0, data_of(args[1])->0))
        }
    }

    pub fn new(key: String, value: Bytes) -> (cmd: Store)
        ensures
            cmd@ == (key@, contents(value)),
    {
        Store { key, value }
    }

    pub fn key(&self) -> (key: &str)
        ensures
            key@ == self@.0,
    {
        self.key.as_str()
    }

    pub fn value(&self) -> (value: &Bytes)
        ensures
            contents(*value) == self@.1,
    {
        &self.value
    }

    /// Reads the operands of SET.
    pub fn parse_frames(parse: &mut Parse) -> (cmd: Result<Store, Error>)
        ensures
            cmd is Ok ==> final(parse)@.len() == 0,
            match cmd {
                Ok(c) => Store::parsed(old(parse)@) == Ok::<(Seq<char>, Seq<u8>), Error>(c@),
                Err(e) => Store::parsed(old(parse)@) == Err::<(Seq<char>, Seq<u8>), Error>(e),
            },
    {
        let key = match parse.next_string() {
            Ok(key) => key,
            Err(e) => {
                return Err(e);
            },
        };
        let value = match parse.next_bytes() {
            Ok(value) => value,
            Err(e) => {
                return Err(e);
            },
        };
        match parse.finish() {
            Ok(()) => Ok(Store { key, value }),
            Err(e) => Err(e),
        }
    }
}

} // verus!
