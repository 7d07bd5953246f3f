//! GET: read the byte string stored at a key.

use vstd::prelude::*;

use crate::error::{Error, ParseError};
use crate::frame::FrameView;
use crate::parse::{text_of, Parse};

verus! {

/// A request for the byte string at `key`.
#[derive(Debug, PartialEq)]
pub struct Get {
    key: String,
}

impl View for Get {
    type V = Seq<char>;

    /// The key.
    closed spec fn view(&self) -> Seq<char> {
        self.key@
    }
}

impl Get {
    /// What the operands `args` of GET mean: exactly one key.
    pub open spec fn parsed(args: Seq<FrameView>) -> Result<Seq<char>, Error> {
        if args.len() == 0 {
            Err(Error::Parse(ParseError::MissingArgument))
        } else if text_of(args[0]) is None {
            Err(Error::Protocol)
        } else if args.len() > 1 {
            Err(Error::Parse(ParseError::TrailingArgument))
        } else {
            Ok(text_of(args[0])->0)
        }
    }

    pub fn new(key: String) -> (cmd: Get)
        ensures
            cmd@ == key@,
    {
        Get { key }
    }

    pub fn key(&self) -> (key: &str)
        ensures
            key@ == self@,
    {
        self.key.as_str()
    }

    /// Reads the operands of GET.
    pub fn parse_frames(parse: &mut Parse) -> (cmd: Result<Get, Error>)
        ensures
            cmd is Ok ==> final(parse)@.len() == 0,
            match cmd {
                Ok(c) => Get::parsed(old(parse)@) == Ok::<Seq<char>, Error>(c@),
                Err(e) => Get::parsed(old(parse)@) == Err::<Seq<char>, Error>(e),
            },
    {
        let key = match parse.next_string() {
            Ok(key) => key,
            Err(e) => {
                return Err(e);
            },
        };
        match parse.finish() {
            Ok(()) => Ok(Get { key }),
            Err(e) => Err(e),
        }
    }
}

} // verus!
