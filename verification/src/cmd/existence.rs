//! EXISTS: count the keys that hold a value.

use vstd::prelude::*;

use crate::error::{Error, ParseError};
use crate::frame::FrameView;
use crate::parse::{all_text, texts_of, Parse};

verus! {

/// A request to count which of the keys in `list` hold a value.
#[derive(Debug, Clone, PartialEq)]
pub struct Exists {
    list: Vec<String>,
}

impl View for Exists {
    type V = Seq<Seq<char>>;

    /// The keys, in order.
    closed spec fn view(&self) -> Seq<Seq<char>> {
        self.list.deep_view()
    }
}

impl Exists {
    /// What the operands `args` of EXISTS mean: one key or more.
    pub open spec fn parsed(args: Seq<FrameView>) -> Result<Seq<Seq<char>>, Error> {
        if args.len() == 0 {
            Err(Error::Parse(ParseError::MissingArgument))
        } else if !all_text(args) {
            Err(Error::Protocol)
        } else {
            Ok(texts_of(args))
        }
    }

    /// A request without keys; `key` is not looked at.
    pub fn new(key: &str) -> (cmd: Exists)
        ensures
            cmd@ == Seq::<Seq<char>>::empty(),
    {
        let cmd = Exists { list: Vec::new() };
        assert(cmd@ =~= Seq::<Seq<char>>::empty());
        cmd
    }

    pub fn get_lists(&self) -> (list: &Vec<String>)
        ensures
            list.deep_view() == self@,
    {
        &self.list
    }

    /// Reads the operands of EXISTS.
    pub fn parse_frames(parse: &mut Parse) -> (cmd: Result<Exists, Error>)
        ensures
            cmd is Ok ==> final(parse)@.len() == 0,
            match cmd {
                Ok(c) => Exists::parsed(old(parse)@) == Ok::<Seq<Seq<char>>, Error>(c@),
                Err(e) => Exists::parsed(old(parse)@) == Err::<Seq<Seq<char>>, Error>(e),
            },
    {
        if parse.finish().is_ok() {
            return Err(Error::Parse(ParseError::MissingArgument));
        }
        match parse.rest() {
            Ok(list) => Ok(Exists { list }),
            Err(e) => Err(e),
        }
    }
}

} // verus!
