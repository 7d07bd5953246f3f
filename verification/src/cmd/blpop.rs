//! BLPOP: pop from the front of the first list that has data, or wait.

use vstd::prelude::*;

use crate::error::{Error, ParseError};
use crate::frame::FrameView;
use crate::parse::{all_text, texts_of, Parse};
use crate::timeout::{reading, Timeout};

verus! {

/// A request to pop from the front of the first of the lists in `list` that
/// has data, and to wait up to `timeout` for data if none has.
#[derive(Debug, Clone, PartialEq)]
pub struct Blpop {
    list: Vec<String>,
    timeout: Timeout,
}

/// What the operands `args` of a blocking pop mean: one key or more, then the
/// time to wait.
pub open spec fn pop_parsed(args: Seq<FrameView>) -> Result<(Seq<Seq<char>>, Timeout), Error> {
    if !all_text(args) {
        Err(Error::Protocol)
    } else if args.len() < 2 {
        Err(Error::Parse(ParseError::MissingArgument))
    } else {
        match reading(vstd::utf8::encode_utf8(texts_of(args).last())) {
            Ok(timeout) => Ok((texts_of(args).drop_last(), timeout)),
            Err(e) => Err(Error::Parse(e)),
        }
    }
}

/// Reads the operands of a blocking pop.
pub fn parse_pop(parse: &mut Parse) -> (operands: Result<(Vec<String>, Timeout), Error>)
    ensures
        operands is Ok ==> final(parse)@.len() == 0,
        match operands {
            Ok((keys, timeout)) => pop_parsed(old(parse)@) == Ok::<
                (Seq<Seq<char>>, Timeout),
                Error,
            >((keys.deep_view(), timeout)),
            Err(e) => pop_parsed(old(parse)@) == Err::<(Seq<Seq<char>>, Timeout), Error>(e),
        },
{
    let mut texts = match parse.rest() {
        Ok(texts) => texts,
        Err(e) => {
            return Err(e);
        },
    };
    if texts.len() < 2 {
        return Err(Error::Parse(ParseError::MissingArgument));
    }
    let ghost all = texts.deep_view();
    let last = texts.pop().unwrap();
    assert(texts.deep_view() =~= all.drop_last());
    assert(last@ == all.last());
    match Timeout::parse(last.as_str().as_bytes()) {
        Ok(timeout) => Ok((texts, timeout)),
        Err(e) => Err(Error::Parse(e)),
    }
}

impl View for Blpop {
    type V = (Seq<Seq<char>>, Timeout);

    /// The keys, in order, and the time to wait.
    closed spec fn view(&self) -> (Seq<Seq<char>>, Timeout) {
        (self.list.deep_view(), self.timeout)
    }
}

impl Blpop {
    /// A request without keys; `key` is not looked at.
    pub fn new(key: &str, timeout: Timeout) -> (cmd: Blpop)
        ensures
            cmd@ == (Seq::<Seq<char>>::empty(), timeout),
    {
        let cmd = Blpop { list: Vec::new(), timeout };
        assert(cmd.list.deep_view() =~= Seq::<Seq<char>>::empty());
        cmd
    }

    pub fn get_lists(&self) -> (list: &Vec<String>)
        ensures
            list.deep_view() == self@.0,
    {
        &self.list
    }

    pub fn get_timeout(&self) -> (timeout: &Timeout)
        ensures
            *timeout == self@.1,
    {
        &self.timeout
    }

    /// Reads the operands of BLPOP.
    pub fn parse_frames(parse: &mut Parse) -> (cmd: Result<Blpop, Error>)
        ensures
            cmd is Ok ==> final(parse)@.len() == 0,
            match cmd {
                Ok(c) => pop_parsed(old(parse)@) == Ok::<(Seq<Seq<char>>, Timeout), Error>(c@),
                Err(e) => pop_parsed(old(parse)@) == Err::<(Seq<Seq<char>>, Timeout), Error>(e),
            },
    {
        match parse_pop(parse) {
            Ok((list, timeout)) => Ok(Blpop { list, timeout }),
            Err(e) => Err(e),
        }
    }
}

} // verus!
