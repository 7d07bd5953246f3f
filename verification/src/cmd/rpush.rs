//! RPUSH: push values at the back of a list.

use vstd::prelude::*;

use crate::cmd::lpush::{parse_push, push_parsed};
use crate::error::Error;
use crate::parse::Parse;

verus! {

/// A request to push the values in `list`, in order, at the back of the list
/// at `key`.
#[derive(Debug, Clone, PartialEq)]
pub struct Rpush {
    key: String,
    list: Vec<String>,
}

impl View for Rpush {
    type V = (Seq<char>, Seq<Seq<char>>);

    /// The key and the values, in order.
    closed spec fn view(&self) -> (Seq<char>, Seq<Seq<char>>) {
        (self.key@, self.list.deep_view())
    }
}

impl Rpush {
    /// A request for `key` without values.
    pub fn new(key: &str) -> (cmd: Rpush)
        ensures
            cmd@ == (key@, Seq::<Seq<char>>::empty()),
    {
        let cmd = Rpush { key: key.to_owned(), list: Vec::new() };
        assert(cmd.list.deep_view() =~= Seq::<Seq<char>>::empty());
        cmd
    }

    pub fn key(&self) -> (key: &str)
        ensures
            key@ == self@.0,
    {
        self.key.as_str()
    }

    pub fn get_lists(&self) -> (list: &Vec<String>)
        ensures
            list.deep_view() == self@.1,
    {
        &self.list
    }

    /// Reads the operands of RPUSH.
    pub fn parse_frames(parse: &mut Parse) -> (cmd: Result<Rpush, Error>)
        ensures
            cmd is Ok ==> final(parse)@.len() == 0,
            match cmd {
                Ok(c) => push_parsed(old(parse)@) == Ok::<(Seq<char>, Seq<Seq<char>>), Error>(c@),
                Err(e) => push_parsed(old(parse)@) == Err::<(Seq<char>, Seq<Seq<char>>), Error>(e),
            },
    {
        match parse_push(parse) {
            Ok((key, list)) => Ok(Rpush { key, list }),
            Err(e) => Err(e),
        }
    }
}

} // verus!
