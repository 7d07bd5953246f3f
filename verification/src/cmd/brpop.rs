//! BRPOP: pop from the back of the first list that has data, or wait.

use vstd::prelude::*;

use crate::cmd::blpop::{parse_pop, pop_parsed};
use crate::error::Error;
use crate::parse::Parse;
use crate::timeout::Timeout;

verus! {

/// A request to pop from the back of the first of the lists in `list` that
/// has data, and to wait up to `timeout` for data if none has.
#[derive(Debug, Clone, PartialEq)]
pub struct Brpop {
    list: Vec<String>,
    timeout: Timeout,
}

impl View for Brpop {
    type V = (Seq<Seq<char>>, Timeout);

    /// The keys, in order, and the time to wait.
    closed spec fn view(&self) -> (Seq<Seq<char>>, Timeout) {
        (self.list.deep_view(), self.timeout)
    }
}

impl Brpop {
    /// A request without keys; `key` is not looked at.
    pub fn new(key: &str, timeout: Timeout) -> (cmd: Brpop)
        ensures
            cmd@ == (Seq::<Seq<char>>::empty(), timeout),
    {
        let cmd = Brpop { list: Vec::new(), timeout };
        assert(cmd.list.deep_view() =~= Seq::<Seq<char>>::empty());
        cmd
    }

    pub fn get_lists(&self) -> (list: &Vec<String>)
        ensures
            list.deep_view() == self@.0,
    {
        &self.list
    }

    pub fn get_timeout(&self) -> (timeout: &Timeout)
        ensures
            *timeout == self@.1,
    {
        &self.timeout
    }

    /// Reads the operands of BRPOP.
    pub fn parse_frames(parse: &mut Parse) -> (cmd: Result<Brpop, Error>)
        ensures
            cmd is Ok ==> final(parse)@.len() == 0,
            match cmd {
                Ok(c) => pop_parsed(old(parse)@) == Ok::<(Seq<Seq<char>>, Timeout), Error>(c@),
                Err(e) => pop_parsed(old(parse)@) == Err::<(Seq<Seq<char>>, Timeout), Error>(e),
            },
    {
        match parse_pop(parse) {
            Ok((list, timeout)) => Ok(Brpop { list, timeout }),
            Err(e) => Err(e),
        }
    }
}

} // verus!
