//! LPUSH: push values at the front of a list.

use std::collections::VecDeque;
use vstd::prelude::*;

use crate::error::{Error, ParseError};
use crate::frame::FrameView;
use crate::parse::{all_text, text_of, texts_of, Parse};

verus! {

/// A request to push the values in `list`, in order, at the front of the list
/// at `key`.
#[derive(Debug, Clone, PartialEq)]
pub struct Lpush {
    key: String,
    list: VecDeque<String>,
}

/// What the operands `args` of a push mean: a key, then one value or more.
pub open spec fn push_parsed(args: Seq<FrameView>) -> Result<(Seq<char>, Seq<Seq<char>>), Error> {
    if args.len() == 0 {
        Err(Error::Parse(ParseError::MissingArgument))
    } else if !all_text(args) {
        Err(Error::Protocol)
    } else if args.len() == 1 {
        Err(Error::Parse(ParseError::MissingArgument))
    } else {
        Ok((text_of(args[0])->0, texts_of(args.drop_first())))
    }
}

/// Reads the operands of a push.
pub fn parse_push(parse: &mut Parse) -> (operands: Result<(String, Vec<String>), Error>)
    ensures
        operands is Ok ==> final(parse)@.len() == 0,
        match operands {
            Ok((key, values)) => push_parsed(old(parse)@) == Ok::<
                (Seq<char>, Seq<Seq<char>>),
                Error,
            >((key@, values.deep_view())),
            Err(e) => push_parsed(old(parse)@) == Err::<(Seq<char>, Seq<Seq<char>>), Error>(e),
        },
{
    let ghost args = parse@;
    if parse.finish().is_ok() {
        return Err(Error::Parse(ParseError::MissingArgument));
    }
    let key = match parse.next_string() {
        Ok(key) => key,
        Err(e) => {
            return Err(e);
        },
    };
    let values = match parse.rest() {
        Ok(values) => values,
        Err(e) => {
            proof {
                let later = args.drop_first();
                let i = choose|i: int| 0 <= i < later.len() && text_of(#[trigger] later[i]) is None;
                assert(text_of(args[i + 1]) is None);
            }
            return Err(e);
        },
    };
    proof {
        let later = args.drop_first();
        assert forall|i: int| 0 <= i < args.len() implies text_of(#[trigger] args[i]) is Some by {
            if i > 0 {
                assert(text_of(later[i - 1]) is Some);
            }
        }
        assert(values.deep_view().len() == values.len());
    }
    if values.len() == 0 {
        return Err(Error::Parse(ParseError::MissingArgument));
    }
    Ok((key, values))
}

/// The values of `values`, in order, in a deque.
pub fn into_deque(values: Vec<String>) -> (list: VecDeque<String>)
    ensures
        list.deep_view() == values.deep_view(),
{
    let mut values = values;
    let ghost whole = values@;
    let mut list: VecDeque<String> = VecDeque::new();
    while values.len() > 0
        invariant
            values@ + list@ == whole,
        decreases values.len(),
    {
        let ghost before = values@;
        let ghost moved = list@;
        let value = values.pop().unwrap();
        list.push_front(value);
        assert(before.drop_last() + (seq![value] + moved) =~= before + moved);
    }
    assert(values@ + list@ =~= list@);
    assert(list.deep_view() =~= whole.map_values(|s: String| s.deep_view())) by {
        assert(list@ == whole);
    }
    assert(values.deep_view() =~= Seq::<Seq<char>>::empty());
    assert(list.deep_view() =~= Seq::new(whole.len(), |i: int| whole[i]@));
    list
}

impl View for Lpush {
    type V = (Seq<char>, Seq<Seq<char>>);

    /// The key and the values, in order.
    closed spec fn view(&self) -> (Seq<char>, Seq<Seq<char>>) {
        (self.key@, self.list.deep_view())
    }
}

impl Lpush {
    /// A request for `key` without values.
    pub fn new(key: &str) -> (cmd: Lpush)
        ensures
            cmd@ == (key@, Seq::<Seq<char>>::empty()),
    {
        let cmd = Lpush { key: key.to_owned(), list: VecDeque::new() };
        assert(cmd.list.deep_view() =~= Seq::<Seq<char>>::empty());
        cmd
    }

    pub fn key(&self) -> (key: &str)
        ensures
            key@ == self@.0,
    {
        self.key.as_str()
    }

    pub fn get_lists(&self) -> (list: &VecDeque<String>)
        ensures
            list.deep_view() == self@.1,
    {
        &self.list
    }

    /// Reads the operands of LPUSH.
    pub fn parse_frames(parse: &mut Parse) -> (cmd: Result<Lpush, Error>)
        ensures
            cmd is Ok ==> final(parse)@.len() == 0,
            match cmd {
                Ok(c) => push_parsed(old(parse)@) == Ok::<(Seq<char>, Seq<Seq<char>>), Error>(c@),
                Err(e) => push_parsed(old(parse)@) == Err::<(Seq<char>, Seq<Seq<char>>), Error>(e),
            },
    {
        match parse_push(parse) {
            Ok((key, values)) => Ok(Lpush { key, list: into_deque(values) }),
            Err(e) => Err(e),
        }
    }
}

} // verus!
