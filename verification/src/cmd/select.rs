//! SELECT: choose the shard that a connection talks to.

use vstd::prelude::*;
use vstd::slice::slice_subrange;

use crate::buf::as_slice;
use crate::db::NUM_DBS;
use crate::error::{Error, ParseError};
use crate::frame::{Frame, FrameView};
use crate::num::{is_numeral, value, Numeral};
use crate::parse::{data_of, Parse};

verus! {

/// The characters `+` and `-`.
pub const PLUS: u8 = 0x2b;

pub const MINUS: u8 = 0x2d;

/// A request to talk to the shard `db_index` from now on.
#[derive(Debug, PartialEq)]
pub struct Select {
    db_index: usize,
}

/// What a connection remembers between requests: the shard it talks to.
pub struct Client {
    index: usize,
}

impl View for Client {
    type V = usize;

    /// The index of the active shard.
    closed spec fn view(&self) -> usize {
        self.index
    }
}

impl Client {
    #[verifier::type_invariant]
    spec fn in_range(self) -> bool {
        self.index < NUM_DBS
    }

    /// A connection that talks to shard 0.
    pub fn new() -> (client: Client)
        ensures
            client@ == 0,
    {
        Client { index: 0 }
    }

    /// The index of the active shard.
    pub fn index(&self) -> (index: usize)
        ensures
            index == self@,
            index < NUM_DBS,
    {
        proof {
            use_type_invariant(self);
        }
        self.index
    }
}

/// The shard that the operand `s` names.
///
/// The operand is a numeral, which a sign may precede. It is `InvalidNumber`
/// when it has another form and `InvalidRange` when the number is below zero
/// or not below the number of shards.
pub open spec fn index_reading(s: Seq<u8>) -> Result<usize, ParseError> {
    let signed = s.len() > 0 && (s[0] == PLUS || s[0] == MINUS);
    let body = if signed {
        s.drop_first()
    } else {
        s
    };
    if !is_numeral(body) {
        Err(ParseError::InvalidNumber)
    } else if value(body) >= NUM_DBS || (s[0] == MINUS && value(body) > 0) {
        Err(ParseError::InvalidRange)
    } else {
        Ok(value(body) as usize)
    }
}

/// Reads the operand `s` as the index of a shard.
pub fn parse_index(s: &[u8]) -> (index: Result<usize, ParseError>)
    ensures
        index == index_reading(s@),
{
    let signed = s.len() > 0 && (s[0] == PLUS || s[0] == MINUS);
    let body = if signed {
        slice_subrange(s, 1, s.len())
    } else {
        s
    };
    assert(body@ =~= if signed {
        s@.drop_first()
    } else {
        s@
    });
    match crate::num::parse(body) {
        Numeral::Value(n) => {
            if n >= NUM_DBS as u64 || (s[0] == MINUS && n > 0) {
                Err(ParseError::InvalidRange)
            } else {
                Ok(n as usize)
            }
        },
        Numeral::TooLarge => Err(ParseError::InvalidRange),
        Numeral::Malformed => Err(ParseError::InvalidNumber),
    }
}

impl View for Select {
    type V = usize;

    /// The index of the shard.
    closed spec fn view(&self) -> usize {
        self.db_index
    }
}

impl Select {
    /// What the operands `args` of SELECT mean: exactly one index of a shard.
    pub open spec fn parsed(args: Seq<FrameView>) -> Result<usize, Error> {
        if args.len() == 0 {
            Err(Error::Parse(ParseError::MissingArgument))
        } else if data_of(args[0]) is None {
            Err(Error::Protocol)
        } else {
            match index_reading(data_of(args[0])->0) {
                Err(e) => Err(Error::Parse(e)),
                Ok(index) => if args.len() > 1 {
                    Err(Error::Parse(ParseError::TrailingArgument))
                } else {
                    Ok(index)
                },
            }
        }
    }

    pub fn new(db_index: usize) -> (cmd: Select)
        ensures
            cmd@ == db_index,
    {
        Select { db_index }
    }

    /// Get the db index
    pub fn db_index(&self) -> (index: &usize)
        ensures
            *index == self@,
    {
        &self.db_index
    }

    /// Reads the operands of SELECT.
    pub fn parse_frames(parse: &mut Parse) -> (cmd: Result<Select, Error>)
        ensures
            cmd is Ok ==> final(parse)@.len() == 0,
            match cmd {
                Ok(c) => Select::parsed(old(parse)@) == Ok::<usize, Error>(c@) && c@ < NUM_DBS,
                Err(e) => Select::parsed(old(parse)@) == Err::<usize, Error>(e),
            },
    {
        let operand = match parse.next_bytes() {
            Ok(operand) => operand,
            Err(e) => {
                return Err(e);
            },
        };
        let db_index = match parse_index(as_slice(&operand)) {
            Ok(db_index) => db_index,
            Err(e) => {
                return Err(Error::Parse(e));
            },
        };
        match parse.finish() {
            Ok(()) => Ok(Select { db_index }),
            Err(e) => Err(e),
        }
    }

    /// Makes the shard of this request the active one of `client` and hands
    /// out the acknowledgement. An index that names no shard changes nothing
    /// and is answered with the `InvalidRange` error.
    pub fn apply(self, client: &mut Client) -> (reply: Frame)
        ensures
            self@ < NUM_DBS ==> final(client)@ == self@ && reply@ == FrameView::Simple("OK"@),
            self@ >= NUM_DBS ==> final(client)@ == old(client)@ && reply@ == FrameView::Error(
                Error::Parse(ParseError::InvalidRange).text(),
            ),
    {
        if self.db_index < NUM_DBS {
            client.index = self.db_index;
            Frame::Simple("OK".to_owned())
        } else {
            Error::Parse(ParseError::InvalidRange).to_frame()
        }
    }
}

} // verus!
