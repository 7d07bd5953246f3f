//! The commands a client can send, and how a request frame names one.

pub mod blpop;
pub mod brpop;
pub mod existence;
pub mod get;
pub mod lpush;
pub mod ping;
pub mod rpush;
pub mod select;
pub mod store;
pub mod unknown;

pub use crate::cmd::blpop::Blpop;
pub use crate::cmd::brpop::Brpop;
pub use crate::cmd::existence::Exists;
pub use crate::cmd::get::Get;
pub use crate::cmd::lpush::Lpush;
pub use crate::cmd::ping::Ping;
pub use crate::cmd::rpush::Rpush;
pub use crate::cmd::select::{Client, Select};
pub use crate::cmd::store::Store;
pub use crate::cmd::unknown::Unknown;

use vstd::prelude::*;
use vstd::utf8::encode_utf8;

use crate::cmd::blpop::pop_parsed;
use crate::cmd::lpush::push_parsed;
use crate::error::{Error, ParseError};
use crate::frame::{Frame, FrameView};
use crate::parse::{text_of, Parse};
use crate::timeout::Timeout;

verus! {

/// A request, read and checked.
#[derive(Debug, PartialEq)]
pub enum Command {
    Ping(Ping),
    Get(Get),
    Store(Store),
    Exists(Exists),
    Lpush(Lpush),
    Rpush(Rpush),
    Blpop(Blpop),
    Brpop(Brpop),
    Select(Select),
    Unknown(Unknown),
}

/// The model of a request.
pub ghost enum CommandView {
    /// PING with the message to echo, if there is one.
    Ping(Option<Seq<u8>>),
    /// GET of a key.
    Get(Seq<char>),
    /// SET of a key to a value.
    Store(Seq<char>, Seq<u8>),
    /// EXISTS of keys.
    Exists(Seq<Seq<char>>),
    /// LPUSH to a key of values.
    Lpush(Seq<char>, Seq<Seq<char>>),
    /// RPUSH to a key of values.
    Rpush(Seq<char>, Seq<Seq<char>>),
    /// BLPOP of keys with the time to wait.
    Blpop(Seq<Seq<char>>, Timeout),
    /// BRPOP of keys with the time to wait.
    Brpop(Seq<Seq<char>>, Timeout),
    /// SELECT of a shard.
    Select(usize),
    /// A name that no command has.
    Unknown(Seq<char>),
}

impl View for Command {
    type V = CommandView;

    open spec fn view(&self) -> CommandView {
        match self {
            Command::Ping(c) => CommandView::Ping(c@),
            Command::Get(c) => CommandView::Get(c@),
            Command::Store(c) => CommandView::Store(c@.0, c@.1),
            Command::Exists(c) => CommandView::Exists(c@),
            Command::Lpush(c) => CommandView::Lpush(c@.0, c@.1),
            Command::Rpush(c) => CommandView::Rpush(c@.0, c@.1),
            Command::Blpop(c) => CommandView::Blpop(c@.0, c@.1),
            Command::Brpop(c) => CommandView::Brpop(c@.0, c@.1),
            Command::Select(c) => CommandView::Select(c@),
            Command::Unknown(c) => CommandView::Unknown(c@),
        }
    }
}

/// The byte `b`, in lower case if it is a capital letter of ASCII.
pub open spec fn lower(b: u8) -> u8 {
    if 0x41 <= b <= 0x5a {
        (b + 0x20) as u8
    } else {
        b
    }
}

/// The bytes `s` with the capital letters of ASCII in lower case.
pub open spec fn lowered(s: Seq<u8>) -> Seq<u8> {
    Seq::new(s.len(), |i: int| lower(s[i]))
}

/// Whether `name` is `keyword`, which is written in lower case, but for the
/// case of its letters.
pub open spec fn names(name: Seq<char>, keyword: Seq<char>) -> bool {
    lowered(encode_utf8(name)) == encode_utf8(keyword)
}

/// Whether `name` is the lower-case `keyword` but for the case of its letters.
fn is_keyword(name: &[u8], keyword: &[u8]) -> (same: bool)
    ensures
        same == (lowered(name@) == keyword@),
{
    if name.len() != keyword.len() {
        return false;
    }
    let mut i: usize = 0;
    while i < name.len()
        invariant
            i <= name.len(),
            name.len() == keyword.len(),
            forall|j: int| 0 <= j < i ==> lower(#[trigger] name@[j]) == keyword@[j],
        decreases name.len() - i,
    {
        let b = name[i];
        let folded = if 0x41 <= b && b <= 0x5a {
            b + 0x20
        } else {
            b
        };
        if folded != keyword[i] {
            assert(lowered(name@)[i as int] != keyword@[i as int]);
            return false;
        }
        i += 1;
    }
    assert(lowered(name@) =~= keyword@);
    true
}

impl Command {
    /// What a request frame means.
    ///
    /// The frame has to be an array whose first item is the name of the
    /// command, in any case of its letters; the other items are its operands.
    /// A name that no command has makes an `Unknown` request, whatever the
    /// operands.
    pub open spec fn parsed(frame: FrameView) -> Result<CommandView, Error> {
        if !(frame is Array) {
            Err(Error::Protocol)
        } else if frame->Array_0.len() == 0 {
            Err(Error::Parse(ParseError::MissingArgument))
        } else if text_of(frame->Array_0[0]) is None {
            Err(Error::Protocol)
        } else {
            let name = text_of(frame->Array_0[0])->0;
            let args = frame->Array_0.drop_first();
            if names(name, "ping"@) {
                match Ping::parsed(args) {
                    Ok(v) => Ok(CommandView::Ping(v)),
                    Err(e) => Err(e),
                }
            } else if names(name, "get"@) {
                match Get::parsed(args) {
                    Ok(v) => Ok(CommandView::Get(v)),
                    Err(e) => Err(e),
                }
            } else if names(name, "set"@) {
                match Store::parsed(args) {
                    Ok(v) => Ok(CommandView::Store(v.0, v.1)),
                    Err(e) => Err(e),
                }
            } else if names(name, "exists"@) {
                match Exists::parsed(args) {
                    Ok(v) => Ok(CommandView::Exists(v)),
                    Err(e) => Err(e),
                }
            } else if names(name, "lpush"@) {
                match push_parsed(args) {
                    Ok(v) => Ok(CommandView::Lpush(v.0, v.1)),
                    Err(e) => Err(e),
                }
            } else if names(name, "rpush"@) {
                match push_parsed(args) {
                    Ok(v) => Ok(CommandView::Rpush(v.0, v.1)),
                    Err(e) => Err(e),
                }
            } else if names(name, "blpop"@) {
                match pop_parsed(args) {
                    Ok(v) => Ok(CommandView::Blpop(v.0, v.1)),
                    Err(e) => Err(e),
                }
            } else if names(name, "brpop"@) {
                match pop_parsed(args) {
                    Ok(v) => Ok(CommandView::Brpop(v.0, v.1)),
                    Err(e) => Err(e),
                }
            } else if names(name, "select"@) {
                match Select::parsed(args) {
                    Ok(v) => Ok(CommandView::Select(v)),
                    Err(e) => Err(e),
                }
            } else {
                Ok(CommandView::Unknown(name))
            }
        }
    }

    /// Reads a request frame.
    pub fn from_frame(frame: Frame) -> (cmd: Result<Command, Error>)
        ensures
            match cmd {
                Ok(c) => Command::parsed(frame@) == Ok::<CommandView, Error>(c@),
                Err(e) => Command::parsed(frame@) == Err::<CommandView, Error>(e),
            },
    {
        let mut parse = match Parse::new(frame) {
            Ok(parse) => parse,
            Err(e) => {
                return Err(e);
            },
        };
        let name = match parse.next_string() {
            Ok(name) => name,
            Err(e) => {
                return Err(e);
            },
        };
        let letters = name.as_str().as_bytes();
        if is_keyword(letters, "ping".as_bytes()) {
            match Ping::parse_frames(&mut parse) {
                Ok(c) => Ok(Command::Ping(c)),
                Err(e) => Err(e),
            }
        } else if is_keyword(letters, "get".as_bytes()) {
            match Get::parse_frames(&mut parse) {
                Ok(c) => Ok(Command::Get(c)),
                Err(e) => Err(e),
            }
        } else if is_keyword(letters, "set".as_bytes()) {
            match Store::parse_frames(&mut parse) {
                Ok(c) => Ok(Command::Store(c)),
                Err(e) => Err(e),
            }
        } else if is_keyword(letters, "exists".as_bytes()) {
            match Exists::parse_frames(&mut parse) {
                Ok(c) => Ok(Command::Exists(c)),
                Err(e) => Err(e),
            }
        } else if is_keyword(letters, "lpush".as_bytes()) {
            match Lpush::parse_frames(&mut parse) {
                Ok(c) => Ok(Command::Lpush(c)),
                Err(e) => Err(e),
            }
        } else if is_keyword(letters, "rpush".as_bytes()) {
            match Rpush::parse_frames(&mut parse) {
                Ok(c) => Ok(Command::Rpush(c)),
                Err(e) => Err(e),
            }
        } else if is_keyword(letters, "blpop".as_bytes()) {
            match Blpop::parse_frames(&mut parse) {
                Ok(c) => Ok(Command::Blpop(c)),
                Err(e) => Err(e),
            }
        } else if is_keyword(letters, "brpop".as_bytes()) {
            match Brpop::parse_frames(&mut parse) {
                Ok(c) => Ok(Command::Brpop(c)),
                Err(e) => Err(e),
            }
        } else if is_keyword(letters, "select".as_bytes()) {
            match Select::parse_frames(&mut parse) {
                Ok(c) => Ok(Command::Select(c)),
                Err(e) => Err(e),
            }
        } else {
            Ok(Command::Unknown(Unknown::new(name)))
        }
    }
}

} // verus!
