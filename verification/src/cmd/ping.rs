//! PING: ask for a sign of life, with or without a message to echo.

use bytes::Bytes;
use vstd::prelude::*;

use crate::buf::{contents, from_string};
use crate::error::{Error, ParseError};
use crate::frame::{lemma_array_view, views, Frame, FrameView};
use crate::parse::{data_of, Parse};

verus! {

/// A ping; `key` is the message to echo, if one was given.
#[derive(Debug, PartialEq)]
pub struct Ping {
    key: Option<Bytes>,
}

/// The bytes behind an optional handle.
pub open spec fn message(key: Option<Bytes>) -> Option<Seq<u8>> {
    match key {
        Some(data) => Some(contents(data)),
        None => None,
    }
}

impl View for Ping {
    type V = Option<Seq<u8>>;

    /// The message, if there is one.
    closed spec fn view(&self) -> Option<Seq<u8>> {
        message(self.key)
    }
}

impl Ping {
    /// What the operands `args` of PING mean: a message or nothing.
    pub open spec fn parsed(args: Seq<FrameView>) -> Result<Option<Seq<u8>>, Error> {
        if args.len() == 0 {
            Ok(None)
        } else if data_of(args[0]) is None {
            Err(Error::Protocol)
        } else if args.len() > 1 {
            Err(Error::Parse(ParseError::TrailingArgument))
        } else {
            Ok(data_of(args[0]))
        }
    }

    /// A ping with the message `key`.
    pub fn new(key: String) -> (cmd: Ping)
        ensures
            cmd@ == Some(vstd::utf8::encode_utf8(key@)),
    {
        Ping { key: Some(from_string(key)) }
    }

    pub fn key(&self) -> (key: &Option<Bytes>)
        ensures
            message(*key) == self@,
    {
        &self.key
    }

    /// The request frame that asks for this ping: the name, then the message
    /// if there is one.
    pub fn into_frame(self) -> (frame: Frame)
        ensures
            frame@ == FrameView::Array(
                match self@ {
                    Some(data) => seq![
                        FrameView::Bulk(vstd::utf8::encode_utf8("ping"@)),
                        FrameView::Bulk(data),
                    ],
                    None => seq![FrameView::Bulk(vstd::utf8::encode_utf8("ping"@))],
                },
            ),
    {
        let mut items: Vec<Frame> = Vec::new();
        items.push(Frame::Bulk(from_string("ping".to_owned())));
        match self.key {
            Some(data) => {
                items.push(Frame::Bulk(data));
            },
            None => {},
        }
        proof {
            lemma_array_view(items);
            assert(views(items@) =~= match self@ {
                Some(data) => seq![
                    FrameView::Bulk(vstd::utf8::encode_utf8("ping"@)),
                    FrameView::Bulk(data),
                ],
                None => seq![FrameView::Bulk(vstd::utf8::encode_utf8("ping"@))],
            });
        }
        Frame::Array(items)
    }

    /// Reads the operands of PING.
    pub fn parse_frames(parse: &mut Parse) -> (cmd: Result<Ping, Error>)
        ensures
            cmd is Ok ==> final(parse)@.len() == 0,
            match cmd {
                Ok(c) => Ping::parsed(old(parse)@) == Ok::<Option<Seq<u8>>, Error>(c@),
                Err(e) => Ping::parsed(old(parse)@) == Err::<Option<Seq<u8>>, Error>(e),
            },
    {
        if parse.finish().is_ok() {
            return Ok(Ping { key: None });
        }
        let key = match parse.next_bytes() {
            Ok(key) => key,
            Err(e) => {
                return Err(e);
            },
        };
        match parse.finish() {
            Ok(()) => Ok(Ping { key: Some(key) }),
            Err(e) => Err(e),
        }
    }
}

} // verus!
