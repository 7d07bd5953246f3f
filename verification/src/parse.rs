//! A cursor over the parts of a request frame.

use bytes::Bytes;
use vstd::prelude::*;
use vstd::slice::slice_to_vec;
use vstd::utf8::{decode_utf8, encode_utf8, valid_utf8};

use crate::buf::{as_slice, contents, from_string, text_from_utf8};
use crate::error::{Error, ParseError};
use crate::frame::{lemma_array_view, views, Frame, FrameView};

verus! {

/// The text that a frame stands for as an operand: a simple string is its
/// text, a bulk string is the text it encodes in UTF-8.
pub open spec fn text_of(frame: FrameView) -> Option<Seq<char>> {
    match frame {
        FrameView::Simple(text) => Some(text),
        FrameView::Bulk(data) => if valid_utf8(data) {
            Some(decode_utf8(data))
        } else {
            None
        },
        _ => None,
    }
}

/// The bytes that a frame stands for as an operand: a bulk string is its
/// bytes, a simple string is the UTF-8 encoding of its text.
pub open spec fn data_of(frame: FrameView) -> Option<Seq<u8>> {
    match frame {
        FrameView::Simple(text) => Some(encode_utf8(text)),
        FrameView::Bulk(data) => Some(data),
        _ => None,
    }
}

/// Whether every one of `frames` stands for a text.
pub open spec fn all_text(frames: Seq<FrameView>) -> bool {
    forall|i: int| 0 <= i < frames.len() ==> text_of(#[trigger] frames[i]) is Some
}

/// The texts that `frames` stand for, in order.
pub open spec fn texts_of(frames: Seq<FrameView>) -> Seq<Seq<char>> {
    Seq::new(frames.len(), |i: int| text_of(frames[i])->0)
}

/// The parts that are left once the first was taken, if there was one.
pub open spec fn advanced(parts: Seq<FrameView>) -> Seq<FrameView> {
    if parts.len() > 0 {
        parts.drop_first()
    } else {
        parts
    }
}

/// The parts of a request that are still to be read.
pub struct Parse {
    /// What is left, the next part last.
    parts: Vec<Frame>,
}

impl View for Parse {
    type V = Seq<FrameView>;

    /// The parts that are left, the next one first.
    closed spec fn view(&self) -> Seq<FrameView> {
        views(self.parts@).reverse()
    }
}

impl Parse {
    /// A cursor at the first part of `frame`, which has to be an array.
    pub fn new(frame: Frame) -> (made: Result<Parse, Error>)
        ensures
            match made {
                Ok(parse) => frame@ == FrameView::Array(parse@),
                Err(e) => !(frame@ is Array) && e == Error::Protocol,
            },
    {
        match frame {
            Frame::Array(items) => {
                proof {
                    lemma_array_view(items);
                }
                let mut items = items;
                let ghost whole = views(items@);
                let mut parts: Vec<Frame> = Vec::new();
                assert(views(parts@) =~= Seq::<FrameView>::empty());
                while items.len() > 0
                    invariant
                        views(items@) + views(parts@).reverse() == whole,
                    decreases items.len(),
                {
                    let ghost before = views(items@);
                    let ghost turned = views(parts@);
                    let item = items.pop().unwrap();
                    parts.push(item);
                    proof {
                        assert(views(items@) =~= before.drop_last());
                        assert(views(parts@) =~= turned.push(item@));
                        assert(before.drop_last() + turned.push(item@).reverse() =~= before
                            + turned.reverse());
                    }
                }
                assert(views(items@) + views(parts@).reverse() =~= views(parts@).reverse());
                Ok(Parse { parts })
            },
            _ => Err(Error::Protocol),
        }
    }

    /// The next part, if one is left.
    pub fn next(&mut self) -> (part: Option<Frame>)
        ensures
            final(self)@ == advanced(old(self)@),
            match part {
                Some(frame) => old(self)@.len() > 0 && frame@ == old(self)@.first(),
                None => old(self)@.len() == 0,
            },
    {
        let ghost before = views(self.parts@);
        let part = self.parts.pop();
        proof {
            if part is Some {
                assert(views(self.parts@) =~= before.drop_last());
                assert(before.drop_last().reverse() =~= before.reverse().drop_first());
            }
        }
        part
    }

    /// The next part as a text. `MissingArgument` when no part is left;
    /// `Protocol` when the part stands for no text.
    pub fn next_string(&mut self) -> (text: Result<String, Error>)
        ensures
            final(self)@ == advanced(old(self)@),
            match text {
                Ok(s) => old(self)@.len() > 0 && text_of(old(self)@.first()) == Some(s@),
                Err(e) => if old(self)@.len() == 0 {
                    e == Error::Parse(ParseError::MissingArgument)
                } else {
                    text_of(old(self)@.first()) is None && e == Error::Protocol
                },
            },
    {
        match self.next() {
            Some(Frame::Simple(s)) => Ok(s),
            Some(Frame::Bulk(data)) => {
                match text_from_utf8(slice_to_vec(as_slice(&data))) {
                    Some(s) => Ok(s),
                    None => Err(Error::Protocol),
                }
            },
            Some(_) => Err(Error::Protocol),
            None => Err(Error::Parse(ParseError::MissingArgument)),
        }
    }

    /// The next part as bytes. `MissingArgument` when no part is left;
    /// `Protocol` when the part is neither a simple nor a bulk string.
    pub fn next_bytes(&mut self) -> (data: Result<Bytes, Error>)
        ensures
            final(self)@ == advanced(old(self)@),
            match data {
                Ok(b) => old(self)@.len() > 0 && data_of(old(self)@.first()) == Some(contents(b)),
                Err(e) => if old(self)@.len() == 0 {
                    e == Error::Parse(ParseError::MissingArgument)
                } else {
                    data_of(old(self)@.first()) is None && e == Error::Protocol
                },
            },
    {
        match self.next() {
            Some(Frame::Simple(s)) => Ok(from_string(s)),
            Some(Frame::Bulk(data)) => Ok(data),
            Some(_) => Err(Error::Protocol),
            None => Err(Error::Parse(ParseError::MissingArgument)),
        }
    }

    /// All the parts that are left, as texts. `Protocol` when one of them
    /// stands for no text.
    pub fn rest(&mut self) -> (texts: Result<Vec<String>, Error>)
        ensures
            final(self)@.len() == 0 || texts is Err,
            match texts {
                Ok(v) => all_text(old(self)@) && v.deep_view() == texts_of(old(self)@),
                Err(e) => !all_text(old(self)@) && e == Error::Protocol,
            },
    {
        let mut texts: Vec<String> = Vec::new();
        let ghost whole = self@;
        let ghost done: int = 0;
        assert(whole.skip(0) =~= whole);
        while self.parts.len() > 0
            invariant
                0 <= done <= whole.len(),
                whole == old(self)@,
                self@ == whole.skip(done),
                self@.len() == self.parts@.len(),
                all_text(whole.take(done)),
                texts.deep_view() == texts_of(whole.take(done)),
            decreases self.parts.len(),
        {
            proof {
                assert(whole.skip(done).first() == whole[done]);
                assert(whole.skip(done).drop_first() =~= whole.skip(done + 1));
            }
            match self.next_string() {
                Ok(s) => {
                    proof {
                        let grown = whole.take(done + 1);
                        assert(grown.drop_last() =~= whole.take(done));
                        assert forall|i: int| 0 <= i < grown.len() implies text_of(
                            #[trigger] grown[i],
                        ) is Some by {
                            if i < done {
                                assert(grown[i] == whole.take(done)[i]);
                            }
                        }
                        assert(texts.deep_view().push(s@) =~= texts_of(grown)) by {
                            assert forall|i: int| 0 <= i < done implies texts_of(grown)[i]
                                == texts_of(whole.take(done))[i] by {
                                assert(grown[i] == whole.take(done)[i]);
                            }
                        }
                    }
                    let ghost before = texts.deep_view();
                    texts.push(s);
                    proof {
                        assert(texts.deep_view() =~= before.push(s@));
                        done = done + 1;
                    }
                },
                Err(e) => {
                    assert(text_of(whole[done]) is None);
                    return Err(e);
                },
            }
        }
        assert(whole.take(done) =~= whole);
        Ok(texts)
    }

    /// Succeeds when no part is left; `TrailingArgument` otherwise.
    pub fn finish(&self) -> (done: Result<(), Error>)
        ensures
            done == if self@.len() == 0 {
                Ok::<(), Error>(())
            } else {
                Err::<(), Error>(Error::Parse(ParseError::TrailingArgument))
            },
    {
        if self.parts.len() == 0 {
            Ok(())
        } else {
            Err(Error::Parse(ParseError::TrailingArgument))
        }
    }
}

} // verus!
