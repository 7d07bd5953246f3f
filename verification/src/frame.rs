//! Wire frames and their mathematical model.

use bytes::Bytes;
use vstd::prelude::*;

use crate::buf::{append, as_slice, contents, from_vec, text_from_utf8};
use crate::error::Error;
use crate::num::{digits, read, Numeral};
use vstd::slice::{slice_subrange, slice_to_vec};
use vstd::utf8::{decode_utf8, encode_utf8, valid_utf8};

verus! {

/// One self-describing unit of the wire protocol.
#[derive(Debug, PartialEq)]
pub enum Frame {
    Simple(String),
    Error(String),
    Integer(u64),
    Bulk(Bytes),
    Null,
    Array(Vec<Frame>),
}

/// What a frame is, without regard to how it is stored.
pub ghost enum FrameView {
    Simple(Seq<char>),
    Error(Seq<char>),
    Integer(u64),
    Bulk(Seq<u8>),
    Null,
    Array(Seq<FrameView>),
}

impl View for Frame {
    type V = FrameView;

    open spec fn view(&self) -> FrameView
        decreases self, 0nat,
    {
        match self {
            Frame::Simple(s) => FrameView::Simple(s@),
            Frame::Error(s) => FrameView::Error(s@),
            Frame::Integer(n) => FrameView::Integer(*n),
            Frame::Bulk(b) => FrameView::Bulk(contents(*b)),
            Frame::Null => FrameView::Null,
            Frame::Array(items) => FrameView::Array(models(*items, items.len() as nat)),
        }
    }
}

/// The models of the first `count` of `frames`.
pub open spec fn models(frames: Vec<Frame>, count: nat) -> Seq<FrameView>
    decreases frames, count,
{
    if count == 0 || count > frames.len() {
        Seq::empty()
    } else {
        models(frames, (count - 1) as nat).push(frames[count - 1]@)
    }
}

/// The models of a sequence of frames.
pub open spec fn views(frames: Seq<Frame>) -> Seq<FrameView> {
    Seq::new(frames.len(), |i: int| frames[i]@)
}

/// The model of an array holds the models of its items, in order.
pub proof fn lemma_models(frames: Vec<Frame>, count: nat)
    requires
        count <= frames.len(),
    ensures
        models(frames, count) == views(frames@.take(count as int)),
    decreases count,
{
    if count > 0 {
        lemma_models(frames, (count - 1) as nat);
        assert(views(frames@.take(count as int)) =~= views(frames@.take(count - 1)).push(
            frames[count - 1]@,
        ));
    } else {
        assert(views(frames@.take(0)) =~= Seq::<FrameView>::empty());
    }
}

/// The model of the array of `frames`.
pub proof fn lemma_array_view(frames: Vec<Frame>)
    ensures
        Frame::Array(frames)@ == FrameView::Array(views(frames@)),
{
    lemma_models(frames, frames.len() as nat);
    assert(frames@.take(frames.len() as int) =~= frames@);
}

/// Carriage return and line feed: together they end a line.
pub const CR: u8 = 0x0d;

pub const LF: u8 = 0x0a;

/// The byte that opens a simple string.
pub const SIMPLE: u8 = 0x2b;

/// The byte that opens an error.
pub const ERROR: u8 = 0x2d;

/// The byte that opens an integer.
pub const INTEGER: u8 = 0x3a;

/// The byte that opens a bulk string, and the null.
pub const BULK: u8 = 0x24;

/// The byte that opens an array.
pub const ARRAY: u8 = 0x2a;

/// What stands between `$` and the line's end in the null.
pub open spec fn minus_one() -> Seq<u8> {
    seq![0x2du8, 0x31u8]
}

/// A line: the byte `head`, then `body`, then CR LF.
pub open spec fn line(head: u8, body: Seq<u8>) -> Seq<u8> {
    seq![head] + body + seq![CR, LF]
}

/// The bytes that stand for a frame on the wire.
pub open spec fn encoding(frame: FrameView) -> Seq<u8>
    decreases frame, 0nat,
{
    match frame {
        FrameView::Simple(text) => line(SIMPLE, encode_utf8(text)),
        FrameView::Error(text) => line(ERROR, encode_utf8(text)),
        FrameView::Integer(n) => line(INTEGER, digits(n as nat)),
        FrameView::Bulk(data) => line(BULK, digits(data.len())) + data + seq![CR, LF],
        FrameView::Null => line(BULK, minus_one()),
        FrameView::Array(items) => line(ARRAY, digits(items.len())) + encoding_from(items, 0),
    }
}

/// The encodings of `items[from..]`, one after the other.
pub open spec fn encoding_from(items: Seq<FrameView>, from: int) -> Seq<u8>
    decreases items, items.len() - from,
{
    if 0 <= from < items.len() {
        encoding(items[from]) + encoding_from(items, from + 1)
    } else {
        Seq::empty()
    }
}

/// Where the first CR LF at or after `from` begins, if there is one.
pub open spec fn line_end(s: Seq<u8>, from: int) -> Option<int>
    decreases s.len() - from,
{
    if from < 0 || from + 1 >= s.len() {
        None
    } else if s[from] == CR && s[from + 1] == LF {
        Some(from)
    } else {
        line_end(s, from + 1)
    }
}

/// What the bytes from some position on hold.
pub ghost enum Decoded {
    /// A whole frame, which ends just before position `end`.
    Whole { frame: FrameView, end: int },
    /// The beginning of a frame; more bytes are needed.
    Partial,
    /// Bytes that begin no frame.
    Broken,
}

/// What the bytes from some position on hold, read as a run of frames.
pub ghost enum DecodedRun {
    Whole { items: Seq<FrameView>, end: int },
    Partial,
    Broken,
}

/// A run of frames taken as the items of one array.
pub open spec fn as_array(run: DecodedRun) -> Decoded {
    match run {
        DecodedRun::Whole { items, end } => Decoded::Whole { frame: FrameView::Array(items), end },
        DecodedRun::Partial => Decoded::Partial,
        DecodedRun::Broken => Decoded::Broken,
    }
}

/// Reads one frame that begins at position `at` of `s`.
///
/// Every frame opens with a byte that tells its kind and a line that ends in
/// CR LF. A simple string and an error hold the line as UTF-8 text; an integer
/// holds it as a numeral of at most 64 bits. A bulk string's line is the
/// numeral of its length, followed by that many bytes and CR LF; the line `-1`
/// is the null. An array's line is the numeral of its length, followed by that
/// many frames. Bytes that can still grow into a frame are `Partial`; bytes
/// that cannot are `Broken`.
pub open spec fn decoding(s: Seq<u8>, at: int) -> Decoded
    decreases s.len() - at, 0nat,
{
    if at < 0 || at >= s.len() {
        Decoded::Partial
    } else if s[at] != SIMPLE && s[at] != ERROR && s[at] != INTEGER && s[at] != BULK && s[at]
        != ARRAY {
        Decoded::Broken
    } else {
        match line_end(s, at + 1) {
            None => Decoded::Partial,
            Some(stop) => {
                let body = s.subrange(at + 1, stop);
                let next = stop + 2;
                if stop <= at || next > s.len() {
                    Decoded::Broken
                } else if s[at] == SIMPLE {
                    if valid_utf8(body) {
                        Decoded::Whole { frame: FrameView::Simple(decode_utf8(body)), end: next }
                    } else {
                        Decoded::Broken
                    }
                } else if s[at] == ERROR {
                    if valid_utf8(body) {
                        Decoded::Whole { frame: FrameView::Error(decode_utf8(body)), end: next }
                    } else {
                        Decoded::Broken
                    }
                } else if s[at] == INTEGER {
                    match read(body) {
                        Numeral::Value(n) => Decoded::Whole {
                            frame: FrameView::Integer(n),
                            end: next,
                        },
                        _ => Decoded::Broken,
                    }
                } else if s[at] == BULK {
                    if body == minus_one() {
                        Decoded::Whole { frame: FrameView::Null, end: next }
                    } else {
                        match read(body) {
                            Numeral::Value(n) => {
                                if s.len() < next + n + 2 {
                                    Decoded::Partial
                                } else if s[next + n] == CR && s[next + n + 1] == LF {
                                    Decoded::Whole {
                                        frame: FrameView::Bulk(s.subrange(next, next + n)),
                                        end: next + n + 2,
                                    }
                                } else {
                                    Decoded::Broken
                                }
                            },
                            _ => Decoded::Broken,
                        }
                    }
                } else {
                    match read(body) {
                        Numeral::Value(n) => as_array(decoding_run(s, next, n as nat)),
                        _ => Decoded::Broken,
                    }
                }
            },
        }
    }
}

/// Reads `count` frames, one after the other, from position `at` of `s`.
pub open spec fn decoding_run(s: Seq<u8>, at: int, count: nat) -> DecodedRun
    decreases s.len() - at, count + 1,
{
    if count == 0 {
        DecodedRun::Whole { items: Seq::empty(), end: at }
    } else {
        match decoding(s, at) {
            Decoded::Whole { frame, end } => {
                if end <= at || end > s.len() {
                    DecodedRun::Broken
                } else {
                    match decoding_run(s, end, (count - 1) as nat) {
                        DecodedRun::Whole { items, end } => DecodedRun::Whole {
                            items: seq![frame] + items,
                            end,
                        },
                        DecodedRun::Partial => DecodedRun::Partial,
                        DecodedRun::Broken => DecodedRun::Broken,
                    }
                }
            },
            Decoded::Partial => DecodedRun::Partial,
            Decoded::Broken => DecodedRun::Broken,
        }
    }
}

/// A run of frames with `before` in front of it.
pub open spec fn after(before: Seq<FrameView>, run: DecodedRun) -> DecodedRun {
    match run {
        DecodedRun::Whole { items, end } => DecodedRun::Whole { items: before + items, end },
        DecodedRun::Partial => DecodedRun::Partial,
        DecodedRun::Broken => DecodedRun::Broken,
    }
}

/// What a decoder hands out, as a model.
pub open spec fn outcome(decoded: Result<Option<(Frame, usize)>, Error>) -> Decoded {
    match decoded {
        Ok(Some((frame, end))) => Decoded::Whole { frame: frame@, end: end as int },
        Ok(None) => Decoded::Partial,
        Err(_) => Decoded::Broken,
    }
}

proof fn lemma_line_end(s: Seq<u8>, from: int)
    requires
        0 <= from,
    ensures
        line_end(s, from) matches Some(stop) ==> from <= stop && stop + 2 <= s.len() && s[stop]
            == CR && s[stop + 1] == LF,
    decreases s.len() - from,
{
    if from + 1 < s.len() && !(s[from] == CR && s[from + 1] == LF) {
        lemma_line_end(s, from + 1);
    }
}

/// Where the first CR LF at or after `from` begins.
fn find_line_end(buf: &[u8], from: usize) -> (stop: Option<usize>)
    ensures
        match stop {
            Some(i) => line_end(buf@, from as int) == Some(i as int) && from <= i && i + 2
                <= buf.len(),
            None => line_end(buf@, from as int) is None,
        },
{
    let mut i: usize = from;
    while i < buf.len() && i + 1 < buf.len()
        invariant
            from <= i,
            line_end(buf@, from as int) == line_end(buf@, i as int),
        decreases buf.len() - i,
    {
        if buf[i] == CR && buf[i + 1] == LF {
            return Some(i);
        }
        i += 1;
    }
    None
}

impl Frame {
    /// The bytes that stand for this frame on the wire.
    pub fn encode(&self) -> (bytes: Vec<u8>)
        ensures
            bytes@ == encoding(self@),
    {
        let mut bytes: Vec<u8> = Vec::new();
        self.write_to(&mut bytes);
        assert(Seq::<u8>::empty() + encoding(self@) =~= encoding(self@));
        bytes
    }

    /// Appends the bytes that stand for this frame on the wire to `out`.
    pub fn write_to(&self, out: &mut Vec<u8>)
        ensures
            final(out)@ == old(out)@ + encoding(self@),
        decreases self,
    {
        match self {
            Frame::Simple(text) => {
                out.push(SIMPLE);
                append(out, text.as_str().as_bytes());
                out.push(CR);
                out.push(LF);
                assert(out@ =~= old(out)@ + line(SIMPLE, encode_utf8(text@)));

            },
            Frame::Error(text) => {
                out.push(ERROR);
                append(out, text.as_str().as_bytes());
                out.push(CR);
                out.push(LF);
                assert(out@ =~= old(out)@ + line(ERROR, encode_utf8(text@)));
            },
            Frame::Integer(n) => {
                out.push(INTEGER);
                crate::num::write(*n, out);
                out.push(CR);
                out.push(LF);
                assert(out@ =~= old(out)@ + line(INTEGER, digits(*n as nat)));
            },
            Frame::Bulk(data) => {
                out.push(BULK);
                crate::num::write(data.len() as u64, out);
                out.push(CR);
                out.push(LF);
                append(out, as_slice(data));
                out.push(CR);
                out.push(LF);
                assert(out@ =~= old(out)@ + (line(BULK, digits(contents(*data).len()))
                    + contents(*data) + seq![CR, LF]));
            },
            Frame::Null => {
                out.push(BULK);
                out.push(0x2d);
                out.push(0x31);
                out.push(CR);
                out.push(LF);
                assert(out@ =~= old(out)@ + line(BULK, minus_one()));
            },
            Frame::Array(items) => {
                out.push(ARRAY);
                crate::num::write(items.len() as u64, out);
                out.push(CR);
                out.push(LF);
                let ghost head = old(out)@ + line(ARRAY, digits(items@.len()));
                assert(out@ =~= head);
                let ghost inner = views(items@);
                proof {
                    lemma_array_view(*items);
                }
                let mut i: usize = 0;
                while i < items.len()
                    invariant
                        i <= items.len(),
                        *self == Frame::Array(*items),
                        inner == views(items@),
                        out@ + encoding_from(inner, i as int) == head + encoding_from(inner, 0),
                    decreases items.len() - i,
                {
                    let ghost so_far = out@;
                    proof {
                        vstd::std_specs::vec::axiom_vec_index_decreases(*items, i as int);
                        assert(self->Array_0 == *items);
                        assert(decreases_to!(*self => self->Array_0));
                    }
                    items[i].write_to(out);
                    proof {
                        assert(inner[i as int] == items[i as int]@);
                        assert(so_far + (encoding(inner[i as int]) + encoding_from(inner, i + 1))
                            =~= so_far + encoding(inner[i as int]) + encoding_from(inner, i + 1));
                    }
                    i += 1;
                }
                assert(out@ + Seq::<u8>::empty() =~= out@);
                assert(head + encoding_from(inner, 0) =~= old(out)@ + (line(
                    ARRAY,
                    digits(items@.len()),
                ) + encoding_from(inner, 0)));
            },
        }
    }

    /// Whether this frame comes back from its bytes as it is.
    pub fn is_sendable(&self) -> (yes: bool)
        ensures
            yes == sendable(self@),
        decreases self,
    {
        match self {
            Frame::Simple(text) => find_line_end(text.as_str().as_bytes(), 0).is_none(),
            Frame::Error(text) => find_line_end(text.as_str().as_bytes(), 0).is_none(),
            Frame::Integer(_) => true,
            // A length that the machine can hold fits in 64 bits.
            Frame::Bulk(data) => data.len() <= usize::MAX,
            Frame::Null => true,
            Frame::Array(items) => {
                proof {
                    lemma_array_view(*items);
                }
                let mut i: usize = 0;
                while i < items.len()
                    invariant
                        i <= items.len(),
                        *self == Frame::Array(*items),
                        self@ == FrameView::Array(views(items@)),
                        forall|j: int| 0 <= j < i ==> sendable(#[trigger] views(items@)[j]),
                    decreases items.len() - i,
                {
                    proof {
                        assert(self->Array_0 == *items);
                        assert(decreases_to!(*self => self->Array_0));
                        vstd::std_specs::vec::axiom_vec_index_decreases(*items, i as int);
                    }
                    if !items[i].is_sendable() {
                        assert(!sendable(views(items@)[i as int]));
                        return false;
                    }
                    i += 1;
                }
                true
            },
        }
    }

    /// Reads the frame at the beginning of `buf`.
    ///
    /// Hands out the frame and the number of bytes it takes up, or nothing
    /// when `buf` holds only the beginning of a frame, or `Error::Protocol`
    /// when no frame can begin like `buf`.
    pub fn decode(buf: &[u8]) -> (decoded: Result<Option<(Frame, usize)>, Error>)
        ensures
            outcome(decoded) == decoding(buf@, 0),
            decoded is Err ==> decoded == Err::<Option<(Frame, usize)>, Error>(Error::Protocol),
            decoded matches Ok(Some((_, end))) ==> 0 < end <= buf.len(),
    {
        Frame::decode_at(buf, 0)
    }

    /// Reads the frame that begins at position `at` of `buf`.
    fn decode_at(buf: &[u8], at: usize) -> (decoded: Result<Option<(Frame, usize)>, Error>)
        ensures
            outcome(decoded) == decoding(buf@, at as int),
            decoded is Err ==> decoded == Err::<Option<(Frame, usize)>, Error>(Error::Protocol),
            decoded matches Ok(Some((_, end))) ==> at < end <= buf.len(),
        decreases buf.len() - at,
    {
        if at >= buf.len() {
            return Ok(None);
        }
        let tag = buf[at];
        if tag != SIMPLE && tag != ERROR && tag != INTEGER && tag != BULK && tag != ARRAY {
            return Err(Error::Protocol);
        }
        let stop = match find_line_end(buf, at + 1) {
            Some(stop) => stop,
            None => {
                return Ok(None);
            },
        };
        let body = slice_subrange(buf, at + 1, stop);
        let next = stop + 2;
        if tag == SIMPLE || tag == ERROR {
            match text_from_utf8(slice_to_vec(body)) {
                Some(text) => {
                    if tag == SIMPLE {
                        Ok(Some((Frame::Simple(text), next)))
                    } else {
                        Ok(Some((Frame::Error(text), next)))
                    }
                },
                None => Err(Error::Protocol),
            }
        } else if tag == INTEGER {
            match crate::num::parse(body) {
                Numeral::Value(n) => Ok(Some((Frame::Integer(n), next))),
                _ => Err(Error::Protocol),
            }
        } else if tag == BULK {
            if body.len() == 2 && body[0] == 0x2d && body[1] == 0x31 {
                assert(body@ =~= minus_one());
                return Ok(Some((Frame::Null, next)));
            }
            match crate::num::parse(body) {
                Numeral::Value(n) => {
                    let left = buf.len() - next;
                    if left < 2 || ((left - 2) as u64) < n {
                        return Ok(None);
                    }
                    let data_end = next + n as usize;
                    if buf[data_end] == CR && buf[data_end + 1] == LF {
                        let data = from_vec(slice_to_vec(slice_subrange(buf, next, data_end)));
                        Ok(Some((Frame::Bulk(data), data_end + 2)))
                    } else {
                        Err(Error::Protocol)
                    }
                },
                _ => Err(Error::Protocol),
            }
        } else {
            match crate::num::parse(body) {
                Numeral::Value(n) => {
                    let mut items: Vec<Frame> = Vec::new();
                    let mut pos: usize = next;
                    let mut left: u64 = n;
                    assert(views(items@) =~= Seq::<FrameView>::empty());
                    while left > 0
                        invariant
                            at < pos <= buf.len(),
                            decoding(buf@, at as int) == as_array(
                                decoding_run(buf@, next as int, n as nat),
                            ),
                            decoding_run(buf@, next as int, n as nat) == after(
                                views(items@),
                                decoding_run(buf@, pos as int, left as nat),
                            ),
                        decreases left,
                    {
                        match Frame::decode_at(buf, pos) {
                            Ok(Some((item, end))) => {
                                proof {
                                    let so_far = views(items@);
                                    assert(views(items@.push(item)) =~= so_far.push(item@));
                                    let later = decoding_run(buf@, end as int, (left - 1) as nat);
                                    if later is Whole {
                                        assert(so_far + (seq![item@] + later->Whole_items)
                                            =~= so_far.push(item@) + later->Whole_items);
                                    }
                                }
                                items.push(item);
                                pos = end;
                                left -= 1;
                            },
                            Ok(None) => {
                                return Ok(None);
                            },
                            Err(e) => {
                                return Err(e);
                            },
                        }
                    }
                    let frame = Frame::Array(items);
                    proof {
                        assert(views(items@) + Seq::<FrameView>::empty() =~= views(items@));
                        lemma_array_view(items);
                    }
                    Ok(Some((frame, pos)))
                },
                _ => Err(Error::Protocol),
            }
        }
    }
}

/// Whether a frame can be told apart from what follows it on the wire: the
/// UTF-8 bytes of a simple string or an error hold no CR LF, and every length
/// fits in 64 bits. This holds of the items of an array as well.
pub open spec fn sendable(frame: FrameView) -> bool
    decreases frame,
{
    match frame {
        FrameView::Simple(text) => line_end(encode_utf8(text), 0) is None,
        FrameView::Error(text) => line_end(encode_utf8(text), 0) is None,
        FrameView::Integer(_) => true,
        FrameView::Bulk(data) => data.len() <= u64::MAX,
        FrameView::Null => true,
        FrameView::Array(items) => {
            &&& items.len() <= u64::MAX
            &&& forall|i: int| 0 <= i < items.len() ==> sendable(#[trigger] items[i])
        },
    }
}

/// A line's body that holds no CR LF ends where the line's own CR LF stands.
proof fn lemma_line_found(s: Seq<u8>, start: int, body: Seq<u8>, k: int)
    requires
        0 <= start,
        0 <= k <= body.len(),
        start + body.len() + 2 <= s.len(),
        s.subrange(start, start + body.len()) == body,
        s[start + body.len()] == CR,
        s[start + body.len() + 1] == LF,
        line_end(body, k) is None,
    ensures
        line_end(s, start + k) == Some(start + body.len()),
    decreases body.len() - k,
{
    if k < body.len() {
        assert(s[start + k] == body[k]);
        if k + 1 < body.len() {
            assert(s[start + k + 1] == body[k + 1]);
        }
        lemma_line_found(s, start, body, k + 1);
    }
}

/// Bytes without a CR hold no CR LF.
proof fn lemma_no_line_end(body: Seq<u8>, k: int)
    requires
        0 <= k,
        forall|i: int| 0 <= i < body.len() ==> #[trigger] body[i] != CR,
    ensures
        line_end(body, k) is None,
    decreases body.len() - k,
{
    if k + 1 < body.len() {
        lemma_no_line_end(body, k + 1);
    }
}

/// What stands at the beginning of an encoded frame: the line with `head`
/// and `body`, read from within a longer run of bytes.
proof fn lemma_first_line(s: Seq<u8>, at: int, head: u8, body: Seq<u8>)
    requires
        0 <= at,
        at + body.len() + 3 <= s.len(),
        s.subrange(at, at + body.len() + 3) == line(head, body),
        line_end(body, 0) is None,
    ensures
        s[at] == head,
        line_end(s, at + 1) == Some(at + 1 + body.len()),
        s.subrange(at + 1, at + 1 + body.len()) == body,
{
    let whole = line(head, body);
    let part = s.subrange(at, at + body.len() + 3);
    assert(part[0] == whole[0]);
    let n = body.len() as int;
    assert(part[n + 1] == whole[n + 1]);
    assert(part[n + 2] == whole[n + 2]);
    assert forall|i: int| 0 <= i < body.len() implies s[at + 1 + i] == body[i] by {
        assert(part[i + 1] == whole[i + 1]);
    }
    assert(s.subrange(at + 1, at + 1 + body.len()) =~= body);
    lemma_line_found(s, at + 1, body, 0);
}

/// Decoding undoes encoding for a frame that is one line.
proof fn lemma_decode_encoded_line(frame: FrameView, before: Seq<u8>, rest: Seq<u8>)
    requires
        sendable(frame),
        frame is Simple || frame is Error || frame is Integer || frame is Null,
    ensures
        decoding(before + encoding(frame) + rest, before.len() as int) == (Decoded::Whole {
            frame,
            end: (before.len() + encoding(frame).len()) as int,
        }),
{
    broadcast use vstd::utf8::encode_utf8_valid_utf8, vstd::utf8::encode_utf8_decode_utf8;

    let s = before + encoding(frame) + rest;
    let at = before.len() as int;
    match frame {
        FrameView::Simple(text) => {
            let body = encode_utf8(text);
            assert(s.subrange(at, at + body.len() + 3) =~= line(SIMPLE, body));
            lemma_first_line(s, at, SIMPLE, body);
        },
        FrameView::Error(text) => {
            let body = encode_utf8(text);
            assert(s.subrange(at, at + body.len() + 3) =~= line(ERROR, body));
            lemma_first_line(s, at, ERROR, body);
        },
        FrameView::Integer(n) => {
            let body = digits(n as nat);
            crate::num::lemma_digits_value(n as nat);
            lemma_no_line_end(body, 0);
            assert(s.subrange(at, at + body.len() + 3) =~= line(INTEGER, body));
            lemma_first_line(s, at, INTEGER, body);
        },
        _ => {
            let body = minus_one();
            lemma_no_line_end(body, 0);
            assert(s.subrange(at, at + body.len() + 3) =~= line(BULK, body));
            lemma_first_line(s, at, BULK, body);
        },
    }
}

/// Decoding undoes encoding for a bulk string.
proof fn lemma_decode_encoded_bulk(data: Seq<u8>, before: Seq<u8>, rest: Seq<u8>)
    requires
        data.len() <= u64::MAX,
    ensures
        decoding(before + encoding(FrameView::Bulk(data)) + rest, before.len() as int)
            == (Decoded::Whole {
            frame: FrameView::Bulk(data),
            end: (before.len() + encoding(FrameView::Bulk(data)).len()) as int,
        }),
{
    let s = before + encoding(FrameView::Bulk(data)) + rest;
    let at = before.len() as int;
    let body = digits(data.len());
    crate::num::lemma_digits_value(data.len());
    lemma_no_line_end(body, 0);
    assert(s.subrange(at, at + body.len() + 3) =~= line(BULK, body));
    lemma_first_line(s, at, BULK, body);
    assert(body[0] != minus_one()[0]);
    let next = at + body.len() + 3;
    assert(s.subrange(next, next + data.len()) =~= data);
    assert(s[next + data.len()] == CR);
    assert(s[next + data.len() + 1] == LF);
}

/// Decoding undoes encoding, wherever the encoded frame stands: a sendable
/// frame's bytes, with any bytes before and after them, decode at their first
/// position to that frame and end at their last.
pub proof fn lemma_decode_encoded(frame: FrameView, before: Seq<u8>, rest: Seq<u8>)
    requires
        sendable(frame),
    ensures
        decoding(before + encoding(frame) + rest, before.len() as int) == (Decoded::Whole {
            frame,
            end: (before.len() + encoding(frame).len()) as int,
        }),
    decreases frame, 0nat,
{
    match frame {
        FrameView::Bulk(data) => {
            lemma_decode_encoded_bulk(data, before, rest);
        },
        FrameView::Array(items) => {
            let s = before + encoding(frame) + rest;
            let at = before.len() as int;
            let body = digits(items.len());
            crate::num::lemma_digits_value(items.len());
            lemma_no_line_end(body, 0);
            assert(s.subrange(at, at + body.len() + 3) =~= line(ARRAY, body));
            lemma_first_line(s, at, ARRAY, body);
            let head = before + line(ARRAY, body);
            lemma_decode_encoded_run(items, 0, head, rest);
            assert(head + encoding_from(items, 0) + rest =~= s);
            assert(items.skip(0) =~= items);
        },
        _ => {
            lemma_decode_encoded_line(frame, before, rest);
        },
    }
}

/// Decoding undoes encoding: a sendable frame's bytes decode to that frame
/// and to nothing more.
pub proof fn lemma_decode_encode(frame: FrameView)
    requires
        sendable(frame),
    ensures
        decoding(encoding(frame), 0) == (Decoded::Whole {
            frame,
            end: encoding(frame).len() as int,
        }),
{
    lemma_decode_encoded(frame, Seq::empty(), Seq::empty());
    assert(Seq::<u8>::empty() + encoding(frame) + Seq::<u8>::empty() =~= encoding(frame));
}

/// Decoding undoes encoding for a run of frames: the bytes of `items[from..]`,
/// with any bytes before and after them, decode to those items.
pub proof fn lemma_decode_encoded_run(
    items: Seq<FrameView>,
    from: int,
    before: Seq<u8>,
    rest: Seq<u8>,
)
    requires
        0 <= from <= items.len(),
        forall|i: int| 0 <= i < items.len() ==> sendable(#[trigger] items[i]),
    ensures
        decoding_run(
            before + encoding_from(items, from) + rest,
            before.len() as int,
            (items.len() - from) as nat,
        ) == (DecodedRun::Whole {
            items: items.skip(from),
            end: (before.len() + encoding_from(items, from).len()) as int,
        }),
    decreases items, items.len() - from,
{
    let s = before + encoding_from(items, from) + rest;
    if from < items.len() {
        let first = encoding(items[from]);
        let later = encoding_from(items, from + 1);
        lemma_decode_encoded(items[from], before, later + rest);
        assert(before + first + (later + rest) =~= s);
        lemma_encoding_len(items[from]);
        lemma_decode_encoded_run(items, from + 1, before + first, rest);
        assert(before + first + later + rest =~= s);
        assert(seq![items[from]] + items.skip(from + 1) =~= items.skip(from));
    } else {
        assert(items.skip(from) =~= Seq::<FrameView>::empty());
    }
}

/// An encoded frame takes up at least three bytes.
pub proof fn lemma_encoding_len(frame: FrameView)
    ensures
        encoding(frame).len() >= 3,
{
}

/// Bytes in which no CR LF begins at or after `from` have no line end there.
proof fn lemma_no_pair(s: Seq<u8>, from: int)
    requires
        0 <= from,
        forall|i: int| from <= i && i + 1 < s.len() ==> !(#[trigger] s[i] == CR && s[i + 1] == LF),
    ensures
        line_end(s, from) is None,
    decreases s.len() - from,
{
    if from + 1 < s.len() {
        assert(!(s[from] == CR && s[from + 1] == LF));
        lemma_no_pair(s, from + 1);
    }
}

/// Bytes without a line end hold no CR LF.
proof fn lemma_pairless(s: Seq<u8>, from: int, i: int)
    requires
        0 <= from <= i,
        i + 1 < s.len(),
        line_end(s, from) is None,
    ensures
        !(s[i] == CR && s[i + 1] == LF),
    decreases i - from,
{
    if from < i {
        lemma_pairless(s, from + 1, i);
    }
}

/// A line that is cut off before its end is the beginning of a frame.
proof fn lemma_cut_line(s: Seq<u8>, at: int, head: u8, body: Seq<u8>, m: int)
    requires
        0 <= at,
        0 < m < body.len() + 3,
        s.len() == at + m,
        s.subrange(at, at + m) == line(head, body).take(m),
        line_end(body, 0) is None,
        head == SIMPLE || head == ERROR || head == INTEGER || head == BULK || head == ARRAY,
    ensures
        decoding(s, at) is Partial,
{
    let whole = line(head, body);
    let part = s.subrange(at, at + m);
    assert(part[0] == whole[0]);
    assert forall|i: int| at + 1 <= i && i + 1 < s.len() implies !(#[trigger] s[i] == CR && s[i
        + 1] == LF) by {
        let r = i - at - 1;
        assert(part[r + 1] == whole[r + 1]);
        assert(part[r + 2] == whole[r + 2]);
        if r + 1 < body.len() {
            lemma_pairless(body, 0, r);
        }
    }
    lemma_no_pair(s, at + 1);
}

/// The bytes of a sendable frame, cut off before their end, are the beginning
/// of a frame and never a whole one, wherever they stand: a stream that ends
/// within a frame is always told from one that ends between frames.
pub proof fn lemma_cut_off_at(frame: FrameView, before: Seq<u8>, n: int)
    requires
        sendable(frame),
        0 <= n < encoding(frame).len(),
    ensures
        decoding(before + encoding(frame).take(n), before.len() as int) is Partial,
    decreases frame, 0nat,
{
    let s = before + encoding(frame).take(n);
    let at = before.len() as int;
    if n > 0 {
        match frame {
            FrameView::Simple(text) => {
                assert(s.subrange(at, at + n) =~= line(SIMPLE, encode_utf8(text)).take(n));
                lemma_cut_line(s, at, SIMPLE, encode_utf8(text), n);
            },
            FrameView::Error(text) => {
                assert(s.subrange(at, at + n) =~= line(ERROR, encode_utf8(text)).take(n));
                lemma_cut_line(s, at, ERROR, encode_utf8(text), n);
            },
            FrameView::Integer(v) => {
                let body = digits(v as nat);
                crate::num::lemma_digits_value(v as nat);
                lemma_no_line_end(body, 0);
                assert(s.subrange(at, at + n) =~= line(INTEGER, body).take(n));
                lemma_cut_line(s, at, INTEGER, body, n);
            },
            FrameView::Null => {
                let body = minus_one();
                lemma_no_line_end(body, 0);
                assert(s.subrange(at, at + n) =~= line(BULK, body).take(n));
                lemma_cut_line(s, at, BULK, body, n);
            },
            FrameView::Bulk(data) => {
                let body = digits(data.len());
                crate::num::lemma_digits_value(data.len());
                lemma_no_line_end(body, 0);
                if n < body.len() + 3 {
                    assert(s.subrange(at, at + n) =~= line(BULK, body).take(n));
                    lemma_cut_line(s, at, BULK, body, n);
                } else {
                    assert(s.subrange(at, at + body.len() + 3) =~= line(BULK, body));
                    lemma_first_line(s, at, BULK, body);
                    assert(body[0] != minus_one()[0]);
                }
            },
            FrameView::Array(items) => {
                let body = digits(items.len());
                crate::num::lemma_digits_value(items.len());
                lemma_no_line_end(body, 0);
                if n < body.len() + 3 {
                    assert(s.subrange(at, at + n) =~= line(ARRAY, body).take(n));
                    lemma_cut_line(s, at, ARRAY, body, n);
                } else {
                    assert(s.subrange(at, at + body.len() + 3) =~= line(ARRAY, body));
                    lemma_first_line(s, at, ARRAY, body);
                    let head = before + line(ARRAY, body);
                    let m = n - body.len() - 3;
                    lemma_cut_off_run(items, 0, head, m);
                    assert(head + encoding_from(items, 0).take(m) =~= s);
                }
            },
        }
    }
}

/// The bytes of a run of sendable frames, cut off before their end, are the
/// beginning of that run.
pub proof fn lemma_cut_off_run(items: Seq<FrameView>, from: int, before: Seq<u8>, m: int)
    requires
        0 <= from <= items.len(),
        forall|i: int| 0 <= i < items.len() ==> sendable(#[trigger] items[i]),
        0 <= m < encoding_from(items, from).len(),
    ensures
        decoding_run(
            before + encoding_from(items, from).take(m),
            before.len() as int,
            (items.len() - from) as nat,
        ) is Partial,
    decreases items, items.len() - from,
{
    let s = before + encoding_from(items, from).take(m);
    let first = encoding(items[from]);
    let later = encoding_from(items, from + 1);
    if m < first.len() {
        lemma_cut_off_at(items[from], before, m);
        assert(before + first.take(m) =~= s);
    } else {
        let left = m - first.len();
        lemma_encoding_len(items[from]);
        lemma_decode_encoded(items[from], before, later.take(left));
        assert(before + first + later.take(left) =~= s);
        lemma_cut_off_run(items, from + 1, before + first, left);
        assert(before + first + later.take(left) =~= (before + first) + later.take(left));
    }
}

/// The bytes of a sendable frame, cut off before their end, are the beginning
/// of a frame and never a whole one.
pub proof fn lemma_cut_off(frame: FrameView, n: int)
    requires
        sendable(frame),
        0 < n < encoding(frame).len(),
    ensures
        decoding(encoding(frame).take(n), 0) is Partial,
{
    lemma_cut_off_at(frame, Seq::empty(), n);
    assert(Seq::<u8>::empty() + encoding(frame).take(n) =~= encoding(frame).take(n));
}

} // verus!
