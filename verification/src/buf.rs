//! Byte strings held in `bytes::Bytes`, and what is taken on trust about them.

use bytes::Bytes;
use vstd::prelude::*;

verus! {

/// `bytes::Bytes`, a handle to a run of bytes that cannot change. Nothing of
/// its inside is known here; what it refers to goes by the name `contents`.
#[verifier::external_type_specification]
#[verifier::external_body]
pub struct ExBytes(bytes::Bytes);

/// The bytes a `Bytes` handle refers to, in order: what `Bytes::as_ref` shows.
pub uninterp spec fn contents(b: Bytes) -> Seq<u8>;

/// `Bytes::from(Vec<u8>)`: takes over the vector; the handle refers to
/// exactly the vector's bytes.
#[verifier::external_body]
pub(crate) fn from_vec(v: Vec<u8>) -> (b: Bytes)
    ensures
        contents(b) == v@,
{
    Bytes::from(v)
}

/// `Bytes::from(String)`: the handle refers to the string's UTF-8 encoding.
#[verifier::external_body]
pub(crate) fn from_string(s: String) -> (b: Bytes)
    ensures
        contents(b) == vstd::utf8::encode_utf8(s@),
{
    Bytes::from(s)
}

/// `<Bytes as AsRef<[u8]>>::as_ref`: the bytes as a slice.
#[verifier::external_body]
pub(crate) fn as_slice(b: &Bytes) -> (s: &[u8])
    ensures
        s@ == contents(*b),
{
    b.as_ref()
}

/// `<Bytes as Clone>::clone`: a second handle to the same bytes.
pub assume_specification[ <Bytes as Clone>::clone ](b: &Bytes) -> (c: Bytes)
    ensures
        contents(c) == contents(*b),
;

/// `Bytes::len`: the number of bytes.
pub assume_specification[ Bytes::len ](b: &Bytes) -> (n: usize)
    ensures
        n == contents(*b).len(),
;

/// `String::from_utf8`: the text that `bytes` encode in UTF-8, or nothing if
/// they are not valid UTF-8.
#[verifier::external_body]
pub(crate) fn text_from_utf8(bytes: Vec<u8>) -> (text: Option<String>)
    ensures
        text is Some == vstd::utf8::valid_utf8(bytes@),
        text matches Some(s) ==> s@ == vstd::utf8::decode_utf8(bytes@),
{
    match String::from_utf8(bytes) {
        Ok(s) => Some(s),
        Err(_) => None,
    }
}

/// Appends `bytes` to `out`.
pub fn append(out: &mut Vec<u8>, bytes: &[u8])
    ensures
        final(out)@ == old(out)@ + bytes@,
{
    let mut i: usize = 0;
    while i < bytes.len()
        invariant
            i <= bytes.len(),
            out@ == old(out)@ + bytes@.take(i as int),
        decreases bytes.len() - i,
    {
        out.push(bytes[i]);
        assert(bytes@.take(i + 1) =~= bytes@.take(i as int).push(bytes@[i as int]));
        i += 1;
    }
    assert(bytes@.take(bytes.len() as int) =~= bytes@);
}

} // verus!
