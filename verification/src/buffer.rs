//! The byte buffers of the `bytes` crate, as the engine uses them.
//!
//! Nothing of `bytes` is verified here. Each item below states what the
//! engine relies on, in terms of the bytes that a buffer holds.

use bytes::BufMut;
use bytes::Bytes;
use bytes::BytesMut;
use vstd::prelude::*;
use vstd::string::*;
use vstd::utf8::*;

verus! {

/// `bytes::Bytes`, taken as it is: a value of it is only carried around.
#[verifier::external_type_specification]
#[verifier::external_body]
pub struct ExBytes(bytes::Bytes);

/// `bytes::BytesMut`, taken as it is: a value of it is only carried around.
#[verifier::external_type_specification]
#[verifier::external_body]
pub struct ExBytesMut(bytes::BytesMut);

/// The bytes that an immutable buffer holds, first to last.
pub uninterp spec fn bytes_content(b: Bytes) -> Seq<u8>;

/// The bytes that a growable buffer holds, first to last.
pub uninterp spec fn buffer_content(b: BytesMut) -> Seq<u8>;

/// `Bytes::new`: a buffer that holds no byte.
pub assume_specification[ Bytes::new ]() -> (b: Bytes)
    ensures
        bytes_content(b) == Seq::<u8>::empty(),
;

/// `Bytes::len`: the number of bytes that the buffer holds.
pub assume_specification[ Bytes::len ](b: &Bytes) -> (n: usize)
    ensures
        n == bytes_content(*b).len(),
;

/// `BytesMut::as_ref`: the bytes of the buffer as one slice.
#[verifier::external_body]
pub(crate) fn buffer_bytes(buffer: &BytesMut) -> (bytes: &[u8])
    ensures
        bytes@ == buffer_content(*buffer),
{
    buffer.as_ref()
}

/// `BufMut::put` on a `BytesMut`, given a slice: the slice's bytes are
/// appended, and the buffer grows as needed. A buffer takes no more than
/// `isize::MAX` bytes in all; the precondition keeps the call within that.
#[verifier::external_body]
pub(crate) fn buffer_put(buffer: &mut BytesMut, chunk: &[u8])
    requires
        buffer_content(*old(buffer)).len() + chunk@.len() <= isize::MAX,
    ensures
        buffer_content(*final(buffer)) == buffer_content(*old(buffer)) + chunk@,
{
    buffer.put(chunk)
}

/// `std::str::from_utf8`: the bytes as text where they are well-formed UTF-8,
/// and nothing where they are not. The text's bytes are the given bytes.
#[verifier::external_body]
pub(crate) fn text_of(bytes: &[u8]) -> (text: Option<&str>)
    ensures
        text is Some <==> valid_utf8(bytes@),
        text matches Some(t) ==> t.spec_bytes() == bytes@,
{
    std::str::from_utf8(bytes).ok()
}

} // verus!
