//! Declarations of the outside items that the codecs call, with the contracts
//! that the rest of the crate relies on.
use vstd::prelude::*;
use std::io::Read;
use vstd::utf8::{valid_utf8, decode_utf8};

verus! {

/// The byte buffer of the `bytes` crate that the codecs read from and write to.
#[verifier::external_type_specification]
#[verifier::external_body]
pub struct ExBytesMut(bytes::BytesMut);

/// The bytes that a `BytesMut` holds, in order.
pub uninterp spec fn buf_contents(b: bytes::BytesMut) -> Seq<u8>;

/// `BytesMut::new`: an empty buffer.
#[verifier::external_body]
pub(crate) fn buf_new() -> (b: bytes::BytesMut)
    ensures
        buf_contents(b) == Seq::<u8>::empty(),
{
    bytes::BytesMut::new()
}

/// `BytesMut::extend_from_slice`: appends the bytes of `s` (the buffer grows as needed).
#[verifier::external_body]
pub(crate) fn buf_extend(b: &mut bytes::BytesMut, s: &[u8])
    ensures
        buf_contents(*final(b)) == buf_contents(*old(b)) + s@,
{
    b.extend_from_slice(s)
}

/// `BytesMut::split_to`: removes the first `at` bytes from the buffer and returns them.
#[verifier::external_body]
pub(crate) fn buf_split_to(b: &mut bytes::BytesMut, at: usize) -> (front: bytes::BytesMut)
    requires
        at <= buf_contents(*old(b)).len(),
    ensures
        buf_contents(front) == buf_contents(*old(b)).take(at as int),
        buf_contents(*final(b)) == buf_contents(*old(b)).skip(at as int),
{
    b.split_to(at)
}

/// The bytes of a `BytesMut` (through its `Deref` to `[u8]`) copied into a vector.
#[verifier::external_body]
pub(crate) fn buf_to_vec(b: &bytes::BytesMut) -> (v: Vec<u8>)
    ensures
        v@ == buf_contents(*b),
{
    b.to_vec()
}

/// `BytesMut::from(Vec<u8>)`: a buffer holding the bytes of the vector.
#[verifier::external_body]
pub(crate) fn buf_from_vec(v: Vec<u8>) -> (b: bytes::BytesMut)
    ensures
        buf_contents(b) == v@,
{
    bytes::BytesMut::from(v)
}

/// `String::from_utf8`: the string that `v` encodes when `v` is valid UTF-8,
/// and nothing (the error) otherwise.
#[verifier::external_body]
pub(crate) fn string_from_utf8(v: Vec<u8>) -> (r: Option<String>)
    ensures
        r is Some <==> valid_utf8(v@),
        r matches Some(s) ==> s@ == decode_utf8(v@),
{
    String::from_utf8(v).ok()
}

/// What `flate2`'s zlib encoder (default compression level), read to its end,
/// yields for `input`, and how many bytes of `input` it left untaken.
pub uninterp spec fn zlib_encoding(input: Seq<u8>) -> (Seq<u8>, nat);

/// `flate2::read::ZlibEncoder` at the default level over `input`, read to its end
/// with `Read::read_to_end` (an error ends the output where it stands): the output,
/// and the number of input bytes that the encoder left in `input`.
#[verifier::external_body]
pub(crate) fn zlib_encode(input: &[u8]) -> (r: (Vec<u8>, usize))
    ensures
        (r.0@, r.1 as nat) == zlib_encoding(input@),
        r.1 <= input@.len(),
{
    let mut out = Vec::new();
    let mut encoder = flate2::read::ZlibEncoder::new(input, flate2::Compression::default());
    let _ = encoder.read_to_end(&mut out);
    (out, encoder.into_inner().len())
}

/// What `flate2`'s zlib decoder, read to its end, yields for `input` (what it
/// decoded before an error, if any), and how many bytes of `input` it left untaken.
pub uninterp spec fn zlib_decoding(input: Seq<u8>) -> (Seq<u8>, nat);

/// `flate2::read::ZlibDecoder` over `input`, read to its end with
/// `Read::read_to_end` (an error ends the output where it stands): the output,
/// and the number of input bytes that the decoder left in `input`.
#[verifier::external_body]
pub(crate) fn zlib_decode(input: &[u8]) -> (r: (Vec<u8>, usize))
    ensures
        (r.0@, r.1 as nat) == zlib_decoding(input@),
        r.1 <= input@.len(),
{
    let mut out = Vec::new();
    let mut decoder = flate2::read::ZlibDecoder::new(input);
    let _ = decoder.read_to_end(&mut out);
    (out, decoder.into_inner().len())
}

/// The MD5 digest of `data`.
pub uninterp spec fn md5_digest(data: Seq<u8>) -> Seq<u8>;

/// `md5::compute`: the 16-byte MD5 digest of `data`.
#[verifier::external_body]
pub(crate) fn md5_compute(data: &[u8]) -> (r: [u8; 16])
    ensures
        r@ == md5_digest(data@),
{
    md5::compute(data).0
}

} // verus!
