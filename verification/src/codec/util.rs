//! Reading and writing the fields that all three protocols share.
use vstd::prelude::*;
use crate::codec::wire::{
    Cursor, Ipv4Addr, len_field, len32, packed_path, packed_string, path_byte, read_ip,
    read_string, read_u32, str_bytes, u32_le_bytes, ip_from_wire,
};
use crate::foreign::{
    buf_contents, buf_extend, buf_from_vec, buf_split_to, buf_to_vec, zlib_decode,
    zlib_decoding, zlib_encode, zlib_encoding,
};

verus! {

broadcast use vstd::seq_lib::group_seq_properties;

/// Appends `s` to `bytes` as a length-prefixed string.
pub fn pack_string(s: &str, bytes: &mut bytes::BytesMut)
    ensures
        buf_contents(*final(bytes)) == buf_contents(*old(bytes)) + packed_string(s@),
{
    let b = s.as_bytes();
    let len = u32_le_bytes(len_field(b.len()));
    buf_extend(bytes, len.as_slice());
    buf_extend(bytes, b);
    assert(buf_contents(*bytes) =~= buf_contents(*old(bytes)) + packed_string(s@));
}


/// Appends `s` to `bytes` as a path: the length field, then one byte per character
/// with `/` written as `\`.
pub fn pack_path_string(s: &str, bytes: &mut bytes::BytesMut)
    ensures
        buf_contents(*final(bytes)) == buf_contents(*old(bytes)) + packed_path(s@),
{
    broadcast use vstd::string::axiom_spec_iter;

    let b = s.as_bytes();
    let len = u32_le_bytes(len_field(b.len()));
    buf_extend(bytes, len.as_slice());
    let ghost start = buf_contents(*bytes);
    let mut out: Vec<u8> = Vec::new();
    for ch in it: s.chars()
        invariant
            it.seq() == s@,
            out@ == s@.take(it.index()).map_values(|c: char| path_byte(c)),
    {
        let byte: u8 = if ch == '/' {
            92u8
        } else {
            ch as u8
        };
        out.push(byte);
        assert(out@ =~= s@.take(it.index() + 1).map_values(|c: char| path_byte(c)));
    }
    assert(s@.take(s@.len() as int) =~= s@);
    buf_extend(bytes, out.as_slice());
    assert(buf_contents(*bytes) =~= buf_contents(*old(bytes)) + packed_path(s@));
}

/// Appends the four octets of `ip` in written order.
pub fn pack_ip(ip: &Ipv4Addr, bytes: &mut bytes::BytesMut)
    ensures
        buf_contents(*final(bytes)) == buf_contents(*old(bytes)) + seq![ip.a, ip.b, ip.c, ip.d],
{
    let o = ip.octets();
    buf_extend(bytes, o.as_slice());
}

/// Takes a length-prefixed string off the front of `bytes`.
pub fn get_string(bytes: &mut bytes::BytesMut) -> (r: String)
    requires
        read_string(buf_contents(*old(bytes)), 0) is Some,
    ensures
        ({
            let (s, q) = read_string(buf_contents(*old(bytes)), 0).unwrap();
            r@ == s && buf_contents(*final(bytes)) == buf_contents(*old(bytes)).skip(q)
        }),
{
    let ghost d = buf_contents(*bytes);
    let head = buf_split_to(bytes, 4);
    let head = buf_to_vec(&head);
    let len = crate::codec::wire::read_u32_at(head.as_slice(), 0) as usize;
    assert(head@.subrange(0, 4) =~= d.subrange(0, 4));
    let body = buf_split_to(bytes, len);
    let body = buf_to_vec(&body);
    assert(body@ =~= d.subrange(4, 4 + len));
    assert(buf_contents(*bytes) =~= d.skip(4 + len));
    match crate::foreign::string_from_utf8(body) {
        Some(s) => s,
        None => {
            assert(false);
            String::new()
        },
    }
}

/// Reads a length-prefixed string at the cursor.
pub fn get_string2(bytes: &mut Cursor) -> (r: String)
    requires
        read_string(old(bytes)@.0, old(bytes)@.1) is Some,
    ensures
        ({
            let (s, q) = read_string(old(bytes)@.0, old(bytes)@.1).unwrap();
            r@ == s && final(bytes)@ == (old(bytes)@.0, q)
        }),
{
    match bytes.try_string() {
        Some(s) => s,
        None => {
            assert(false);
            String::new()
        },
    }
}

/// Takes an address off the front of `bytes` (four bytes, last octet first).
pub fn get_ip(bytes: &mut bytes::BytesMut) -> (r: Ipv4Addr)
    requires
        buf_contents(*old(bytes)).len() >= 4,
    ensures
        r == ip_from_wire(buf_contents(*old(bytes))),
        buf_contents(*final(bytes)) == buf_contents(*old(bytes)).skip(4),
{
    let buf = buf_split_to(bytes, 4);
    let buf = buf_to_vec(&buf);
    Ipv4Addr::new(buf[3], buf[2], buf[1], buf[0])
}

/// Reads an address at the cursor (four bytes, last octet first).
pub fn get_ip2(bytes: &mut Cursor) -> (r: Ipv4Addr)
    requires
        read_ip(old(bytes)@.0, old(bytes)@.1) is Some,
    ensures
        ({
            let (ip, q) = read_ip(old(bytes)@.0, old(bytes)@.1).unwrap();
            r == ip && final(bytes)@ == (old(bytes)@.0, q)
        }),
{
    match bytes.try_ip() {
        Some(ip) => ip,
        None => {
            assert(false);
            Ipv4Addr::new(0, 0, 0, 0)
        },
    }
}

/// Compresses the bytes after the cursor with zlib; the cursor moves past the
/// bytes that the encoder took in (what it left stays after the cursor).
pub fn compress(bytes: &mut Cursor) -> (r: bytes::BytesMut)
    ensures
        ({
            let rest = old(bytes)@.0.skip(old(bytes)@.1);
            let (out, left) = zlib_encoding(rest);
            &&& buf_contents(r) == out
            &&& final(bytes)@ == (old(bytes)@.0, old(bytes)@.1 + rest.len() - left)
        }),
{
    let start = bytes.position();
    let n = bytes.remaining();
    let rest = match bytes.try_bytes(n) {
        Some(v) => v,
        None => Vec::new(),
    };
    assert(rest@ =~= old(bytes)@.0.skip(old(bytes)@.1));
    let (out, left) = zlib_encode(rest.as_slice());
    bytes.set_position(start + (n - left));
    buf_from_vec(out)
}

/// Decompresses the zlib stream after the cursor; the cursor moves past the bytes
/// that the decoder took in (what it left stays after the cursor).
pub fn decompress(bytes: &mut Cursor) -> (r: bytes::BytesMut)
    ensures
        ({
            let rest = old(bytes)@.0.skip(old(bytes)@.1);
            let (out, left) = zlib_decoding(rest);
            &&& buf_contents(r) == out
            &&& final(bytes)@ == (old(bytes)@.0, old(bytes)@.1 + rest.len() - left)
        }),
{
    let start = bytes.position();
    let n = bytes.remaining();
    let rest = match bytes.try_bytes(n) {
        Some(v) => v,
        None => Vec::new(),
    };
    assert(rest@ =~= old(bytes)@.0.skip(old(bytes)@.1));
    let (out, left) = zlib_decode(rest.as_slice());
    bytes.set_position(start + (n - left));
    buf_from_vec(out)
}

} // verus!
