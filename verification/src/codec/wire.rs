//! Primitive wire encodings shared by the codecs: little-endian integers,
//! length-prefixed strings, IPv4 addresses, and a read cursor over a message body.
use vstd::prelude::*;
use vstd::utf8::*;
use crate::foreign::string_from_utf8;

verus! {

broadcast use vstd::seq_lib::group_seq_properties;

/// Little-endian encoding of a 32-bit integer.
pub open spec fn le_u32(x: u32) -> Seq<u8> {
    seq![(x % 256) as u8, ((x / 256) % 256) as u8, ((x / 65536) % 256) as u8, (x / 16777216) as u8]
}

/// Little-endian encoding of a 64-bit integer.
pub open spec fn le_u64(x: u64) -> Seq<u8> {
    le_u32((x % 0x1_0000_0000) as u32) + le_u32((x / 0x1_0000_0000) as u32)
}

/// The integer whose little-endian encoding is the first two bytes of `b`.
pub open spec fn u16_from_le(b: Seq<u8>) -> u16 {
    (b[0] + 256 * b[1]) as u16
}

/// The integer whose little-endian encoding is the first four bytes of `b`.
pub open spec fn u32_from_le(b: Seq<u8>) -> u32 {
    (b[0] + 256 * b[1] + 65536 * b[2] + 16777216 * b[3]) as u32
}

/// The integer whose little-endian encoding is the first eight bytes of `b`.
pub open spec fn u64_from_le(b: Seq<u8>) -> u64 {
    (u32_from_le(b) + 0x1_0000_0000 * u32_from_le(b.skip(4))) as u64
}

/// Reading back the little-endian encoding of a 32-bit integer gives that integer.
pub proof fn lemma_le_u32_roundtrip(x: u32)
    ensures
        u32_from_le(le_u32(x)) == x,
        le_u32(x).len() == 4,
{
}

/// The length field of a string: its byte length cut to 32 bits.
pub open spec fn len32(n: nat) -> u32 {
    (n % 0x1_0000_0000) as u32
}

/// The 32-bit length field for a buffer of `n` bytes.
pub fn len_field(n: usize) -> (r: u32)
    ensures
        r == len32(n as nat),
{
    (n as u64 % 0x1_0000_0000u64) as u32
}

/// Encodes `x` as four little-endian bytes.
pub fn u32_le_bytes(x: u32) -> (r: [u8; 4])
    ensures
        r@ == le_u32(x),
{
    let r = [(x % 256) as u8, ((x / 256) % 256) as u8, ((x / 65536) % 256) as u8, (x / 16777216) as u8];
    assert(r@ =~= le_u32(x));
    r
}

/// The 32-bit length field for `n` bytes followed by `extra` more.
pub fn len_field_plus(n: usize, extra: usize) -> (r: u32)
    requires
        extra <= 4,
    ensures
        r == len32((n + extra) as nat),
{
    let m = n as u64 % 0x1_0000_0000u64;
    proof {
        vstd::arithmetic::div_mod::lemma_add_mod_noop(n as int, extra as int, 0x1_0000_0000);
        vstd::arithmetic::div_mod::lemma_mod_twice(extra as int, 0x1_0000_0000);
    }
    ((m + extra as u64) % 0x1_0000_0000u64) as u32
}

/// Reads the 32-bit little-endian integer stored at `b[p..p + 4]`.
pub fn read_u32_at(b: &[u8], p: usize) -> (r: u32)
    requires
        p + 4 <= b@.len(),
    ensures
        r == u32_from_le(b@.subrange(p as int, p + 4)),
{
    b[p] as u32 + 256 * (b[p + 1] as u32) + 65536 * (b[p + 2] as u32) + 16777216 * (b[p + 3] as u32)
}

/// The bytes of a string, as the protocol puts them on the wire (UTF-8).
pub open spec fn str_bytes(s: Seq<char>) -> Seq<u8> {
    encode_utf8(s)
}

/// A string as the protocol frames it: its UTF-8 length in bytes, as a 32-bit
/// little-endian integer (truncated to 32 bits), followed by its UTF-8 bytes.
pub open spec fn packed_string(s: Seq<char>) -> Seq<u8> {
    le_u32(len32(str_bytes(s).len())) + str_bytes(s)
}

/// A path as the protocol frames it: the UTF-8 length of the path, then one byte
/// per character, with `/` turned into `\` and every other character cut to its low 8 bits.
pub open spec fn packed_path(s: Seq<char>) -> Seq<u8> {
    le_u32(len32(str_bytes(s).len())) + s.map_values(|c: char| path_byte(c))
}

/// The byte that stands for one character of a path.
pub open spec fn path_byte(c: char) -> u8 {
    if c == '/' {
        92u8
    } else {
        c as u8
    }
}

/// An IPv4 address, by its four octets in the usual written order `a.b.c.d`.
#[derive(Clone, Copy, Debug, PartialEq, Eq, Structural)]
pub struct Ipv4Addr {
    pub a: u8,
    pub b: u8,
    pub c: u8,
    pub d: u8,
}

impl Ipv4Addr {
    /// The address `a.b.c.d`.
    pub fn new(a: u8, b: u8, c: u8, d: u8) -> (r: Ipv4Addr)
        ensures
            r == (Ipv4Addr { a, b, c, d }),
    {
        Ipv4Addr { a, b, c, d }
    }

    /// The four octets in written order.
    pub fn octets(&self) -> (r: [u8; 4])
        ensures
            r@ == seq![self.a, self.b, self.c, self.d],
    {
        let r = [self.a, self.b, self.c, self.d];
        assert(r@ =~= seq![self.a, self.b, self.c, self.d]);
        r
    }
}

/// `n` bytes of `d` from position `p`, and the position after them.
pub open spec fn read_bytes(d: Seq<u8>, p: int, n: int) -> Option<(Seq<u8>, int)> {
    if 0 <= p && 0 <= n && p + n <= d.len() {
        Some((d.subrange(p, p + n), p + n))
    } else {
        None
    }
}

/// A byte read at position `p`.
pub open spec fn read_u8(d: Seq<u8>, p: int) -> Option<(u8, int)> {
    if 0 <= p && p + 1 <= d.len() {
        Some((d[p], p + 1))
    } else {
        None
    }
}

/// A 16-bit little-endian integer read at position `p`.
pub open spec fn read_u16(d: Seq<u8>, p: int) -> Option<(u16, int)> {
    if 0 <= p && p + 2 <= d.len() {
        Some((u16_from_le(d.subrange(p, p + 2)), p + 2))
    } else {
        None
    }
}

/// A 32-bit little-endian integer read at position `p`.
pub open spec fn read_u32(d: Seq<u8>, p: int) -> Option<(u32, int)> {
    if 0 <= p && p + 4 <= d.len() {
        Some((u32_from_le(d.subrange(p, p + 4)), p + 4))
    } else {
        None
    }
}

/// A signed 32-bit little-endian integer (two's complement) read at position `p`.
pub open spec fn read_i32(d: Seq<u8>, p: int) -> Option<(i32, int)> {
    match read_u32(d, p) {
        Some((v, q)) => Some((v as i32, q)),
        None => None,
    }
}

/// A 64-bit little-endian integer read at position `p`.
pub open spec fn read_u64(d: Seq<u8>, p: int) -> Option<(u64, int)> {
    if 0 <= p && p + 8 <= d.len() {
        Some((u64_from_le(d.subrange(p, p + 8)), p + 8))
    } else {
        None
    }
}

/// A length-prefixed UTF-8 string read at position `p`; none when the bytes run
/// out or are not valid UTF-8.
pub open spec fn read_string(d: Seq<u8>, p: int) -> Option<(Seq<char>, int)> {
    match read_u32(d, p) {
        Some((n, q)) => match read_bytes(d, q, n as int) {
            Some((b, r)) => if valid_utf8(b) {
                Some((decode_utf8(b), r))
            } else {
                None
            },
            None => None,
        },
        None => None,
    }
}

/// The address stored at position `p`: four bytes, last octet first.
pub open spec fn ip_from_wire(b: Seq<u8>) -> Ipv4Addr {
    Ipv4Addr { a: b[3], b: b[2], c: b[1], d: b[0] }
}

/// An IPv4 address read at position `p`.
pub open spec fn read_ip(d: Seq<u8>, p: int) -> Option<(Ipv4Addr, int)> {
    if 0 <= p && p + 4 <= d.len() {
        Some((ip_from_wire(d.subrange(p, p + 4)), p + 4))
    } else {
        None
    }
}

/// What the header of a length-and-code frame gives on one call of a decoder.
#[allow(inconsistent_fields)]
pub enum FrameHeader {
    /// More bytes are needed; the length and code read so far, and the bytes taken.
    Pending { len: Option<usize>, kind: Option<u32>, taken: usize },
    /// The length is too short to hold the code.
    Malformed,
    /// The frame is whole: its code, and where its body starts and how long it is.
    Body { kind: u32, start: usize, size: usize },
}

/// One call of a decoder on a frame made of a 32-bit length (counting the code),
/// a 32-bit code and the body. The length and the code are each read as soon as
/// four bytes are there for them, and kept (`len`, `kind`) until the body is
/// all there.
pub open spec fn frame_header(len: Option<usize>, kind: Option<u32>, buf: Seq<u8>) -> FrameHeader {
    if len is None && buf.len() < 4 {
        FrameHeader::Pending { len, kind, taken: 0 }
    } else {
        let l: usize = if len is None {
            u32_from_le(buf.subrange(0, 4)) as usize
        } else {
            len.unwrap()
        };
        let p1: int = if len is None {
            4
        } else {
            0
        };
        if kind is None && buf.len() - p1 < 4 {
            FrameHeader::Pending { len: Some(l), kind, taken: p1 as usize }
        } else {
            let k: u32 = if kind is None {
                u32_from_le(buf.subrange(p1, p1 + 4))
            } else {
                kind.unwrap()
            };
            let p2: int = if kind is None {
                p1 + 4
            } else {
                p1
            };
            if l < 4 {
                FrameHeader::Malformed
            } else if buf.len() - p2 < l - 4 {
                FrameHeader::Pending { len: Some(l), kind: Some(k), taken: p2 as usize }
            } else {
                FrameHeader::Body { kind: k, start: p2 as usize, size: (l - 4) as usize }
            }
        }
    }
}

/// Works out the header of a length-and-code frame (see `frame_header`).
pub fn read_frame_header(len: Option<usize>, kind: Option<u32>, buf: &[u8]) -> (r: FrameHeader)
    ensures
        r == frame_header(len, kind, buf@),
        r matches FrameHeader::Body { start, size, .. } ==> start + size <= buf@.len(),
        r matches FrameHeader::Pending { taken, .. } ==> taken <= buf@.len(),
        buf@.len() <= usize::MAX,
{
    let total = buf.len();
    let l = match len {
        Some(l) => l,
        None => {
            if total < 4 {
                return FrameHeader::Pending { len, kind, taken: 0 };
            }
            read_u32_at(buf, 0) as usize
        },
    };
    let p1: usize = if len.is_none() {
        4
    } else {
        0
    };
    let k = match kind {
        Some(k) => k,
        None => {
            if total - p1 < 4 {
                return FrameHeader::Pending { len: Some(l), kind, taken: p1 };
            }
            read_u32_at(buf, p1)
        },
    };
    let p2: usize = if kind.is_none() {
        p1 + 4
    } else {
        p1
    };
    if l < 4 {
        FrameHeader::Malformed
    } else if total - p2 < l - 4 {
        FrameHeader::Pending { len: Some(l), kind: Some(k), taken: p2 }
    } else {
        FrameHeader::Body { kind: k, start: p2, size: l - 4 }
    }
}

/// A copy of `buf[start..start + size]`.
pub fn copy_range(buf: &[u8], start: usize, size: usize) -> (r: Vec<u8>)
    requires
        start + size <= buf@.len(),
    ensures
        r@ == buf@.subrange(start as int, start + size),
{
    let mut data: Vec<u8> = Vec::new();
    let mut i: usize = 0;
    let total = buf.len();
    while i < size
        invariant
            total == buf@.len(),
            start + size <= total,
            i <= size,
            data@ == buf@.subrange(start as int, start + i),
        decreases size - i,
    {
        data.push(buf[start + i]);
        i = i + 1;
        assert(data@ =~= buf@.subrange(start as int, start + i));
    }
    data
}

/// A string written as a length-prefixed string is read back whole, with the
/// bytes after it left for what follows (for strings shorter than 2^32 bytes).
pub proof fn lemma_packed_string_roundtrip(s: Seq<char>, rest: Seq<u8>)
    requires
        str_bytes(s).len() < 0x1_0000_0000,
    ensures
        read_string(packed_string(s) + rest, 0) == Some((s, packed_string(s).len() as int)),
{
    let b = str_bytes(s);
    let d = packed_string(s) + rest;
    lemma_le_u32_roundtrip(len32(b.len()));
    assert(len32(b.len()) == b.len());
    assert(d.subrange(0, 4) =~= le_u32(len32(b.len())));
    assert(d.subrange(4, 4 + b.len() as int) =~= b);
    vstd::utf8::encode_utf8_valid_utf8(s);
    vstd::utf8::encode_utf8_decode_utf8(s);
}

/// Reading back the little-endian encoding of a 64-bit integer gives that integer.
pub proof fn lemma_le_u64_roundtrip(x: u64)
    ensures
        u64_from_le(le_u64(x)) == x,
        le_u64(x).len() == 8,
{
    let lo = (x % 0x1_0000_0000) as u32;
    let hi = (x / 0x1_0000_0000) as u32;
    lemma_le_u32_roundtrip(lo);
    lemma_le_u32_roundtrip(hi);
    let b = le_u64(x);
    assert(b.skip(4) =~= le_u32(hi));
    assert(u32_from_le(b) == u32_from_le(le_u32(lo)));
    vstd::arithmetic::div_mod::lemma_fundamental_div_mod(x as int, 0x1_0000_0000);
}

/// Where the bytes of `d` from `p` are `whole`, and `piece` stands at `off` in
/// `whole`, the bytes of `d` from `p + off` are `piece`.
pub proof fn lemma_piece_at(d: Seq<u8>, p: int, whole: Seq<u8>, off: int, piece: Seq<u8>)
    requires
        0 <= p,
        p + whole.len() <= d.len(),
        d.subrange(p, p + whole.len()) == whole,
        0 <= off,
        off + piece.len() <= whole.len(),
        whole.subrange(off, off + piece.len()) == piece,
    ensures
        d.subrange(p + off, p + off + piece.len()) == piece,
{
    assert forall|i: int| 0 <= i < piece.len() implies #[trigger] d.subrange(
        p + off,
        p + off + piece.len(),
    )[i] == piece[i] by {
        assert(d.subrange(p, p + whole.len())[off + i] == whole[off + i]);
        assert(whole.subrange(off, off + piece.len())[i] == piece[i]);
    }
    assert(d.subrange(p + off, p + off + piece.len()) =~= piece);
}

/// Where the bytes of `d` from `p` are `a + b`, those from `p` are `a` and
/// those after them are `b`.
pub proof fn lemma_split_at(d: Seq<u8>, p: int, a: Seq<u8>, b: Seq<u8>)
    requires
        0 <= p,
        p + a.len() + b.len() <= d.len(),
        d.subrange(p, p + (a + b).len()) == a + b,
    ensures
        d.subrange(p, p + a.len()) == a,
        d.subrange(p + a.len(), p + a.len() + b.len()) == b,
{
    assert((a + b).subrange(0, a.len() as int) =~= a);
    lemma_piece_at(d, p, a + b, 0, a);
    assert((a + b).subrange(a.len() as int, (a.len() + b.len()) as int) =~= b);
    lemma_piece_at(d, p, a + b, a.len() as int, b);
}

/// A whole frame with a length field of four plus the body's length, then the
/// code, then the body, followed by anything: its header gives the code and
/// the body, which starts right after the code.
pub proof fn lemma_frame_header_whole(code: u32, body: Seq<u8>, rest: Seq<u8>)
    requires
        body.len() + 4 <= u32::MAX,
    ensures
        ({
            let buf = le_u32((body.len() + 4) as u32) + le_u32(code) + body + rest;
            &&& frame_header(None, None, buf) == (FrameHeader::Body {
                kind: code,
                start: 8,
                size: body.len() as usize,
            })
            &&& buf.subrange(8, 8 + body.len() as int) == body
        }),
{
    let l = le_u32((body.len() + 4) as u32);
    let buf = l + le_u32(code) + body + rest;
    lemma_le_u32_roundtrip((body.len() + 4) as u32);
    lemma_le_u32_roundtrip(code);
    assert(buf.subrange(0, 4) =~= l);
    assert(buf.subrange(4, 8) =~= le_u32(code));
    assert(buf.subrange(8, 8 + body.len() as int) =~= body);
}

/// A 32-bit integer written at `p` reads back there.
pub proof fn lemma_read_u32_at(d: Seq<u8>, p: int, v: u32)
    requires
        0 <= p,
        p + 4 <= d.len(),
        d.subrange(p, p + 4) == le_u32(v),
    ensures
        read_u32(d, p) == Some((v, p + 4)),
{
    lemma_le_u32_roundtrip(v);
}

/// A 64-bit integer written at `p` reads back there.
pub proof fn lemma_read_u64_at(d: Seq<u8>, p: int, v: u64)
    requires
        0 <= p,
        p + 8 <= d.len(),
        d.subrange(p, p + 8) == le_u64(v),
    ensures
        read_u64(d, p) == Some((v, p + 8)),
{
    lemma_le_u64_roundtrip(v);
}

/// A string packed at `p` reads back there, when its length fits its field.
pub proof fn lemma_read_string_at(d: Seq<u8>, p: int, s: Seq<char>)
    requires
        str_bytes(s).len() < 0x1_0000_0000,
        0 <= p,
        p + packed_string(s).len() <= d.len(),
        d.subrange(p, p + packed_string(s).len()) == packed_string(s),
    ensures
        read_string(d, p) == Some((s, p + packed_string(s).len())),
{
    let b = str_bytes(s);
    let w = packed_string(s);
    let l = le_u32(len32(b.len()));
    assert(w.subrange(0, 4) =~= l);
    lemma_piece_at(d, p, w, 0, l);
    lemma_read_u32_at(d, p, len32(b.len()));
    assert(len32(b.len()) == b.len());
    assert(w.subrange(4, 4 + b.len() as int) =~= b);
    lemma_piece_at(d, p, w, 4, b);
    vstd::utf8::encode_utf8_valid_utf8(s);
    vstd::utf8::encode_utf8_decode_utf8(s);
}

/// Frame headers read in two calls: when the bytes `a` do not yet hold a whole
/// frame, reading the rest of `a` followed by `b` from the state that `a` left
/// gives the same outcome as reading `a + b` at once, with the positions moved
/// by what the first call took.
pub proof fn lemma_frame_header_in_pieces(len: Option<usize>, kind: Option<u32>, a: Seq<u8>, b: Seq<u8>)
    requires
        frame_header(len, kind, a) is Pending,
    ensures
        ({
            let (len1, kind1, t) = match frame_header(len, kind, a) {
                FrameHeader::Pending { len, kind, taken } => (len, kind, taken as int),
                _ => (None, None, 0int),
            };
            let whole = a + b;
            let second = a.skip(t) + b;
            &&& 0 <= t <= a.len()
            &&& second == whole.skip(t)
            &&& match (frame_header(len1, kind1, second), frame_header(len, kind, whole)) {
                (
                    FrameHeader::Pending { len: l2, kind: k2, taken: t2 },
                    FrameHeader::Pending { len: l3, kind: k3, taken: t3 },
                ) => l2 == l3 && k2 == k3 && t + t2 == t3,
                (FrameHeader::Malformed, FrameHeader::Malformed) => true,
                (
                    FrameHeader::Body { kind: k2, start: s2, size: z2 },
                    FrameHeader::Body { kind: k3, start: s3, size: z3 },
                ) => k2 == k3 && t + s2 == s3 && z2 == z3,
                _ => false,
            }
        }),
{
    let whole = a + b;
    match frame_header(len, kind, a) {
        FrameHeader::Pending { len: len1, kind: kind1, taken } => {
            let t = taken as int;
            let second = a.skip(t) + b;
            assert(second =~= whole.skip(t));
            if a.len() >= 4 {
                assert(whole.subrange(0, 4) =~= a.subrange(0, 4));
            }
            if a.len() >= 8 {
                assert(whole.subrange(4, 8) =~= a.subrange(4, 8));
            }
            if t == 4 && second.len() >= 4 {
                assert(second.subrange(0, 4) =~= whole.subrange(4, 8));
            }
            if t == 0 {
                assert(second =~= whole);
            }
        },
        _ => {},
    }
}

/// A read position in a message body.
pub struct Cursor {
    data: Vec<u8>,
    pos: usize,
}

impl View for Cursor {
    /// The bytes and the current position.
    type V = (Seq<u8>, int);

    closed spec fn view(&self) -> (Seq<u8>, int) {
        (self.data@, self.pos as int)
    }
}

impl Cursor {
    #[verifier::type_invariant]
    spec fn inv(self) -> bool {
        self.pos <= self.data@.len()
    }

    /// A cursor at the start of `data`.
    pub fn new(data: Vec<u8>) -> (r: Cursor)
        ensures
            r@ == (data@, 0int),
    {
        Cursor { data, pos: 0 }
    }

    /// The current position.
    pub fn position(&self) -> (r: usize)
        ensures
            r == self@.1,
            r <= self@.0.len(),
    {
        proof {
            use_type_invariant(self);
        }
        self.pos
    }

    /// The number of bytes after the current position.
    pub fn remaining(&self) -> (r: usize)
        ensures
            r == self@.0.len() - self@.1,
            self@.1 <= self@.0.len(),
            self@.0.len() <= usize::MAX,
    {
        proof {
            use_type_invariant(self);
        }
        let len = self.data.len();
        len - self.pos
    }

    /// Skips `n` bytes.
    pub fn advance(&mut self, n: usize)
        requires
            old(self)@.1 + n <= old(self)@.0.len(),
        ensures
            final(self)@ == (old(self)@.0, old(self)@.1 + n),
    {
        proof {
            use_type_invariant(&*self);
        }
        let len = self.data.len();
        assert(self.pos + n <= len);
        self.pos = self.pos + n;
    }

    /// Moves to position `p`.
    pub fn set_position(&mut self, p: usize)
        requires
            p <= old(self)@.0.len(),
        ensures
            final(self)@ == (old(self)@.0, p as int),
    {
        self.pos = p;
    }

    /// Reads `n` bytes, or nothing (leaving the cursor as it was) when fewer remain.
    pub fn try_bytes(&mut self, n: usize) -> (r: Option<Vec<u8>>)
        ensures
            final(self)@.0 == old(self)@.0,
            match read_bytes(old(self)@.0, old(self)@.1, n as int) {
                Some((b, q)) => r matches Some(v) && v@ == b && final(self)@.1 == q,
                None => r is None && final(self)@ == old(self)@,
            },
    {
        proof {
            use_type_invariant(&*self);
        }
        if n > self.data.len() - self.pos {
            return None;
        }
        let mut v: Vec<u8> = Vec::new();
        let mut i: usize = 0;
        let len = self.data.len();
        while i < n
            invariant
                self.pos + n <= self.data@.len(),
                len == self.data@.len(),
                i <= n,
                v@ == self.data@.subrange(self.pos as int, self.pos + i),
            decreases n - i,
        {
            v.push(self.data[self.pos + i]);
            i = i + 1;
            assert(v@ =~= self.data@.subrange(self.pos as int, self.pos + i));
        }
        self.pos = self.pos + n;
        Some(v)
    }

    /// Reads a byte, or nothing (leaving the cursor as it was) at the end.
    pub fn try_u8(&mut self) -> (r: Option<u8>)
        ensures
            final(self)@.0 == old(self)@.0,
            match read_u8(old(self)@.0, old(self)@.1) {
                Some((v, q)) => r == Some(v) && final(self)@.1 == q,
                None => r is None && final(self)@ == old(self)@,
            },
    {
        proof {
            use_type_invariant(&*self);
        }
        if self.pos >= self.data.len() {
            return None;
        }
        let v = self.data[self.pos];
        self.pos = self.pos + 1;
        Some(v)
    }

    /// Reads a 16-bit little-endian integer, or nothing (leaving the cursor as it was).
    pub fn try_u16(&mut self) -> (r: Option<u16>)
        ensures
            final(self)@.0 == old(self)@.0,
            match read_u16(old(self)@.0, old(self)@.1) {
                Some((v, q)) => r == Some(v) && final(self)@.1 == q,
                None => r is None && final(self)@ == old(self)@,
            },
    {
        proof {
            use_type_invariant(&*self);
        }
        if self.data.len() - self.pos < 2 {
            return None;
        }
        let p = self.pos;
        let v = self.data[p] as u16 + 256 * (self.data[p + 1] as u16);
        self.pos = p + 2;
        Some(v)
    }

    /// Reads a 32-bit little-endian integer, or nothing (leaving the cursor as it was).
    pub fn try_u32(&mut self) -> (r: Option<u32>)
        ensures
            final(self)@.0 == old(self)@.0,
            match read_u32(old(self)@.0, old(self)@.1) {
                Some((v, q)) => r == Some(v) && final(self)@.1 == q,
                None => r is None && final(self)@ == old(self)@,
            },
    {
        proof {
            use_type_invariant(&*self);
        }
        if self.data.len() - self.pos < 4 {
            return None;
        }
        let p = self.pos;
        let v = read_u32_at(self.data.as_slice(), p);
        self.pos = p + 4;
        Some(v)
    }

    /// Reads a signed 32-bit little-endian integer, or nothing (leaving the cursor as it was).
    pub fn try_i32(&mut self) -> (r: Option<i32>)
        ensures
            final(self)@.0 == old(self)@.0,
            match read_i32(old(self)@.0, old(self)@.1) {
                Some((v, q)) => r == Some(v) && final(self)@.1 == q,
                None => r is None && final(self)@ == old(self)@,
            },
    {
        match self.try_u32() {
            Some(v) => Some(v as i32),
            None => None,
        }
    }

    /// Reads a 64-bit little-endian integer, or nothing (leaving the cursor as it was).
    pub fn try_u64(&mut self) -> (r: Option<u64>)
        ensures
            final(self)@.0 == old(self)@.0,
            match read_u64(old(self)@.0, old(self)@.1) {
                Some((v, q)) => r == Some(v) && final(self)@.1 == q,
                None => r is None && final(self)@ == old(self)@,
            },
    {
        proof {
            use_type_invariant(&*self);
        }
        if self.data.len() - self.pos < 8 {
            return None;
        }
        let p = self.pos;
        let lo = read_u32_at(self.data.as_slice(), p);
        let hi = read_u32_at(self.data.as_slice(), p + 4);
        proof {
            let b = self.data@.subrange(p as int, p + 8);
            assert(b.subrange(0, 4) =~= self.data@.subrange(p as int, p + 4));
            assert(b.skip(4).subrange(0, 4) =~= self.data@.subrange(p + 4, p + 8));
        }
        self.pos = p + 8;
        Some(lo as u64 + 0x1_0000_0000u64 * (hi as u64))
    }

    /// Reads a length-prefixed UTF-8 string, or nothing (leaving the cursor as it was)
    /// when the bytes run out or are not valid UTF-8.
    pub fn try_string(&mut self) -> (r: Option<String>)
        ensures
            final(self)@.0 == old(self)@.0,
            match read_string(old(self)@.0, old(self)@.1) {
                Some((s, q)) => r matches Some(t) && t@ == s && final(self)@.1 == q,
                None => r is None && final(self)@ == old(self)@,
            },
    {
        let start = self.pos;
        proof {
            use_type_invariant(&*self);
        }
        let n = match self.try_u32() {
            Some(n) => n,
            None => return None,
        };
        let b = match self.try_bytes(n as usize) {
            Some(b) => b,
            None => {
                self.pos = start;
                return None;
            },
        };
        match string_from_utf8(b) {
            Some(s) => Some(s),
            None => {
                self.pos = start;
                None
            },
        }
    }

    /// Reads an IPv4 address (last octet first), or nothing (leaving the cursor as it was).
    pub fn try_ip(&mut self) -> (r: Option<Ipv4Addr>)
        ensures
            final(self)@.0 == old(self)@.0,
            match read_ip(old(self)@.0, old(self)@.1) {
                Some((v, q)) => r == Some(v) && final(self)@.1 == q,
                None => r is None && final(self)@ == old(self)@,
            },
    {
        proof {
            use_type_invariant(&*self);
        }
        if self.data.len() - self.pos < 4 {
            return None;
        }
        let p = self.pos;
        let ip = Ipv4Addr::new(self.data[p + 3], self.data[p + 2], self.data[p + 1], self.data[p]);
        self.pos = p + 4;
        Some(ip)
    }
}

} // verus!
