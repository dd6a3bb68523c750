//! The peer-to-peer protocol, with its optional obfuscation.
use vstd::prelude::*;
use crate::codec::structs::{FileEntry, SpecFileEntry, entries_view};
use crate::codec::util::{decompress, pack_string};
use crate::codec::wire::{
    Cursor, copy_range, le_u32, le_u64, len32, len_field_plus, lemma_le_u32_roundtrip,
    lemma_le_u64_roundtrip, lemma_piece_at, lemma_split_at,
    lemma_read_string_at, lemma_read_u32_at, lemma_read_u64_at, packed_string, read_string, read_u32,
    read_u64, read_u8, str_bytes, u32_from_le, u32_le_bytes,
};
use crate::foreign::{
    buf_contents, buf_extend, buf_from_vec, buf_new, buf_split_to, buf_to_vec, zlib_decoding,
};
use vstd::slice::slice_to_vec;
use rand::Rng;

verus! {

/// A message between peers.
#[derive(Clone, Debug, PartialEq, Eq)]
pub enum PeerMsg {
    HPierceFirewall { token: u32 },
    SearchRequest { token: u32, query: String },
    SearchReply {
        username: String,
        token: u32,
        results: Vec<FileEntry>,
        slots_free: bool,
        average_speed: u32,
        queue_length: u64,
        locked_results: Option<Vec<FileEntry>>,
    },
}

/// A peer message with its strings and lists as mathematical sequences.
pub enum SpecPeerMsg {
    HPierceFirewall { token: u32 },
    SearchRequest { token: u32, query: Seq<char> },
    SearchReply {
        username: Seq<char>,
        token: u32,
        results: Seq<SpecFileEntry>,
        slots_free: bool,
        average_speed: u32,
        queue_length: u64,
        locked_results: Option<Seq<SpecFileEntry>>,
    },
}

impl View for PeerMsg {
    type V = SpecPeerMsg;

    open spec fn view(&self) -> SpecPeerMsg {
        match self {
            PeerMsg::HPierceFirewall { token } => SpecPeerMsg::HPierceFirewall { token: *token },
            PeerMsg::SearchRequest { token, query } => SpecPeerMsg::SearchRequest {
                token: *token,
                query: query@,
            },
            PeerMsg::SearchReply {
                username,
                token,
                results,
                slots_free,
                average_speed,
                queue_length,
                locked_results,
            } => SpecPeerMsg::SearchReply {
                username: username@,
                token: *token,
                results: entries_view(results@),
                slots_free: *slots_free,
                average_speed: *average_speed,
                queue_length: *queue_length,
                locked_results: match locked_results {
                    Some(l) => Some(entries_view(l@)),
                    None => None,
                },
            },
        }
    }
}

/// The view of a decoding result.
pub open spec fn peer_opt_view(m: Option<PeerMsg>) -> Option<SpecPeerMsg> {
    match m {
        Some(m) => Some(m@),
        None => None,
    }
}

/// The key rotated left by one bit.
pub open spec fn rotl1(k: u32) -> u32 {
    (2 * (k % 0x8000_0000) + k / 0x8000_0000) as u32
}

/// The key rotated left by `n` bits.
pub open spec fn rot_n(k: u32, n: nat) -> u32
    decreases n,
{
    if n == 0 {
        k
    } else {
        rotl1(rot_n(k, (n - 1) as nat))
    }
}

/// A four-byte key (read as a little-endian integer) after `n` rotations.
pub open spec fn rotated_key(key: Seq<u8>, n: nat) -> Seq<u8> {
    le_u32(rot_n(u32_from_le(key), n))
}

/// The key byte that masks byte `i` of a stream obfuscated from `key`: the key is
/// rotated before each block of four bytes, and byte `i` is masked with byte
/// `i % 4` of the key in force for its block.
pub open spec fn mask_byte(key: Seq<u8>, i: nat) -> u8 {
    rotated_key(key, i / 4 + 1)[(i % 4) as int]
}

/// `src` with its first `len` bytes masked by the stream of `key`.
pub open spec fn obfuscated(src: Seq<u8>, key: Seq<u8>, len: nat) -> Seq<u8> {
    Seq::new(src.len(), |i: int| if i < len { src[i] ^ mask_byte(key, i as nat) } else { src[i] })
}

/// The number of rotations that obfuscating `len` bytes applies to the key.
pub open spec fn rotations(len: nat) -> nat {
    (len + 3) / 4
}

/// Rotates a four-byte obfuscation key left by one bit.
fn rotate_key_array(key: &mut [u8; 4])
    ensures
        final(key)@ == rotated_key(old(key)@, 1),
{
    let mask: u32 = 0b00111111;
    let c: u32 = 31u32 & mask;
    let f: u32 = (!c) & mask;
    assert(c == 31 && f == 32) by (bit_vector)
        requires
            mask == 0b00111111u32,
            c == 31u32 & mask,
            f == (!c) & mask,
    ;
    let b0 = key[0];
    let b1 = key[1];
    let b2 = key[2];
    let b3 = key[3];
    assert(((b1 as u32) << 8u32) <= 0xff00u32 && ((b2 as u32) << 16u32) <= 0xff0000u32
        && ((b3 as u32) << 24u32) <= 0xff000000u32) by (bit_vector);
    let key_orig: u32 = b0 as u32 + ((b1 as u32) << 8u32) + ((b2 as u32) << 16u32) + ((b3 as u32)
        << 24u32);
    let key_rotated: u32 = (key_orig >> c) | (key_orig.wrapping_shl(f + 1));
    let ghost k = key_orig;
    assert(key_rotated == rotl1(k)) by {
        assert(key_orig.wrapping_shl(33u32) == key_orig << 1u32) by (bit_vector);
        assert((key_orig >> 31u32) | (key_orig << 1u32) == (2 * (key_orig % 0x8000_0000)
            + key_orig / 0x8000_0000) as u32) by (bit_vector);
    }
    assert(key_orig == u32_from_le(old(key)@)) by {
        assert(key_orig == b0 as u32 + ((b1 as u32) << 8u32) + ((b2 as u32) << 16u32) + ((b3 as u32) << 24u32));
        assert(b0 as u32 + ((b1 as u32) << 8u32) + ((b2 as u32) << 16u32) + ((b3 as u32) << 24u32)
            == (b0 + 256 * b1 + 65536 * b2 + 16777216 * b3) as u32) by (bit_vector);
    }
    let r = key_rotated;
    *key = [(r & 0xff) as u8, ((r >> 8u32) & 0xff) as u8, ((r >> 16u32) & 0xff) as u8, ((r >> 24u32) & 0xff) as u8];
    assert((r & 0xff) as u8 == (r % 256) as u8 && ((r >> 8u32) & 0xff) as u8 == ((r / 256) % 256) as u8
        && ((r >> 16u32) & 0xff) as u8 == ((r / 65536) % 256) as u8 && ((r >> 24u32) & 0xff) as u8
        == (r / 16777216) as u8) by (bit_vector);
    assert(key@ =~= le_u32(r));
    assert(rot_n(key_orig, 0) == key_orig);
    assert(rot_n(key_orig, 1) == rotl1(key_orig));
}

/// Rotating a key that was rotated `n` times once more gives the key rotated `n + 1` times.
pub proof fn lemma_rotated_key_step(key: Seq<u8>, n: nat)
    ensures
        rotated_key(rotated_key(key, n), 1) == rotated_key(key, n + 1),
        rotated_key(key, n).len() == 4,
{
    let k = rot_n(u32_from_le(key), n);
    lemma_le_u32_roundtrip(k);
    assert(rot_n(k, 0) == k);
    assert(rot_n(u32_from_le(key), n + 1) == rotl1(k));
}

/// A four-byte key rotated no times is the key itself.
#[verifier::spinoff_prover]
pub proof fn lemma_rotated_key_zero(key: Seq<u8>)
    requires
        key.len() == 4,
    ensures
        rotated_key(key, 0) == key,
{
    let x = u32_from_le(key);
    assert(rot_n(x, 0) == x);
    assert((key[0] + 256 * key[1] + 65536 * key[2] + 16777216 * key[3]) % 256 == key[0]);
    assert(((key[0] + 256 * key[1] + 65536 * key[2] + 16777216 * key[3]) / 256) % 256 == key[1]);
    assert(((key[0] + 256 * key[1] + 65536 * key[2] + 16777216 * key[3]) / 65536) % 256 == key[2]);
    assert((key[0] + 256 * key[1] + 65536 * key[2] + 16777216 * key[3]) / 16777216 == key[3]);
    assert(le_u32(x) =~= key);
}

/// A key rotated `n` times, for `n` from 1 to 31, as shifts.
proof fn lemma_rot_n_shifts(k: u32, n: u32)
    requires
        1 <= n <= 31,
    ensures
        rot_n(k, n as nat) == ((k << n) | (k >> ((32 - n) as u32))),
    decreases n,
{
    if n == 1 {
        assert(rot_n(k, 0) == k);
        assert(rotl1(k) == ((k << 1u32) | (k >> 31u32))) by (bit_vector);
    } else {
        let m = (n - 1) as u32;
        lemma_rot_n_shifts(k, m);
        let x = rot_n(k, m as nat);
        assert(rotl1(x) == ((x << 1u32) | (x >> 31u32))) by (bit_vector);
        assert((((k << m) | (k >> ((32 - m) as u32))) << 1u32) | (((k << m) | (k >> ((32 - m)
            as u32))) >> 31u32) == ((k << n) | (k >> ((32 - n) as u32)))) by (bit_vector)
            requires
                1 <= m <= 30,
                n == m + 1,
        ;
    }
}

/// The buffer after `n` successive calls of `rotate_key` on `b`.
pub open spec fn key_after_rotations(b: Seq<u8>, n: nat) -> Seq<u8>
    decreases n,
{
    if n == 0 {
        b
    } else {
        let p = key_after_rotations(b, (n - 1) as nat);
        rotated_key(p.take(4), 1) + p.skip(4)
    }
}

/// `n` successive calls of `rotate_key` rotate the key `n` times and leave the
/// bytes after it.
proof fn lemma_key_after_rotations(b: Seq<u8>, n: nat)
    requires
        b.len() >= 4,
    ensures
        key_after_rotations(b, n) == rotated_key(b.take(4), n) + b.skip(4),
    decreases n,
{
    if n == 0 {
        lemma_rotated_key_zero(b.take(4));
        assert(b.take(4) + b.skip(4) =~= b);
    } else {
        lemma_key_after_rotations(b, (n - 1) as nat);
        let k = rotated_key(b.take(4), (n - 1) as nat);
        lemma_rotated_key_step(b.take(4), (n - 1) as nat);
        assert((k + b.skip(4)).take(4) =~= k);
        assert((k + b.skip(4)).skip(4) =~= b.skip(4));
    }
}

/// Thirty-two successive calls of `rotate_key` give the buffer back: rotating a
/// 32-bit key by one bit has period 32.
pub proof fn lemma_rotate_key_period(b: Seq<u8>)
    requires
        b.len() >= 4,
    ensures
        key_after_rotations(b, 32) == b,
{
    lemma_key_after_rotations(b, 32);
    let k = u32_from_le(b.take(4));
    lemma_rot_n_shifts(k, 31);
    let x = rot_n(k, 31);
    assert(rot_n(k, 32) == rotl1(x));
    assert(rotl1((k << 31u32) | (k >> 1u32)) == k) by (bit_vector);
    lemma_rotated_key_zero(b.take(4));
    assert(b.take(4) + b.skip(4) =~= b);
}

/// Masks the first `len` bytes of `src` with the key stream of `key`: before each
/// block of four bytes the key is rotated, then each byte is xored with the key
/// byte at its place in the block. `key` is left rotated.
fn obfuscate_vec(src: &mut Vec<u8>, key: &mut [u8; 4], len: usize)
    requires
        len <= old(src)@.len(),
    ensures
        final(src)@ == obfuscated(old(src)@, old(key)@, len as nat),
        final(key)@ == rotated_key(old(key)@, rotations(len as nat)),
{
    let key_size: usize = 4;
    let ghost k0 = key@;
    let ghost s0 = src@;
    proof {
        lemma_rotated_key_zero(k0);
    }
    let mut i: usize = 0;
    while i < len
        invariant
            i <= len,
            len <= s0.len(),
            src@.len() == s0.len(),
            src@ == obfuscated(s0, k0, i as nat),
            key@ == rotated_key(k0, rotations(i as nat)),
            key_size == 4,
        decreases len - i,
    {
        let key_pos = i % key_size;
        if key_pos == 0 {
            rotate_key_array(key);
            proof {
                lemma_rotated_key_step(k0, rotations(i as nat));
            }
        }
        assert(key@ == rotated_key(k0, (i / 4 + 1) as nat));
        let b = src[i] ^ key[key_pos];
        src.set(i, b);
        i = i + 1;
        assert(src@ =~= obfuscated(s0, k0, i as nat));
    }
}

/// The bytes of `k` followed by those of `v` after its first four.
fn replace_prefix(k: &[u8; 4], v: &Vec<u8>) -> (r: Vec<u8>)
    requires
        v@.len() >= 4,
    ensures
        r@ == k@ + v@.skip(4),
{
    let mut r = slice_to_vec(k.as_slice());
    let mut i: usize = 4;
    while i < v.len()
        invariant
            4 <= i <= v@.len(),
            r@ == k@ + v@.subrange(4, i as int),
        decreases v@.len() - i,
    {
        r.push(v[i]);
        i = i + 1;
        assert(r@ =~= k@ + v@.subrange(4, i as int));
    }
    assert(v@.subrange(4, v@.len() as int) =~= v@.skip(4));
    r
}

/// Rotates the obfuscation key held in the first four bytes of `key` left by one
/// bit; the bytes after them stay as they are.
pub fn rotate_key(key: &mut bytes::BytesMut)
    requires
        buf_contents(*old(key)).len() >= 4,
    ensures
        buf_contents(*final(key)) == rotated_key(buf_contents(*old(key)).take(4), 1) + buf_contents(
            *old(key),
        ).skip(4),
        buf_contents(*final(key)) == key_after_rotations(buf_contents(*old(key)), 1),
{
    let v = buf_to_vec(key);
    let mut k: [u8; 4] = [v[0], v[1], v[2], v[3]];
    assert(k@ =~= v@.take(4));
    rotate_key_array(&mut k);
    *key = buf_from_vec(replace_prefix(&k, &v));
    assert(key_after_rotations(v@, 0) == v@);
}

/// Masks the first `len` bytes of `src` with the key stream of the key held in
/// the first four bytes of `key` (see `obfuscated`); the key is left rotated once
/// per block of four bytes, and the bytes after it stay as they are. With `len`
/// zero nothing changes.
pub fn obfuscate(src: &mut bytes::BytesMut, key: &mut bytes::BytesMut, len: usize)
    requires
        len <= buf_contents(*old(src)).len(),
        len > 0 ==> buf_contents(*old(key)).len() >= 4,
    ensures
        buf_contents(*final(src)) == obfuscated(
            buf_contents(*old(src)),
            buf_contents(*old(key)).take(4),
            len as nat,
        ),
        buf_contents(*final(key)) == if len == 0 {
            buf_contents(*old(key))
        } else {
            rotated_key(buf_contents(*old(key)).take(4), rotations(len as nat)) + buf_contents(
                *old(key),
            ).skip(4)
        },
{
    if len == 0 {
        assert(obfuscated(buf_contents(*src), buf_contents(*key).take(4), 0) =~= buf_contents(*src));
        return;
    }
    let kv = buf_to_vec(key);
    let mut k: [u8; 4] = [kv[0], kv[1], kv[2], kv[3]];
    assert(k@ =~= kv@.take(4));
    let mut data = buf_to_vec(src);
    obfuscate_vec(&mut data, &mut k, len);
    *src = buf_from_vec(data);
    *key = buf_from_vec(replace_prefix(&k, &kv));
}

/// Obfuscating twice from the same key gives the bytes back.
pub proof fn lemma_obfuscation_involution(src: Seq<u8>, key: Seq<u8>, len: nat)
    ensures
        obfuscated(obfuscated(src, key, len), key, len) == src,
{
    let once = obfuscated(src, key, len);
    assert forall|i: int| 0 <= i < src.len() implies #[trigger] obfuscated(once, key, len)[i]
        == src[i] by {
        if i < len {
            let x = src[i];
            let m = mask_byte(key, i as nat);
            assert((x ^ m) ^ m == x) by (bit_vector);
        }
    }
    assert(obfuscated(once, key, len) =~= src);
}

/// The messages that the peer encoder writes.
pub open spec fn peer_encodable(m: SpecPeerMsg) -> bool {
    m is HPierceFirewall || m is SearchRequest
}

/// The body of a message.
pub open spec fn peer_body(m: SpecPeerMsg) -> Seq<u8> {
    match m {
        SpecPeerMsg::HPierceFirewall { token } => le_u32(token),
        SpecPeerMsg::SearchRequest { token, query } => le_u32(token) + packed_string(query),
        _ => Seq::empty(),
    }
}

/// The length field of a frame: the length of the body, with the code counted
/// for a handshake (whose one-byte code the reader takes back out of it).
pub open spec fn peer_len_field(m: SpecPeerMsg) -> Seq<u8> {
    le_u32(
        len32(
            peer_body(m).len() + if m is HPierceFirewall {
                1nat
            } else {
                0nat
            },
        ),
    )
}

/// The code as the frame carries it. A handshake has a one-byte code. A search
/// request has a four-byte code; with obfuscation it is sent after four zero
/// bytes, and those four are masked by the key stream that continues from the
/// key as the length left it.
pub open spec fn peer_code_bytes(m: SpecPeerMsg, obfuscation: bool, key: Seq<u8>) -> Seq<u8> {
    if m is HPierceFirewall {
        seq![0u8]
    } else if obfuscation {
        obfuscated(seq![0u8, 0u8, 0u8, 0u8] + le_u32(1), rotated_key(key, 1), 4)
    } else {
        le_u32(1)
    }
}

/// The frame for a message: the length field, the code, the body. With
/// obfuscation the frame starts with the key, the length is masked by the key
/// stream from `key`, and the body by the stream that continues from the key as
/// the code left it: rotated once after a handshake code, twice after a search
/// request's code.
pub open spec fn peer_frame(m: SpecPeerMsg, obfuscation: bool, key: Seq<u8>) -> Seq<u8> {
    let body = peer_body(m);
    let len = peer_len_field(m);
    let code = peer_code_bytes(m, obfuscation, key);
    if obfuscation {
        let body_key = if m is HPierceFirewall {
            rotated_key(key, 1)
        } else {
            rotated_key(key, 2)
        };
        key + obfuscated(len, key, 4) + code + obfuscated(body, body_key, body.len())
    } else {
        len + code + body
    }
}

/// Draws a fresh obfuscation key from the thread's random number generator
/// (`rand::thread_rng` and `Rng::gen`, four times). Nothing is stated of the key.
#[verifier::external_body]
fn generate_obfuscation_key() -> (key: [u8; 4]) {
    let mut rng = rand::thread_rng();
    [rng.gen(), rng.gen(), rng.gen(), rng.gen()]
}

/// The state that a peer codec keeps between calls of `decode`.
pub struct PeerCodecState {
    pub key: Option<Seq<u8>>,
    pub len: Option<usize>,
    pub kind: Option<u32>,
    pub obfuscation: bool,
}

/// Reads and writes peer message frames.
pub struct PeerMsgCodec {
    cur_key: Option<[u8; 4]>,
    cur_len: Option<usize>,
    cur_kind: Option<u32>,
    use_obfuscation: bool,
}

impl View for PeerMsgCodec {
    type V = PeerCodecState;

    closed spec fn view(&self) -> PeerCodecState {
        PeerCodecState {
            key: match self.cur_key {
                Some(k) => Some(k@),
                None => None,
            },
            len: self.cur_len,
            kind: self.cur_kind,
            obfuscation: self.use_obfuscation,
        }
    }
}

impl PeerMsgCodec {
    /// A codec between frames, with obfuscation on or off.
    pub fn new(use_obfuscation: bool) -> (r: PeerMsgCodec)
        ensures
            r@ == (PeerCodecState { key: None, len: None, kind: None, obfuscation: use_obfuscation }),
    {
        PeerMsgCodec { cur_key: None, cur_len: None, cur_kind: None, use_obfuscation }
    }

    /// Appends the frame for `msg` to `bytes`, masking it (when obfuscation is on) from `key`.
    #[verifier::spinoff_prover]
    #[verifier::rlimit(30)]
    pub fn encode_with_key(&self, msg: PeerMsg, key: [u8; 4], bytes: &mut bytes::BytesMut)
        requires
            peer_encodable(msg@),
        ensures
            buf_contents(*final(bytes)) == buf_contents(*old(bytes)) + peer_frame(
                msg@,
                self@.obfuscation,
                key@,
            ),
    {
        let ghost m = msg@;
        let mut buf = buf_new();
        let handshake: bool;
        match msg {
            PeerMsg::HPierceFirewall { token } => {
                handshake = true;
                buf_extend(&mut buf, u32_le_bytes(token).as_slice());
            },
            PeerMsg::SearchRequest { token, query } => {
                handshake = false;
                buf_extend(&mut buf, u32_le_bytes(token).as_slice());
                pack_string(query.as_str(), &mut buf);
            },
            _ => {
                assert(false);
                handshake = false;
            },
        }
        let mut body = buf_to_vec(&buf);
        assert(body@ =~= peer_body(m));
        let n = body.len();
        let len = if handshake {
            len_field_plus(n, 1)
        } else {
            len_field_plus(n, 0)
        };
        let mut len_buf = slice_to_vec(u32_le_bytes(len).as_slice());
        assert(len_buf@ =~= peer_len_field(m));
        if self.use_obfuscation {
            let ghost k0 = key@;
            let mut key = key;
            buf_extend(bytes, key.as_slice());
            obfuscate_vec(&mut len_buf, &mut key, 4);
            buf_extend(bytes, len_buf.as_slice());
            assert(key@ == rotated_key(k0, 1)) by {
                assert(rotations(4) == 1);
            }
            if handshake {
                buf_extend(bytes, [0u8].as_slice());
                assert([0u8]@ =~= peer_code_bytes(m, true, k0));
            } else {
                let mut code = slice_to_vec([0u8, 0u8, 0u8, 0u8, 1u8, 0u8, 0u8, 0u8].as_slice());
                assert(code@ =~= seq![0u8, 0u8, 0u8, 0u8] + le_u32(1));
                obfuscate_vec(&mut code, &mut key, 4);
                buf_extend(bytes, code.as_slice());
                proof {
                    lemma_rotated_key_step(k0, 1);
                }
            }
            obfuscate_vec(&mut body, &mut key, n);
            buf_extend(bytes, body.as_slice());
        } else {
            buf_extend(bytes, len_buf.as_slice());
            if handshake {
                buf_extend(bytes, [0u8].as_slice());
                assert([0u8]@ =~= peer_code_bytes(m, false, key@));
            } else {
                buf_extend(bytes, u32_le_bytes(1).as_slice());
            }
            buf_extend(bytes, body.as_slice());
        }
        assert(buf_contents(*bytes) =~= buf_contents(*old(bytes)) + peer_frame(m, self@.obfuscation, key@));
    }

    /// Appends the frame for `msg` to `bytes`; with obfuscation on, the frame is
    /// masked from a freshly drawn key, which it carries at its start.
    pub fn encode(&mut self, msg: PeerMsg, bytes: &mut bytes::BytesMut)
        requires
            peer_encodable(msg@),
        ensures
            final(self)@ == old(self)@,
            exists|key: Seq<u8>|
                key.len() == 4 && buf_contents(*final(bytes)) == buf_contents(*old(bytes))
                    + peer_frame(msg@, old(self)@.obfuscation, key),
    {
        let key = if self.use_obfuscation {
            generate_obfuscation_key()
        } else {
            [0u8, 0u8, 0u8, 0u8]
        };
        self.encode_with_key(msg, key, bytes);
        assert(key@.len() == 4);
    }
}

/// The attributes of a file entry, `n` of them from position `p`: each is four
/// skipped bytes and a 32-bit value. When fewer than four bytes remain where an
/// attribute should start, the rest of the input is skipped and the entry is
/// dropped (`Some((None, end))`); when the skipped bytes are there but the value
/// is not, reading fails (`None`).
pub open spec fn read_attrs(d: Seq<u8>, p: int, n: nat) -> Option<(Option<Seq<u32>>, int)>
    decreases n,
{
    if n == 0 {
        Some((Some(Seq::empty()), p))
    } else if d.len() - p < 4 {
        Some((None, d.len() as int))
    } else {
        match read_u32(d, p + 4) {
            None => None,
            Some((v, q)) => match read_attrs(d, q, (n - 1) as nat) {
                None => None,
                Some((None, e)) => Some((None, e)),
                Some((Some(rest), e)) => Some((Some(seq![v] + rest), e)),
            },
        }
    }
}

/// A file entry at position `p`: one skipped byte, the file name, the size (64 bits
/// when `wide`, else 32 bits), the extension, the attribute count and the attributes.
pub open spec fn read_entry(d: Seq<u8>, p: int, wide: bool) -> Option<(Option<SpecFileEntry>, int)> {
    if p + 1 > d.len() {
        None
    } else {
        match read_string(d, p + 1) {
            None => None,
            Some((filename, p1)) => match (if wide {
                read_u64(d, p1)
            } else {
                match read_u32(d, p1) {
                    Some((v, q)) => Some((v as u64, q)),
                    None => None,
                }
            }) {
                None => None,
                Some((size, p2)) => match read_string(d, p2) {
                    None => None,
                    Some((ext, p3)) => match read_u32(d, p3) {
                        None => None,
                        Some((n, p4)) => match read_attrs(d, p4, n as nat) {
                            None => None,
                            Some((None, e)) => Some((None, e)),
                            Some((Some(attrs), e)) => Some(
                                (Some(SpecFileEntry { filename, size, ext, attrs }), e),
                            ),
                        },
                    },
                },
            },
        }
    }
}

/// Attributes as an entry carries them: for each, a code and then its value.
pub open spec fn attrs_bytes(codes: Seq<u32>, attrs: Seq<u32>) -> Seq<u8>
    decreases attrs.len(),
{
    if attrs.len() == 0 || codes.len() == 0 {
        Seq::empty()
    } else {
        le_u32(codes[0]) + le_u32(attrs[0]) + attrs_bytes(codes.drop_first(), attrs.drop_first())
    }
}

/// A file entry as written: a byte `c` that readers skip, the file name, the
/// size in 64 bits (`wide`) or 32 bits, the extension, the attribute count, and
/// the attributes with their `codes`.
#[verifier::opaque]
pub open spec fn entry_bytes(e: SpecFileEntry, c: u8, codes: Seq<u32>, wide: bool) -> Seq<u8> {
    seq![c] + (packed_string(e.filename) + ((if wide {
        le_u64(e.size)
    } else {
        le_u32(e.size as u32)
    }) + (packed_string(e.ext) + (le_u32(len32(e.attrs.len())) + attrs_bytes(codes, e.attrs)))))
}

/// Whether `entry_bytes` can carry the entry: the strings and the attribute
/// count fit their 32-bit fields, each attribute has a code, and a 32-bit size
/// field holds the size.
pub open spec fn entry_writable(e: SpecFileEntry, codes: Seq<u32>, wide: bool) -> bool {
    &&& str_bytes(e.filename).len() < 0x1_0000_0000
    &&& str_bytes(e.ext).len() < 0x1_0000_0000
    &&& e.attrs.len() < 0x1_0000_0000
    &&& codes.len() == e.attrs.len()
    &&& !wide ==> e.size <= u32::MAX
}

/// The `n` result entries of a search reply from position `p`; each must start
/// with at least 16 bytes left and be read whole.
pub open spec fn read_results(d: Seq<u8>, p: int, n: nat) -> Option<(Seq<SpecFileEntry>, int)>
    decreases n,
{
    if n == 0 {
        Some((Seq::empty(), p))
    } else if d.len() - p < 16 {
        None
    } else {
        match read_entry(d, p, true) {
            Some((Some(e), q)) => match read_results(d, q, (n - 1) as nat) {
                Some((rest, r)) => Some((seq![e] + rest, r)),
                None => None,
            },
            _ => None,
        }
    }
}

/// Up to `n` locked entries from position `p`: reading stops when fewer than 16
/// bytes are left, and a dropped entry is skipped.
pub open spec fn read_locked(d: Seq<u8>, p: int, n: nat) -> Option<Seq<SpecFileEntry>>
    decreases n,
{
    if n == 0 {
        Some(Seq::empty())
    } else if d.len() - p < 16 {
        Some(Seq::empty())
    } else {
        match read_entry(d, p, true) {
            None => None,
            Some((None, q)) => read_locked(d, q, (n - 1) as nat),
            Some((Some(e), q)) => match read_locked(d, q, (n - 1) as nat) {
                Some(rest) => Some(seq![e] + rest),
                None => None,
            },
        }
    }
}

/// The queue length: 64 bits when eight bytes remain, else 32 bits.
pub open spec fn read_queue_length(d: Seq<u8>, p: int) -> Option<(u64, int)> {
    if d.len() - p >= 8 {
        read_u64(d, p)
    } else {
        match read_u32(d, p) {
            Some((v, q)) => Some((v as u64, q)),
            None => None,
        }
    }
}

/// The locked entries, present when at least four bytes remain for their count.
pub open spec fn read_locked_section(d: Seq<u8>, p: int) -> Option<Option<Seq<SpecFileEntry>>> {
    if d.len() - p >= 4 {
        match read_u32(d, p) {
            Some((c, q)) => match read_locked(d, q, c as nat) {
                Some(l) => Some(Some(l)),
                None => None,
            },
            None => None,
        }
    } else {
        Some(None)
    }
}

/// A search reply read from its (decompressed) body; nothing when the body is malformed.
pub open spec fn search_reply(d: Seq<u8>) -> Option<SpecPeerMsg> {
    match read_string(d, 0) {
        None => None,
        Some((username, p1)) => match read_u32(d, p1) {
            None => None,
            Some((token, p2)) => match read_u32(d, p2) {
                None => None,
                Some((count, p3)) => match read_results(d, p3, count as nat) {
                    None => None,
                    Some((results, p4)) => match read_u8(d, p4) {
                        None => None,
                        Some((slots, p5)) => match read_u32(d, p5) {
                            None => None,
                            Some((average_speed, p6)) => match read_queue_length(d, p6) {
                                None => None,
                                Some((queue_length, p7)) => match read_locked_section(d, p7) {
                                    None => None,
                                    Some(locked_results) => Some(
                                        SpecPeerMsg::SearchReply {
                                            username,
                                            token,
                                            results,
                                            slots_free: slots != 0,
                                            average_speed,
                                            queue_length,
                                            locked_results,
                                        },
                                    ),
                                },
                            },
                        },
                    },
                },
            },
        },
    }
}

/// `r` with `a` put in front of the attributes it carries.
pub open spec fn prepend_attrs(a: Seq<u32>, r: Option<(Option<Seq<u32>>, int)>) -> Option<
    (Option<Seq<u32>>, int),
> {
    match r {
        Some((Some(rest), e)) => Some((Some(a + rest), e)),
        other => other,
    }
}

/// `r` with `a` put in front of the entries it carries.
pub open spec fn prepend_results(a: Seq<SpecFileEntry>, r: Option<(Seq<SpecFileEntry>, int)>) -> Option<
    (Seq<SpecFileEntry>, int),
> {
    match r {
        Some((rest, e)) => Some((a + rest, e)),
        None => None,
    }
}

/// `r` with `a` put in front of the entries it carries.
pub open spec fn prepend_locked(a: Seq<SpecFileEntry>, r: Option<Seq<SpecFileEntry>>) -> Option<
    Seq<SpecFileEntry>,
> {
    match r {
        Some(rest) => Some(a + rest),
        None => None,
    }
}

/// Reads the attributes of an entry (see `read_attrs`).
fn try_attrs(b: &mut Cursor, n: u32) -> (r: Option<Option<Vec<u32>>>)
    ensures
        final(b)@.0 == old(b)@.0,
        match read_attrs(old(b)@.0, old(b)@.1, n as nat) {
            None => r is None,
            Some((None, e)) => r == Some(None::<Vec<u32>>) && final(b)@.1 == e,
            Some((Some(a), e)) => r matches Some(Some(v)) && v@ == a && final(b)@.1 == e,
        },
{
    let ghost d = b@.0;
    let ghost p0 = b@.1;
    let mut attrs: Vec<u32> = Vec::new();
    let mut i: u32 = 0;
    while i < n
        invariant
            b@.0 == d,
            d == old(b)@.0,
            p0 == old(b)@.1,
            i <= n,
            read_attrs(d, p0, n as nat) == prepend_attrs(attrs@, read_attrs(d, b@.1, (n - i) as nat)),
        decreases n - i,
    {
        let rem = b.remaining();
        if rem < 4 {
            b.advance(rem);
            return Some(None);
        }
        b.advance(4);
        let v = match b.try_u32() {
            Some(v) => v,
            None => return None,
        };
        proof {
            let rest = read_attrs(d, b@.1, (n - i - 1) as nat);
            match rest {
                Some((Some(x), e)) => {
                    assert(attrs@ + (seq![v] + x) =~= attrs@.push(v) + x);
                },
                _ => {},
            }
        }
        attrs.push(v);
        i = i + 1;
    }
    assert(attrs@ + Seq::<u32>::empty() =~= attrs@);
    Some(Some(attrs))
}

/// Reads a file entry (see `read_entry`): `None` when reading fails, `Some(None)`
/// when the entry is dropped.
fn try_file_entry(b: &mut Cursor, wide: bool) -> (r: Option<Option<FileEntry>>)
    ensures
        final(b)@.0 == old(b)@.0,
        match read_entry(old(b)@.0, old(b)@.1, wide) {
            None => r is None,
            Some((None, e)) => r == Some(None::<FileEntry>) && final(b)@.1 == e,
            Some((Some(x), e)) => r matches Some(Some(f)) && f@ == x && final(b)@.1 == e,
        },
{
    if b.remaining() < 1 {
        return None;
    }
    b.advance(1);
    let filename = match b.try_string() {
        Some(s) => s,
        None => return None,
    };
    let size: u64 = if wide {
        match b.try_u64() {
            Some(v) => v,
            None => return None,
        }
    } else {
        match b.try_u32() {
            Some(v) => v as u64,
            None => return None,
        }
    };
    let ext = match b.try_string() {
        Some(s) => s,
        None => return None,
    };
    let num_attrs = match b.try_u32() {
        Some(v) => v,
        None => return None,
    };
    match try_attrs(b, num_attrs) {
        None => None,
        Some(None) => Some(None),
        Some(Some(attrs)) => Some(Some(FileEntry { filename, size, ext, attrs })),
    }
}

/// Reads a file entry whose size is 64 bits wide. Gives nothing when the
/// attributes run out (the rest of the input is then skipped).
pub fn unpack_file_entry_u64(b: &mut Cursor) -> (r: Option<FileEntry>)
    requires
        read_entry(old(b)@.0, old(b)@.1, true) is Some,
    ensures
        ({
            let (e, q) = read_entry(old(b)@.0, old(b)@.1, true).unwrap();
            &&& final(b)@ == (old(b)@.0, q)
            &&& match e {
                Some(x) => r matches Some(f) && f@ == x,
                None => r is None,
            }
        }),
{
    match try_file_entry(b, true) {
        Some(e) => e,
        None => None,
    }
}

/// Reads a file entry whose size is 32 bits wide. Gives nothing when the
/// attributes run out (the rest of the input is then skipped).
pub fn unpack_file_entry_u32(b: &mut Cursor) -> (r: Option<FileEntry>)
    requires
        read_entry(old(b)@.0, old(b)@.1, false) is Some,
    ensures
        ({
            let (e, q) = read_entry(old(b)@.0, old(b)@.1, false).unwrap();
            &&& final(b)@ == (old(b)@.0, q)
            &&& match e {
                Some(x) => r matches Some(f) && f@ == x,
                None => r is None,
            }
        }),
{
    match try_file_entry(b, false) {
        Some(e) => e,
        None => None,
    }
}

/// Attributes written at `p` read back there.
proof fn lemma_read_attrs_at(d: Seq<u8>, p: int, codes: Seq<u32>, attrs: Seq<u32>)
    requires
        codes.len() == attrs.len(),
        0 <= p,
        p + attrs_bytes(codes, attrs).len() <= d.len(),
        d.subrange(p, p + attrs_bytes(codes, attrs).len()) == attrs_bytes(codes, attrs),
    ensures
        attrs_bytes(codes, attrs).len() == 8 * attrs.len(),
        read_attrs(d, p, attrs.len()) == Some((Some(attrs), p + 8 * attrs.len())),
    decreases attrs.len(),
{
    if attrs.len() > 0 {
        let w = attrs_bytes(codes, attrs);
        let tail = attrs_bytes(codes.drop_first(), attrs.drop_first());
        assert(w == le_u32(codes[0]) + le_u32(attrs[0]) + tail);
        assert(w.subrange(4, 8) =~= le_u32(attrs[0]));
        lemma_piece_at(d, p, w, 4, le_u32(attrs[0]));
        lemma_read_u32_at(d, p + 4, attrs[0]);
        assert(w.subrange(8, 8 + tail.len() as int) =~= tail);
        lemma_piece_at(d, p, w, 8, tail);
        lemma_read_attrs_at(d, p + 8, codes.drop_first(), attrs.drop_first());
        assert(seq![attrs[0]] + attrs.drop_first() =~= attrs);
    }
}

/// The size field of an entry at position `p`: 64 bits when `wide`, else 32.
spec fn read_entry_size(d: Seq<u8>, p: int, wide: bool) -> Option<(u64, int)> {
    if wide {
        read_u64(d, p)
    } else {
        match read_u32(d, p) {
            Some((v, q)) => Some((v as u64, q)),
            None => None,
        }
    }
}

/// An entry reads whole once each of its fields does.
proof fn lemma_read_entry_parts(
    d: Seq<u8>,
    p: int,
    wide: bool,
    e: SpecFileEntry,
    p1: int,
    p2: int,
    p3: int,
    p4: int,
    end: int,
)
    requires
        0 <= p,
        p + 1 <= d.len(),
        read_string(d, p + 1) == Some((e.filename, p1)),
        read_entry_size(d, p1, wide) == Some((e.size, p2)),
        read_string(d, p2) == Some((e.ext, p3)),
        read_u32(d, p3) == Some((e.attrs.len() as u32, p4)),
        e.attrs.len() <= u32::MAX,
        read_attrs(d, p4, e.attrs.len()) == Some((Some(e.attrs), end)),
    ensures
        read_entry(d, p, wide) == Some((Some(e), end)),
{
}

/// Where the pieces of a file entry written after `pre` stand.
proof fn lemma_entry_layout(
    e: SpecFileEntry,
    c: u8,
    codes: Seq<u32>,
    wide: bool,
    pre: Seq<u8>,
    rest: Seq<u8>,
)
    ensures
        ({
            let x = entry_bytes(e, c, codes, wide);
            let d = pre + x + rest;
            let name = packed_string(e.filename);
            let size = if wide {
                le_u64(e.size)
            } else {
                le_u32(e.size as u32)
            };
            let ext = packed_string(e.ext);
            let count = le_u32(len32(e.attrs.len()));
            let attrs = attrs_bytes(codes, e.attrs);
            let p1 = pre.len() as int + 1;
            let p2 = p1 + name.len();
            let p3 = p2 + size.len();
            let p4 = p3 + ext.len();
            let p5 = p4 + 4;
            &&& x.len() == 1 + name.len() + size.len() + ext.len() + 4 + attrs.len()
            &&& d.len() == pre.len() + x.len() + rest.len()
            &&& d.subrange(p1, p2) == name
            &&& d.subrange(p2, p3) == size
            &&& d.subrange(p3, p4) == ext
            &&& d.subrange(p4, p5) == count
            &&& d.subrange(p5, p5 + attrs.len()) == attrs
        }),
{
    let x = entry_bytes(e, c, codes, wide);
    let d = pre + x + rest;
    let p = pre.len() as int;
    let name = packed_string(e.filename);
    let size = if wide {
        le_u64(e.size)
    } else {
        le_u32(e.size as u32)
    };
    let ext = packed_string(e.ext);
    let count = le_u32(len32(e.attrs.len()));
    let attrs = attrs_bytes(codes, e.attrs);
    let r4 = count + attrs;
    let r3 = ext + r4;
    let r2 = size + r3;
    let r1 = name + r2;
    assert(d.subrange(p, p + x.len()) =~= x);
    assert(x == seq![c] + r1) by {
        reveal(entry_bytes);
    }
    lemma_split_at(d, p, seq![c], r1);
    let p1 = p + 1;
    lemma_split_at(d, p1, name, r2);
    let p2 = p1 + name.len();
    lemma_split_at(d, p2, size, r3);
    let p3 = p2 + size.len();
    lemma_split_at(d, p3, ext, r4);
    let p4 = p3 + ext.len();
    lemma_split_at(d, p4, count, attrs);
}

/// A string packed at `p` reads back there, with its length fitting its field.
proof fn lemma_entry_string_read(d: Seq<u8>, s: Seq<char>, p: int, q: int)
    requires
        str_bytes(s).len() < 0x1_0000_0000,
        0 <= p,
        q == p + packed_string(s).len(),
        q <= d.len(),
        d.subrange(p, q) == packed_string(s),
    ensures
        read_string(d, p) == Some((s, q)),
{
    lemma_read_string_at(d, p, s);
}

/// The size of a file entry reads back from where it stands.
proof fn lemma_entry_size_read(d: Seq<u8>, size: u64, wide: bool, p: int, q: int)
    requires
        !wide ==> size <= u32::MAX,
        0 <= p,
        q == p + if wide {
            8int
        } else {
            4int
        },
        q <= d.len(),
        d.subrange(p, q) == (if wide {
            le_u64(size)
        } else {
            le_u32(size as u32)
        }),
    ensures
        read_entry_size(d, p, wide) == Some((size, q)),
{
    if wide {
        lemma_read_u64_at(d, p, size);
    } else {
        lemma_read_u32_at(d, p, size as u32);
    }
}

/// The attribute count and the attributes of a file entry read back from where
/// they stand.
proof fn lemma_entry_attrs_read(d: Seq<u8>, codes: Seq<u32>, attrs: Seq<u32>, p: int)
    requires
        attrs.len() < 0x1_0000_0000,
        codes.len() == attrs.len(),
        0 <= p,
        p + 4 + attrs_bytes(codes, attrs).len() <= d.len(),
        d.subrange(p, p + 4) == le_u32(len32(attrs.len())),
        d.subrange(p + 4, p + 4 + attrs_bytes(codes, attrs).len()) == attrs_bytes(codes, attrs),
    ensures
        read_u32(d, p) == Some((attrs.len() as u32, p + 4)),
        read_attrs(d, p + 4, attrs.len()) == Some((Some(attrs), p + 4 + 8 * attrs.len())),
        attrs_bytes(codes, attrs).len() == 8 * attrs.len(),
{
    lemma_read_u32_at(d, p, len32(attrs.len()));
    lemma_read_attrs_at(d, p + 4, codes, attrs);
}

/// A file entry written after any bytes `pre` reads back whole with the reader
/// of the same size width, which ends just past it, whatever follows it.
pub proof fn lemma_file_entry_roundtrip(
    e: SpecFileEntry,
    c: u8,
    codes: Seq<u32>,
    wide: bool,
    pre: Seq<u8>,
    rest: Seq<u8>,
)
    requires
        entry_writable(e, codes, wide),
    ensures
        ({
            let x = entry_bytes(e, c, codes, wide);
            read_entry(pre + x + rest, pre.len() as int, wide) == Some(
                (Some(e), pre.len() + x.len() as int),
            )
        }),
{
    let x = entry_bytes(e, c, codes, wide);
    let d = pre + x + rest;
    let p = pre.len() as int;
    lemma_entry_layout(e, c, codes, wide, pre, rest);
    lemma_le_u64_roundtrip(e.size);
    lemma_le_u32_roundtrip(e.size as u32);
    let p1 = p + 1;
    let p2 = p1 + packed_string(e.filename).len();
    let p3 = p2 + if wide {
        8int
    } else {
        4int
    };
    let p4 = p3 + packed_string(e.ext).len();
    let p5 = p4 + 4;
    lemma_entry_string_read(d, e.filename, p1, p2);
    lemma_entry_size_read(d, e.size, wide, p2, p3);
    lemma_entry_string_read(d, e.ext, p3, p4);
    lemma_entry_attrs_read(d, codes, e.attrs, p4);
    lemma_read_entry_parts(d, p, wide, e, p2, p3, p4, p5, p + x.len());
}

/// The 32-bit and the 64-bit file-entry readers agree: an entry whose size fits
/// in 32 bits, written with either size width after any bytes, reads back as the
/// same entry with the reader of that width, and each reader ends just past it.
pub proof fn lemma_file_entry_readers_agree(
    e: SpecFileEntry,
    c: u8,
    codes: Seq<u32>,
    pre: Seq<u8>,
    rest: Seq<u8>,
)
    requires
        entry_writable(e, codes, false),
    ensures
        read_entry(pre + entry_bytes(e, c, codes, false) + rest, pre.len() as int, false) == Some(
            (Some(e), pre.len() + entry_bytes(e, c, codes, false).len() as int),
        ),
        read_entry(pre + entry_bytes(e, c, codes, true) + rest, pre.len() as int, true) == Some(
            (Some(e), pre.len() + entry_bytes(e, c, codes, true).len() as int),
        ),
{
    lemma_file_entry_roundtrip(e, c, codes, false, pre, rest);
    lemma_file_entry_roundtrip(e, c, codes, true, pre, rest);
}

/// Entries as a search reply lists them: each written with a 64-bit size (see
/// `entry_bytes`), with its own skipped byte `cs[i]` and attribute codes `codes[i]`.
pub open spec fn entries_bytes(es: Seq<SpecFileEntry>, cs: Seq<u8>, codes: Seq<Seq<u32>>) -> Seq<u8>
    decreases es.len(),
{
    if es.len() == 0 || cs.len() == 0 || codes.len() == 0 {
        Seq::empty()
    } else {
        entry_bytes(es[0], cs[0], codes[0], true) + entries_bytes(
            es.drop_first(),
            cs.drop_first(),
            codes.drop_first(),
        )
    }
}

/// A search reply body as a peer writes it without locked entries: the user
/// name, the token, the number of entries, the entries, the free-slots byte, the
/// average speed and the queue length as 64 bits.
pub open spec fn search_reply_bytes(
    username: Seq<char>,
    token: u32,
    es: Seq<SpecFileEntry>,
    cs: Seq<u8>,
    codes: Seq<Seq<u32>>,
    slots: u8,
    speed: u32,
    queue: u64,
) -> Seq<u8> {
    packed_string(username) + (le_u32(token) + (le_u32(es.len() as u32) + (entries_bytes(es, cs, codes)
        + (seq![slots] + (le_u32(speed) + le_u64(queue))))))
}

/// Whether each of the entries can be written with a 64-bit size.
pub open spec fn entries_writable(es: Seq<SpecFileEntry>, cs: Seq<u8>, codes: Seq<Seq<u32>>) -> bool {
    &&& cs.len() == es.len()
    &&& codes.len() == es.len()
    &&& forall|i: int| 0 <= i < es.len() ==> #[trigger] entry_writable(es[i], codes[i], true)
}

/// An entry written at `p` reads back there, when at least three more bytes
/// follow the bytes up to its end.
proof fn lemma_entry_at(d: Seq<u8>, p: int, e: SpecFileEntry, c: u8, codes: Seq<u32>)
    requires
        entry_writable(e, codes, true),
        0 <= p,
        p + entry_bytes(e, c, codes, true).len() <= d.len(),
        d.subrange(p, p + entry_bytes(e, c, codes, true).len()) == entry_bytes(e, c, codes, true),
    ensures
        read_entry(d, p, true) == Some((Some(e), p + entry_bytes(e, c, codes, true).len())),
        entry_bytes(e, c, codes, true).len() >= 13,
{
    let x = entry_bytes(e, c, codes, true);
    let pre = d.take(p);
    let rest = d.skip(p + x.len());
    assert(d =~= pre + x + rest);
    lemma_file_entry_roundtrip(e, c, codes, true, pre, rest);
    lemma_entry_layout(e, c, codes, true, pre, rest);
    lemma_le_u64_roundtrip(e.size);
}

/// Entries written at `p`, with at least thirteen bytes after them, read back
/// as a search reply's results: all of them, in order.
proof fn lemma_results_at(
    d: Seq<u8>,
    p: int,
    es: Seq<SpecFileEntry>,
    cs: Seq<u8>,
    codes: Seq<Seq<u32>>,
)
    requires
        entries_writable(es, cs, codes),
        0 <= p,
        p + entries_bytes(es, cs, codes).len() + 13 <= d.len(),
        d.subrange(p, p + entries_bytes(es, cs, codes).len()) == entries_bytes(es, cs, codes),
    ensures
        read_results(d, p, es.len()) == Some((es, p + entries_bytes(es, cs, codes).len())),
    decreases es.len(),
{
    if es.len() > 0 {
        let x = entry_bytes(es[0], cs[0], codes[0], true);
        let t = entries_bytes(es.drop_first(), cs.drop_first(), codes.drop_first());
        assert(entries_bytes(es, cs, codes) == x + t);
        lemma_split_at(d, p, x, t);
        assert(entry_writable(es[0], codes[0], true));
        lemma_entry_at(d, p, es[0], cs[0], codes[0]);
        assert forall|i: int| 0 <= i < es.drop_first().len() implies #[trigger] entry_writable(
            es.drop_first()[i],
            codes.drop_first()[i],
            true,
        ) by {
            assert(entry_writable(es[i + 1], codes[i + 1], true));
        }
        lemma_results_at(d, p + x.len(), es.drop_first(), cs.drop_first(), codes.drop_first());
        assert(seq![es[0]] + es.drop_first() =~= es);
    }
}

/// Where the fields of a search reply body stand.
proof fn lemma_reply_layout(
    username: Seq<char>,
    token: u32,
    es: Seq<SpecFileEntry>,
    cs: Seq<u8>,
    codes: Seq<Seq<u32>>,
    slots: u8,
    speed: u32,
    queue: u64,
)
    ensures
        ({
            let d = search_reply_bytes(username, token, es, cs, codes, slots, speed, queue);
            let p1 = packed_string(username).len() as int;
            let eb = entries_bytes(es, cs, codes);
            let p4 = p1 + 8 + eb.len();
            &&& d.len() == p4 + 13
            &&& d.subrange(0, p1) == packed_string(username)
            &&& d.subrange(p1, p1 + 4) == le_u32(token)
            &&& d.subrange(p1 + 4, p1 + 8) == le_u32(es.len() as u32)
            &&& d.subrange(p1 + 8, p4) == eb
            &&& d.subrange(p4, p4 + 1) == seq![slots]
            &&& d.subrange(p4 + 1, p4 + 5) == le_u32(speed)
            &&& d.subrange(p4 + 5, p4 + 13) == le_u64(queue)
        }),
{
    let d = search_reply_bytes(username, token, es, cs, codes, slots, speed, queue);
    let u = packed_string(username);
    let eb = entries_bytes(es, cs, codes);
    let r6 = le_u32(speed) + le_u64(queue);
    let r5 = seq![slots] + r6;
    let r4 = eb + r5;
    let r3 = le_u32(es.len() as u32) + r4;
    let r2 = le_u32(token) + r3;
    lemma_le_u64_roundtrip(queue);
    assert(d.subrange(0, d.len() as int) =~= d);
    lemma_split_at(d, 0, u, r2);
    let p1 = u.len() as int;
    lemma_split_at(d, p1, le_u32(token), r3);
    lemma_split_at(d, p1 + 4, le_u32(es.len() as u32), r4);
    lemma_split_at(d, p1 + 8, eb, r5);
    let p4 = p1 + 8 + eb.len();
    lemma_split_at(d, p4, seq![slots], r6);
    lemma_split_at(d, p4 + 1, le_u32(speed), le_u64(queue));
}

/// The fields after the results of a search reply body read back, with no
/// locked entries after them.
proof fn lemma_reply_tail(d: Seq<u8>, p4: int, slots: u8, speed: u32, queue: u64)
    requires
        0 <= p4,
        d.len() == p4 + 13,
        d.subrange(p4, p4 + 1) == seq![slots],
        d.subrange(p4 + 1, p4 + 5) == le_u32(speed),
        d.subrange(p4 + 5, p4 + 13) == le_u64(queue),
    ensures
        read_u8(d, p4) == Some((slots, p4 + 1)),
        read_u32(d, p4 + 1) == Some((speed, p4 + 5)),
        read_queue_length(d, p4 + 5) == Some((queue, p4 + 13)),
        read_locked_section(d, p4 + 13) == Some(None::<Seq<SpecFileEntry>>),
{
    assert(d.subrange(p4, p4 + 1)[0] == d[p4]);
    lemma_read_u32_at(d, p4 + 1, speed);
    lemma_read_u64_at(d, p4 + 5, queue);
}

/// The fields before the results of a search reply body read back.
proof fn lemma_reply_head(d: Seq<u8>, username: Seq<char>, token: u32, n: u32, p: int)
    requires
        str_bytes(username).len() < 0x1_0000_0000,
        p == packed_string(username).len(),
        p + 8 <= d.len(),
        d.subrange(0, p) == packed_string(username),
        d.subrange(p, p + 4) == le_u32(token),
        d.subrange(p + 4, p + 8) == le_u32(n),
    ensures
        read_string(d, 0) == Some((username, p)),
        read_u32(d, p) == Some((token, p + 4)),
        read_u32(d, p + 4) == Some((n, p + 8)),
{
    lemma_read_string_at(d, 0, username);
    lemma_read_u32_at(d, p, token);
    lemma_read_u32_at(d, p + 4, n);
}

/// A search reply body reads whole once each of its fields does.
proof fn lemma_reply_parts(
    d: Seq<u8>,
    username: Seq<char>,
    token: u32,
    es: Seq<SpecFileEntry>,
    slots: u8,
    speed: u32,
    queue: u64,
    p1: int,
    p4: int,
)
    requires
        es.len() <= u32::MAX,
        read_string(d, 0) == Some((username, p1)),
        read_u32(d, p1) == Some((token, p1 + 4)),
        read_u32(d, p1 + 4) == Some((es.len() as u32, p1 + 8)),
        read_results(d, p1 + 8, es.len()) == Some((es, p4)),
        read_u8(d, p4) == Some((slots, p4 + 1)),
        read_u32(d, p4 + 1) == Some((speed, p4 + 5)),
        read_queue_length(d, p4 + 5) == Some((queue, p4 + 13)),
        read_locked_section(d, p4 + 13) == Some(None::<Seq<SpecFileEntry>>),
    ensures
        search_reply(d) == Some(
            SpecPeerMsg::SearchReply {
                username,
                token,
                results: es,
                slots_free: slots != 0,
                average_speed: speed,
                queue_length: queue,
                locked_results: None,
            },
        ),
{
}

/// A search reply body written from a user name, a token, a list of entries
/// (each with a 64-bit size), the free-slots byte, the average speed and a
/// 64-bit queue length reads back as a reply with exactly those entries, in
/// order, and those fields, with no locked entries.
pub proof fn lemma_search_reply_roundtrip(
    username: Seq<char>,
    token: u32,
    es: Seq<SpecFileEntry>,
    cs: Seq<u8>,
    codes: Seq<Seq<u32>>,
    slots: u8,
    speed: u32,
    queue: u64,
)
    requires
        str_bytes(username).len() < 0x1_0000_0000,
        es.len() <= u32::MAX,
        entries_writable(es, cs, codes),
    ensures
        search_reply(search_reply_bytes(username, token, es, cs, codes, slots, speed, queue)) == Some(
            SpecPeerMsg::SearchReply {
                username,
                token,
                results: es,
                slots_free: slots != 0,
                average_speed: speed,
                queue_length: queue,
                locked_results: None,
            },
        ),
{
    let d = search_reply_bytes(username, token, es, cs, codes, slots, speed, queue);
    lemma_reply_layout(username, token, es, cs, codes, slots, speed, queue);
    let p1 = packed_string(username).len() as int;
    let eb = entries_bytes(es, cs, codes);
    let p4 = p1 + 8 + eb.len();
    lemma_reply_head(d, username, token, es.len() as u32, p1);
    lemma_results_at(d, p1 + 8, es, cs, codes);
    lemma_reply_tail(d, p4, slots, speed, queue);
    lemma_reply_parts(d, username, token, es, slots, speed, queue, p1, p4);
}

/// Reads the result entries of a search reply (see `read_results`).
fn try_results(b: &mut Cursor, n: u32) -> (r: Option<Vec<FileEntry>>)
    ensures
        final(b)@.0 == old(b)@.0,
        match read_results(old(b)@.0, old(b)@.1, n as nat) {
            None => r is None,
            Some((x, e)) => r matches Some(v) && entries_view(v@) == x && final(b)@.1 == e,
        },
{
    let ghost d = b@.0;
    let ghost p0 = b@.1;
    let mut results: Vec<FileEntry> = Vec::new();
    let mut i: u32 = 0;
    while i < n
        invariant
            b@.0 == d,
            d == old(b)@.0,
            p0 == old(b)@.1,
            i <= n,
            read_results(d, p0, n as nat) == prepend_results(
                entries_view(results@),
                read_results(d, b@.1, (n - i) as nat),
            ),
        decreases n - i,
    {
        if b.remaining() < 16 {
            return None;
        }
        let e = match try_file_entry(b, true) {
            Some(Some(e)) => e,
            _ => return None,
        };
        proof {
            let rest = read_results(d, b@.1, (n - i - 1) as nat);
            match rest {
                Some((x, q)) => {
                    assert(entries_view(results@) + (seq![e@] + x) =~= entries_view(
                        results@.push(e),
                    ) + x);
                },
                _ => {},
            }
        }
        results.push(e);
        i = i + 1;
    }
    assert(entries_view(results@) + Seq::<SpecFileEntry>::empty() =~= entries_view(results@));
    Some(results)
}

/// Reads the locked entries of a search reply (see `read_locked`).
fn try_locked(b: &mut Cursor, n: u32) -> (r: Option<Vec<FileEntry>>)
    ensures
        final(b)@.0 == old(b)@.0,
        match read_locked(old(b)@.0, old(b)@.1, n as nat) {
            None => r is None,
            Some(x) => r matches Some(v) && entries_view(v@) == x,
        },
{
    let ghost d = b@.0;
    let ghost p0 = b@.1;
    let mut results: Vec<FileEntry> = Vec::new();
    let mut i: u32 = 0;
    while i < n
        invariant
            b@.0 == d,
            d == old(b)@.0,
            p0 == old(b)@.1,
            i <= n,
            read_locked(d, p0, n as nat) == prepend_locked(
                entries_view(results@),
                read_locked(d, b@.1, (n - i) as nat),
            ),
        decreases n - i,
    {
        let rem = b.remaining();
        if rem < 16 {
            b.advance(rem);
            assert(entries_view(results@) + Seq::<SpecFileEntry>::empty() =~= entries_view(
                results@,
            ));
            return Some(results);
        }
        match try_file_entry(b, true) {
            Some(Some(e)) => {
                proof {
                    let rest = read_locked(d, b@.1, (n - i - 1) as nat);
                    match rest {
                        Some(x) => {
                            assert(entries_view(results@) + (seq![e@] + x) =~= entries_view(
                                results@.push(e),
                            ) + x);
                        },
                        _ => {},
                    }
                }
                results.push(e);
            },
            Some(None) => {},
            None => return None,
        }
        i = i + 1;
    }
    assert(entries_view(results@) + Seq::<SpecFileEntry>::empty() =~= entries_view(results@));
    Some(results)
}

/// Reads a search reply from its decompressed body; nothing when the body is
/// malformed (see `search_reply`).
pub fn parse_search_reply(data: Vec<u8>) -> (r: Option<PeerMsg>)
    ensures
        peer_opt_view(r) == search_reply(data@),
{
    let mut b = Cursor::new(data);
    let username = match b.try_string() {
        Some(s) => s,
        None => return None,
    };
    let token = match b.try_u32() {
        Some(v) => v,
        None => return None,
    };
    let count = match b.try_u32() {
        Some(v) => v,
        None => return None,
    };
    let results = match try_results(&mut b, count) {
        Some(v) => v,
        None => return None,
    };
    let slots_free = match b.try_u8() {
        Some(v) => v != 0,
        None => return None,
    };
    let average_speed = match b.try_u32() {
        Some(v) => v,
        None => return None,
    };
    let queue_length = if b.remaining() >= 8 {
        match b.try_u64() {
            Some(v) => v,
            None => return None,
        }
    } else {
        match b.try_u32() {
            Some(v) => v as u64,
            None => return None,
        }
    };
    let locked_results = if b.remaining() >= 4 {
        let locked_count = match b.try_u32() {
            Some(v) => v,
            None => return None,
        };
        match try_locked(&mut b, locked_count) {
            Some(v) => Some(v),
            None => return None,
        }
    } else {
        None
    };
    Some(
        PeerMsg::SearchReply {
            username,
            token,
            results,
            slots_free,
            average_speed,
            queue_length,
            locked_results,
        },
    )
}

/// The message in a body of the given code: `None` when the body is malformed,
/// `Some(None)` for a code that the codec does not read.
#[verifier::opaque]
pub open spec fn peer_body_msg(kind: u32, data: Seq<u8>) -> Option<Option<SpecPeerMsg>> {
    if kind == 0 {
        match read_u32(data, 0) {
            Some((token, _)) => Some(Some(SpecPeerMsg::HPierceFirewall { token })),
            None => None,
        }
    } else if kind == 1 {
        match read_u32(data, 0) {
            Some((token, p)) => match read_string(data, p) {
                Some((query, _)) => Some(Some(SpecPeerMsg::SearchRequest { token, query })),
                None => None,
            },
            None => None,
        }
    } else if kind == 9 {
        match search_reply(zlib_decoding(data).0) {
            Some(m) => Some(Some(m)),
            None => None,
        }
    } else {
        Some(None)
    }
}

/// The key stage of `decode`: with obfuscation and no key yet, the key is the
/// first four bytes (`None` while fewer are there).
pub open spec fn peer_stage_key(st: PeerCodecState, buf: Seq<u8>) -> Option<(PeerCodecState, int)> {
    if st.obfuscation && st.key is None {
        if buf.len() < 4 {
            None
        } else {
            Some(
                (
                    PeerCodecState {
                        key: Some(buf.take(4)),
                        len: st.len,
                        kind: st.kind,
                        obfuscation: st.obfuscation,
                    },
                    4,
                ),
            )
        }
    } else {
        Some((st, 0))
    }
}

/// The length stage of `decode`, from position `p`: with no length yet, the
/// next four bytes (unmasked with obfuscation, which rotates the key) give it
/// (`None` while fewer are there).
pub open spec fn peer_stage_len(st: PeerCodecState, buf: Seq<u8>, p: int) -> Option<
    (PeerCodecState, int),
> {
    if st.len is None {
        if buf.len() - p < 4 {
            None
        } else {
            let data = buf.subrange(p, p + 4);
            if st.obfuscation {
                Some(
                    (
                        PeerCodecState {
                            key: Some(rotated_key(st.key.unwrap(), 1)),
                            len: Some(u32_from_le(obfuscated(data, st.key.unwrap(), 4)) as usize),
                            kind: st.kind,
                            obfuscation: st.obfuscation,
                        },
                        p + 4,
                    ),
                )
            } else {
                Some(
                    (
                        PeerCodecState {
                            key: st.key,
                            len: Some(u32_from_le(data) as usize),
                            kind: st.kind,
                            obfuscation: st.obfuscation,
                        },
                        p + 4,
                    ),
                )
            }
        }
    } else {
        Some((st, p))
    }
}

/// The code stage of `decode`, from position `p`: with no code yet and four
/// bytes there, a first byte of at most 3 is a one-byte handshake code, and
/// otherwise the code is four bytes (`None` while fewer than four are there).
/// The flag tells whether a handshake code was read in this stage.
pub open spec fn peer_stage_kind(st: PeerCodecState, buf: Seq<u8>, p: int) -> Option<
    (PeerCodecState, int, bool),
> {
    if st.kind is None {
        if buf.len() - p < 4 {
            None
        } else if buf[p] <= 3 {
            Some(
                (
                    PeerCodecState {
                        key: st.key,
                        len: st.len,
                        kind: Some(buf[p] as u32),
                        obfuscation: st.obfuscation,
                    },
                    p + 1,
                    true,
                ),
            )
        } else {
            Some(
                (
                    PeerCodecState {
                        key: st.key,
                        len: st.len,
                        kind: Some(u32_from_le(buf.subrange(p, p + 4))),
                        obfuscation: st.obfuscation,
                    },
                    p + 4,
                    false,
                ),
            )
        }
    } else {
        Some((st, p, false))
    }
}

/// The body stage of `decode`, from position `p`: the body is the length minus
/// one after a handshake code read in this call and minus four otherwise (`None`
/// when the length is shorter); once it is all there, it is unmasked (with
/// obfuscation, from the key in the state, which is then dropped) and read.
pub open spec fn peer_stage_body(st: PeerCodecState, buf: Seq<u8>, p: int, handshake: bool) -> Option<
    (PeerCodecState, nat, Option<SpecPeerMsg>),
> {
    let len = st.len.unwrap();
    let read_size: int = if handshake {
        1
    } else {
        4
    };
    if len < read_size {
        None
    } else {
        let n = len - read_size;
        if buf.len() - p < n {
            Some((st, p as nat, None))
        } else {
            let data = buf.subrange(p, p + n);
            let body = if st.obfuscation {
                obfuscated(data, st.key.unwrap(), n as nat)
            } else {
                data
            };
            match peer_body_msg(st.kind.unwrap(), body) {
                None => None,
                Some(m) => Some(
                    (
                        PeerCodecState {
                            key: if st.obfuscation {
                                None
                            } else {
                                st.key
                            },
                            len: None,
                            kind: None,
                            obfuscation: st.obfuscation,
                        },
                        (p + n) as nat,
                        m,
                    ),
                ),
            }
        }
    }
}

/// One call of `decode` on the bytes `buf`: the state afterwards, the number of
/// bytes taken off the front of `buf`, and the message returned; `None` where
/// the frame cannot be read (a length shorter than its code, or a malformed body).
/// The key, the length and the code are each read once enough bytes are there,
/// and kept in the state until the whole frame is.
pub open spec fn peer_decode_step(st: PeerCodecState, buf: Seq<u8>) -> Option<
    (PeerCodecState, nat, Option<SpecPeerMsg>),
> {
    match peer_stage_key(st, buf) {
        None => Some((st, 0, None)),
        Some((s1, p1)) => match peer_stage_len(s1, buf, p1) {
            None => Some((s1, p1 as nat, None)),
            Some((s2, p2)) => match peer_stage_kind(s2, buf, p2) {
                None => Some((s2, p2 as nat, None)),
                Some((s3, p3, handshake)) => peer_stage_body(s3, buf, p3, handshake),
            },
        },
    }
}

/// Reads the message in a body of the given code (see `peer_body_msg`).
fn parse_peer_body(kind: u32, data: Vec<u8>) -> (r: Option<Option<PeerMsg>>)
    ensures
        match peer_body_msg(kind, data@) {
            None => r is None,
            Some(m) => r matches Some(x) && peer_opt_view(x) == m,
        },
{
    reveal(peer_body_msg);
    let ghost d = data@;
    let mut b = Cursor::new(data);
    if kind == 0 {
        match b.try_u32() {
            Some(token) => Some(Some(PeerMsg::HPierceFirewall { token })),
            None => None,
        }
    } else if kind == 1 {
        let token = match b.try_u32() {
            Some(v) => v,
            None => return None,
        };
        match b.try_string() {
            Some(query) => Some(Some(PeerMsg::SearchRequest { token, query })),
            None => None,
        }
    } else if kind == 9 {
        let inflated = decompress(&mut b);
        assert(d.skip(0) =~= d);
        match parse_search_reply(buf_to_vec(&inflated)) {
            Some(m) => Some(Some(m)),
            None => None,
        }
    } else {
        Some(None)
    }
}

impl PeerMsgCodec {
    /// A codec with the given fields.
    fn with(cur_key: Option<[u8; 4]>, cur_len: Option<usize>, cur_kind: Option<u32>, use_obfuscation: bool) -> (r: PeerMsgCodec)
        ensures
            r.cur_key == cur_key && r.cur_len == cur_len && r.cur_kind == cur_kind
                && r.use_obfuscation == use_obfuscation,
    {
        PeerMsgCodec { cur_key, cur_len, cur_kind, use_obfuscation }
    }

    /// The key stage (see `peer_stage_key`).
    fn stage_key(&self, buf: &[u8]) -> (r: Option<(PeerMsgCodec, usize)>)
        ensures
            match peer_stage_key(self@, buf@) {
                None => r is None,
                Some((st, p)) => r matches Some((c, q)) && c@ == st && q == p,
            },
    {
        if self.use_obfuscation && self.cur_key.is_none() {
            if buf.len() < 4 {
                return None;
            }
            let k = [buf[0], buf[1], buf[2], buf[3]];
            assert(k@ =~= buf@.take(4));
            Some((PeerMsgCodec::with(Some(k), self.cur_len, self.cur_kind, self.use_obfuscation), 4))
        } else {
            Some((PeerMsgCodec::with(self.cur_key, self.cur_len, self.cur_kind, self.use_obfuscation), 0))
        }
    }

    /// The length stage (see `peer_stage_len`).
    fn stage_len(&self, buf: &[u8], p: usize) -> (r: Option<(PeerMsgCodec, usize)>)
        requires
            p <= buf@.len(),
            self@.obfuscation ==> self@.key is Some,
        ensures
            match peer_stage_len(self@, buf@, p as int) {
                None => r is None,
                Some((st, q)) => r matches Some((c, k)) && c@ == st && k == q,
            },
    {
        match self.cur_len {
            Some(_) => Some((PeerMsgCodec::with(self.cur_key, self.cur_len, self.cur_kind, self.use_obfuscation), p)),
            None => {
                if buf.len() - p < 4 {
                    return None;
                }
                let mut data = slice_to_vec([buf[p], buf[p + 1], buf[p + 2], buf[p + 3]].as_slice());
                assert(data@ =~= buf@.subrange(p as int, p + 4));
                let mut key = self.cur_key;
                if self.use_obfuscation {
                    let mut k = match self.cur_key {
                        Some(k) => k,
                        None => {
                            assert(false);
                            [0u8, 0u8, 0u8, 0u8]
                        },
                    };
                    obfuscate_vec(&mut data, &mut k, 4);
                    key = Some(k);
                }
                let len = crate::codec::wire::read_u32_at(data.as_slice(), 0) as usize;
                assert(data@.subrange(0, 4) =~= data@);
                Some((PeerMsgCodec::with(key, Some(len), self.cur_kind, self.use_obfuscation), p + 4))
            },
        }
    }

    /// The code stage (see `peer_stage_kind`).
    fn stage_kind(&self, buf: &[u8], p: usize) -> (r: Option<(PeerMsgCodec, usize, bool)>)
        requires
            p <= buf@.len(),
        ensures
            match peer_stage_kind(self@, buf@, p as int) {
                None => r is None,
                Some((st, q, h)) => r matches Some((c, k, g)) && c@ == st && k == q && g == h,
            },
    {
        match self.cur_kind {
            Some(_) => Some((PeerMsgCodec::with(self.cur_key, self.cur_len, self.cur_kind, self.use_obfuscation), p, false)),
            None => {
                if buf.len() - p < 4 {
                    return None;
                }
                let first = buf[p];
                let handshake = first == 0 || first == 1 || first == 2 || first == 3;
                if handshake {
                    Some((PeerMsgCodec::with(self.cur_key, self.cur_len, Some(first as u32), self.use_obfuscation), p + 1, true))
                } else {
                    let kind = crate::codec::wire::read_u32_at(buf, p);
                    Some((PeerMsgCodec::with(self.cur_key, self.cur_len, Some(kind), self.use_obfuscation), p + 4, false))
                }
            },
        }
    }

    /// The body stage (see `peer_stage_body`).
    fn stage_body(&self, buf: &[u8], p: usize, handshake: bool) -> (r: Option<(PeerMsgCodec, usize, Option<PeerMsg>)>)
        requires
            p <= buf@.len(),
            self@.len is Some,
            self@.kind is Some,
            self@.obfuscation ==> self@.key is Some,
        ensures
            match peer_stage_body(self@, buf@, p as int, handshake) {
                None => r is None,
                Some((st, n, m)) => r matches Some((c, k, x)) && c@ == st && k == n
                    && peer_opt_view(x) == m,
            },
    {
        let total = buf.len();
        let len = match self.cur_len {
            Some(l) => l,
            None => 0,
        };
        let kind = match self.cur_kind {
            Some(k) => k,
            None => 0,
        };
        let read_size: usize = if handshake {
            1
        } else {
            4
        };
        if len < read_size {
            return None;
        }
        let n = len - read_size;
        if total - p < n {
            return Some((PeerMsgCodec::with(self.cur_key, self.cur_len, self.cur_kind, self.use_obfuscation), p, None));
        }
        let mut data = copy_range(buf, p, n);
        let mut next_key = self.cur_key;
        if self.use_obfuscation {
            let mut k = match self.cur_key {
                Some(k) => k,
                None => {
                    assert(false);
                    [0u8, 0u8, 0u8, 0u8]
                },
            };
            obfuscate_vec(&mut data, &mut k, n);
            next_key = None;
        }
        match parse_peer_body(kind, data) {
            None => None,
            Some(m) => Some((PeerMsgCodec::with(next_key, None, None, self.use_obfuscation), p + n, m)),
        }
    }

    /// Works out one call of `decode` on `buf` without changing anything (see
    /// `peer_decode_step`): the next state, the bytes to take, the message.
    fn step(&self, buf: &[u8]) -> (r: Option<(PeerMsgCodec, usize, Option<PeerMsg>)>)
        ensures
            match peer_decode_step(self@, buf@) {
                None => r is None,
                Some((st, n, m)) => r matches Some((c, k, x)) && c@ == st && k == n
                    && peer_opt_view(x) == m,
            },
    {
        let (s1, p1) = match self.stage_key(buf) {
            None => return Some((PeerMsgCodec::with(self.cur_key, self.cur_len, self.cur_kind, self.use_obfuscation), 0, None)),
            Some(x) => x,
        };
        let (s2, p2) = match s1.stage_len(buf, p1) {
            None => return Some((s1, p1, None)),
            Some(x) => x,
        };
        let (s3, p3, handshake) = match s2.stage_kind(buf, p2) {
            None => return Some((s2, p2, None)),
            Some(x) => x,
        };
        s3.stage_body(buf, p3, handshake)
    }

    /// Takes the next frame off the front of `buf`, or as much of it as is there:
    /// returns the message once its frame is whole (nothing for a code that the
    /// codec does not read), and nothing while more bytes are needed.
    pub fn decode(&mut self, buf: &mut bytes::BytesMut) -> (r: Option<PeerMsg>)
        requires
            peer_decode_step(old(self)@, buf_contents(*old(buf))) is Some,
        ensures
            ({
                let (st, n, m) = peer_decode_step(old(self)@, buf_contents(*old(buf))).unwrap();
                &&& final(self)@ == st
                &&& buf_contents(*final(buf)) == buf_contents(*old(buf)).skip(n as int)
                &&& peer_opt_view(r) == m
            }),
    {
        let data = buf_to_vec(buf);
        match self.step(data.as_slice()) {
            Some((next, n, m)) => {
                *self = next;
                let _ = buf_split_to(buf, n);
                m
            },
            None => {
                assert(false);
                None
            },
        }
    }

    /// `decode` where the frame can be read; where it cannot (see
    /// `peer_decode_step`), nothing, with the codec and `buf` left as they were.
    pub fn try_decode(&mut self, buf: &mut bytes::BytesMut) -> (r: Option<Option<PeerMsg>>)
        ensures
            match peer_decode_step(old(self)@, buf_contents(*old(buf))) {
                None => r is None && final(self)@ == old(self)@ && buf_contents(*final(buf))
                    == buf_contents(*old(buf)),
                Some((st, n, m)) => r matches Some(x) && final(self)@ == st && buf_contents(
                    *final(buf),
                ) == buf_contents(*old(buf)).skip(n as int) && peer_opt_view(x) == m,
            },
    {
        let data = buf_to_vec(buf);
        match self.step(data.as_slice()) {
            None => None,
            Some(_) => Some(self.decode(buf)),
        }
    }
}

/// A pierce-firewall message that a codec writes (from any key) is read back by a
/// fresh codec with the same obfuscation setting: the same message, the whole
/// frame taken, whatever follows it left, and the codec back between frames.
pub proof fn lemma_peer_pierce_firewall_roundtrip(
    token: u32,
    obfuscation: bool,
    key: Seq<u8>,
    rest: Seq<u8>,
)
    requires
        key.len() == 4,
    ensures
        ({
            let msg = SpecPeerMsg::HPierceFirewall { token };
            let frame = peer_frame(msg, obfuscation, key);
            let fresh = PeerCodecState { key: None, len: None, kind: None, obfuscation };
            peer_decode_step(fresh, frame + rest) == Some((fresh, frame.len(), Some(msg)))
        }),
{
    let msg = SpecPeerMsg::HPierceFirewall { token };
    let frame = peer_frame(msg, obfuscation, key);
    let buf = frame + rest;
    let fresh = PeerCodecState { key: None, len: None, kind: None, obfuscation };
    let len4 = le_u32(len32(5));
    assert(len32(5) == 5u32);
    lemma_le_u32_roundtrip(5u32);
    lemma_le_u32_roundtrip(token);
    assert(peer_body(msg) == le_u32(token));
    if obfuscation {
        let k1 = rotated_key(key, 1);
        assert(frame =~= key + obfuscated(len4, key, 4) + seq![0u8] + obfuscated(le_u32(token), k1, 4));
        assert(frame.len() == 13);
        assert(buf.take(4) =~= key);
        let s1 = PeerCodecState { key: Some(key), len: None, kind: None, obfuscation };
        assert(peer_stage_key(fresh, buf) == Some((s1, 4int)));
        assert(buf.subrange(4, 8) =~= obfuscated(len4, key, 4));
        lemma_obfuscation_involution(len4, key, 4);
        let s2 = PeerCodecState { key: Some(k1), len: Some(5usize), kind: None, obfuscation };
        assert(peer_stage_len(s1, buf, 4) == Some((s2, 8int)));
        assert(buf[8] == 0u8);
        let s3 = PeerCodecState { key: Some(k1), len: Some(5usize), kind: Some(0u32), obfuscation };
        assert(peer_stage_kind(s2, buf, 8) == Some((s3, 9int, true)));
        assert(buf.subrange(9, 13) =~= obfuscated(le_u32(token), k1, 4));
        lemma_obfuscation_involution(le_u32(token), k1, 4);
        assert(le_u32(token).subrange(0, 4) =~= le_u32(token));
        assert(peer_body_msg(0, le_u32(token)) == Some(Some(msg))) by {
            reveal(peer_body_msg);
        }
    } else {
        assert(frame =~= len4 + seq![0u8] + le_u32(token));
        assert(frame.len() == 9);
        assert(peer_stage_key(fresh, buf) == Some((fresh, 0int)));
        assert(buf.subrange(0, 4) =~= len4);
        let s2 = PeerCodecState { key: None, len: Some(5usize), kind: None, obfuscation };
        assert(peer_stage_len(fresh, buf, 0) == Some((s2, 4int)));
        assert(buf[4] == 0u8);
        let s3 = PeerCodecState { key: None, len: Some(5usize), kind: Some(0u32), obfuscation };
        assert(peer_stage_kind(s2, buf, 4) == Some((s3, 5int, true)));
        assert(buf.subrange(5, 9) =~= le_u32(token));
        assert(le_u32(token).subrange(0, 4) =~= le_u32(token));
        assert(peer_body_msg(0, le_u32(token)) == Some(Some(msg))) by {
            reveal(peer_body_msg);
        }
    }
}


/// Whether the bytes `buf` end before the frame that `decode` reads from state
/// `st` does: the key, the length or the code is not all there yet, or the body
/// is not.
pub open spec fn peer_pending(st: PeerCodecState, buf: Seq<u8>) -> bool {
    match peer_stage_key(st, buf) {
        None => true,
        Some((s1, p1)) => match peer_stage_len(s1, buf, p1) {
            None => true,
            Some((s2, p2)) => match peer_stage_kind(s2, buf, p2) {
                None => true,
                Some((s3, p3, handshake)) => {
                    let read_size: int = if handshake {
                        1
                    } else {
                        4
                    };
                    s3.len.unwrap() >= read_size && buf.len() - p3 < s3.len.unwrap() - read_size
                },
            },
        },
    }
}

/// Whether `decode` on `buf` reads a one-byte handshake code and then stops
/// before the end of the body.
pub open spec fn peer_pending_after_handshake(st: PeerCodecState, buf: Seq<u8>) -> bool {
    &&& peer_pending(st, buf)
    &&& peer_stage_key(st, buf) matches Some((s1, p1))
    &&& peer_stage_len(s1, buf, p1) matches Some((s2, p2))
    &&& peer_stage_kind(s2, buf, p2) matches Some((s3, p3, handshake))
    &&& handshake
}

/// The length stage reads the same from position `t + p` of `whole` as from
/// position `p` of `whole.skip(t)`.
proof fn lemma_stage_len_shift(s: PeerCodecState, whole: Seq<u8>, t: int, p: int)
    requires
        0 <= t <= whole.len(),
        0 <= p,
    ensures
        match (peer_stage_len(s, whole.skip(t), p), peer_stage_len(s, whole, t + p)) {
            (None, None) => true,
            (Some((x, q)), Some((y, r))) => x == y && q + t == r,
            _ => false,
        },
{
    if whole.len() - (t + p) >= 4 {
        assert(whole.skip(t).subrange(p, p + 4) =~= whole.subrange(t + p, t + p + 4));
    }
}

/// The code stage reads the same from position `t + p` of `whole` as from
/// position `p` of `whole.skip(t)`.
proof fn lemma_stage_kind_shift(s: PeerCodecState, whole: Seq<u8>, t: int, p: int)
    requires
        0 <= t <= whole.len(),
        0 <= p,
    ensures
        match (peer_stage_kind(s, whole.skip(t), p), peer_stage_kind(s, whole, t + p)) {
            (None, None) => true,
            (Some((x, q, h)), Some((y, r, k))) => x == y && q + t == r && h == k,
            _ => false,
        },
{
    if whole.len() - (t + p) >= 4 {
        assert(whole.skip(t)[p] == whole[t + p]);
        assert(whole.skip(t).subrange(p, p + 4) =~= whole.subrange(t + p, t + p + 4));
    }
}

/// The body stage reads the same from position `t + p` of `whole` as from
/// position `p` of `whole.skip(t)`.
proof fn lemma_stage_body_shift(s: PeerCodecState, whole: Seq<u8>, t: int, p: int, handshake: bool)
    requires
        0 <= t <= whole.len(),
        0 <= p,
    ensures
        match (peer_stage_body(s, whole.skip(t), p, handshake), peer_stage_body(s, whole, t + p, handshake)) {
            (None, None) => true,
            (Some((x, q, m)), Some((y, r, n))) => x == y && q + t == r && m == n,
            _ => false,
        },
{
    let len = s.len.unwrap();
    let read_size: int = if handshake {
        1
    } else {
        4
    };
    if len >= read_size {
        let n = len - read_size;
        if whole.len() - (t + p) >= n {
            assert(whole.skip(t).subrange(p, p + n) =~= whole.subrange(t + p, t + p + n));
        }
    }
}

/// The stages from the code on read the same from position `t` of `whole` as
/// from the start of `whole.skip(t)`, for a state that holds its length.
proof fn lemma_stages_from_kind_shift(s: PeerCodecState, whole: Seq<u8>, t: int)
    requires
        0 <= t <= whole.len(),
        s.len is Some,
        s.obfuscation ==> s.key is Some,
    ensures
        match (peer_decode_step(s, whole.skip(t)), match peer_stage_kind(s, whole, t) {
            None => Some((s, t as nat, None)),
            Some((s3, p3, handshake)) => peer_stage_body(s3, whole, p3, handshake),
        }) {
            (None, None) => true,
            (Some((x, q, m)), Some((y, r, n))) => x == y && q + t == r && m == n,
            _ => false,
        },
{
    lemma_stage_kind_shift(s, whole, t, 0);
    match peer_stage_kind(s, whole.skip(t), 0) {
        Some((s3, p3, h)) => {
            lemma_stage_body_shift(s3, whole, t, p3, h);
        },
        None => {},
    }
}

/// The stages from the length on read the same from position `t` of `whole` as
/// from the start of `whole.skip(t)`, for a state that holds its key when it
/// needs one.
proof fn lemma_stages_from_len_shift(s: PeerCodecState, whole: Seq<u8>, t: int)
    requires
        0 <= t <= whole.len(),
        s.obfuscation ==> s.key is Some,
    ensures
        match (peer_decode_step(s, whole.skip(t)), match peer_stage_len(s, whole, t) {
            None => Some((s, t as nat, None)),
            Some((s2, p2)) => match peer_stage_kind(s2, whole, p2) {
                None => Some((s2, p2 as nat, None)),
                Some((s3, p3, handshake)) => peer_stage_body(s3, whole, p3, handshake),
            },
        }) {
            (None, None) => true,
            (Some((x, q, m)), Some((y, r, n))) => x == y && q + t == r && m == n,
            _ => false,
        },
{
    lemma_stage_len_shift(s, whole, t, 0);
    match peer_stage_len(s, whole.skip(t), 0) {
        Some((s2, p2)) => {
            lemma_stage_kind_shift(s2, whole, t, p2);
            match peer_stage_kind(s2, whole.skip(t), p2) {
                Some((s3, p3, h)) => {
                    lemma_stage_body_shift(s3, whole, t, p3, h);
                },
                None => {},
            }
        },
        None => {},
    }
}

/// What the two-piece law states of `st`, `a` and `b`.
pub open spec fn peer_pieces_agree(st: PeerCodecState, a: Seq<u8>, b: Seq<u8>) -> bool {
    &&& peer_decode_step(st, a) is Some
    &&& ({
        let (st1, n1, m1) = peer_decode_step(st, a).unwrap();
        &&& m1 is None
        &&& match (peer_decode_step(st1, a.skip(n1 as int) + b), peer_decode_step(st, a + b)) {
            (Some((s2, n2, m2)), Some((s3, n3, m3))) => s2 == s3 && n1 + n2 == n3 && m2 == m3,
            (None, None) => true,
            _ => false,
        }
    })
}

/// The two-piece law where `a` stops inside the length.
proof fn lemma_pieces_in_len(st: PeerCodecState, a: Seq<u8>, b: Seq<u8>, s1: PeerCodecState, p1: int)
    requires
        peer_stage_key(st, a) == Some((s1, p1)),
        peer_stage_key(st, a + b) == Some((s1, p1)),
        peer_stage_len(s1, a, p1) is None,
    ensures
        peer_pieces_agree(st, a, b),
{
    let whole = a + b;
    assert(a.skip(p1) + b =~= whole.skip(p1));
    lemma_stages_from_len_shift(s1, whole, p1);
}

/// The two-piece law where `a` stops inside the code.
proof fn lemma_pieces_in_kind(
    st: PeerCodecState,
    a: Seq<u8>,
    b: Seq<u8>,
    s1: PeerCodecState,
    p1: int,
    s2: PeerCodecState,
    p2: int,
)
    requires
        peer_stage_key(st, a) == Some((s1, p1)),
        peer_stage_key(st, a + b) == Some((s1, p1)),
        peer_stage_len(s1, a, p1) == Some((s2, p2)),
        peer_stage_len(s1, a + b, p1) == Some((s2, p2)),
        peer_stage_kind(s2, a, p2) is None,
    ensures
        peer_pieces_agree(st, a, b),
{
    let whole = a + b;
    assert(a.skip(p2) + b =~= whole.skip(p2));
    lemma_stages_from_kind_shift(s2, whole, p2);
}

/// The two-piece law where `a` stops inside the body of a frame with a
/// four-byte code.
proof fn lemma_pieces_in_body(
    st: PeerCodecState,
    a: Seq<u8>,
    b: Seq<u8>,
    s1: PeerCodecState,
    p1: int,
    s2: PeerCodecState,
    p2: int,
    s3: PeerCodecState,
    p3: int,
)
    requires
        peer_stage_key(st, a) == Some((s1, p1)),
        peer_stage_key(st, a + b) == Some((s1, p1)),
        peer_stage_len(s1, a, p1) == Some((s2, p2)),
        peer_stage_len(s1, a + b, p1) == Some((s2, p2)),
        peer_stage_kind(s2, a, p2) == Some((s3, p3, false)),
        peer_stage_kind(s2, a + b, p2) == Some((s3, p3, false)),
        peer_pending(st, a),
    ensures
        peer_pieces_agree(st, a, b),
{
    let whole = a + b;
    assert(a.skip(p3) + b =~= whole.skip(p3));
    let second = whole.skip(p3);
    assert(peer_stage_key(s3, second) == Some((s3, 0int)));
    assert(peer_stage_len(s3, second, 0) == Some((s3, 0int)));
    assert(peer_stage_kind(s3, second, 0) == Some((s3, 0int, false)));
    lemma_stage_body_shift(s3, whole, p3, 0, false);
}

/// Bytes that arrive in two pieces decode as if they had come at once: when
/// the first piece `a` ends before the frame does (and not inside the body of a
/// frame with a one-byte handshake code), decoding it and then the rest of it
/// followed by `b` gives the same message and state as decoding `a + b`, and
/// takes the same number of bytes in all.
pub proof fn lemma_peer_decode_in_pieces(st: PeerCodecState, a: Seq<u8>, b: Seq<u8>)
    requires
        peer_pending(st, a),
        !peer_pending_after_handshake(st, a),
    ensures
        peer_pieces_agree(st, a, b),
{
    let whole = a + b;
    match peer_stage_key(st, a) {
        None => {
            assert(a.skip(0) + b =~= whole);
        },
        Some((s1, p1)) => {
            if st.obfuscation && st.key is None {
                assert(whole.take(4) =~= a.take(4));
            }
            assert(peer_stage_key(st, whole) == Some((s1, p1)));
            match peer_stage_len(s1, a, p1) {
                None => lemma_pieces_in_len(st, a, b, s1, p1),
                Some((s2, p2)) => {
                    if s1.len is None {
                        assert(whole.subrange(p1, p1 + 4) =~= a.subrange(p1, p1 + 4));
                    }
                    assert(peer_stage_len(s1, whole, p1) == Some((s2, p2)));
                    match peer_stage_kind(s2, a, p2) {
                        None => lemma_pieces_in_kind(st, a, b, s1, p1, s2, p2),
                        Some((s3, p3, h)) => {
                            if s2.kind is None {
                                assert(whole[p2] == a[p2]);
                                assert(whole.subrange(p2, p2 + 4) =~= a.subrange(p2, p2 + 4));
                            }
                            assert(peer_stage_kind(s2, whole, p2) == Some((s3, p3, h)));
                            lemma_pieces_in_body(st, a, b, s1, p1, s2, p2, s3, p3);
                        },
                    }
                },
            }
        },
    }
}

} // verus!
