//! The interface between the daemon and its local clients.
use vstd::prelude::*;
use crate::codec::util::pack_string;
use crate::codec::wire::{
    Cursor, FrameHeader, lemma_frame_header_in_pieces, copy_range, frame_header, le_u32, len32, packed_string, read_frame_header,
    read_string, read_u32, u32_le_bytes, len_field, lemma_frame_header_whole, lemma_read_string_at,
    lemma_read_u32_at, lemma_split_at, str_bytes,
};
use crate::foreign::{buf_contents, buf_extend, buf_new, buf_split_to, buf_to_vec};

verus! {

/// How a client proves its password.
#[derive(Debug, Clone, Copy, PartialEq, Eq, Structural)]
pub enum CLoginAlgorithm {
    Sha1,
    Sha256,
    Md5,
}

/// The name by which the protocol spells an algorithm.
pub open spec fn algorithm_name(a: CLoginAlgorithm) -> Seq<char> {
    match a {
        CLoginAlgorithm::Sha1 => "SHA1"@,
        CLoginAlgorithm::Sha256 => "SHA256"@,
        CLoginAlgorithm::Md5 => "MD5"@,
    }
}

/// The algorithm that a name spells, if any.
pub open spec fn algorithm_from_name(s: Seq<char>) -> Option<CLoginAlgorithm> {
    if s == "SHA1"@ {
        Some(CLoginAlgorithm::Sha1)
    } else if s == "SHA256"@ {
        Some(CLoginAlgorithm::Sha256)
    } else if s == "MD5"@ {
        Some(CLoginAlgorithm::Md5)
    } else {
        None
    }
}

impl CLoginAlgorithm {
    /// The algorithm's name.
    pub fn into_string(self) -> (r: String)
        ensures
            r@ == algorithm_name(self),
    {
        match self {
            CLoginAlgorithm::Sha1 => "SHA1".to_owned(),
            CLoginAlgorithm::Sha256 => "SHA256".to_owned(),
            CLoginAlgorithm::Md5 => "MD5".to_owned(),
        }
    }

    /// The algorithm that `s` names, if any.
    pub fn from_name(s: &String) -> (r: Option<CLoginAlgorithm>)
        ensures
            r == algorithm_from_name(s@),
    {
        if *s == "SHA1".to_owned() {
            Some(CLoginAlgorithm::Sha1)
        } else if *s == "SHA256".to_owned() {
            Some(CLoginAlgorithm::Sha256)
        } else if *s == "MD5".to_owned() {
            Some(CLoginAlgorithm::Md5)
        } else {
            None
        }
    }

    /// The algorithm named `it`, which must be one of the three names.
    pub fn from(it: String) -> (r: CLoginAlgorithm)
        requires
            algorithm_from_name(it@) is Some,
        ensures
            Some(r) == algorithm_from_name(it@),
    {
        match CLoginAlgorithm::from_name(&it) {
            Some(a) => a,
            None => {
                assert(false);
                CLoginAlgorithm::Sha1
            },
        }
    }
}

/// Reading back an algorithm's name gives the algorithm.
pub proof fn lemma_algorithm_name_roundtrip(a: CLoginAlgorithm)
    ensures
        algorithm_from_name(algorithm_name(a)) == Some(a),
{
    reveal_strlit("SHA1");
    reveal_strlit("SHA256");
    reveal_strlit("MD5");
    assert("SHA1"@ != "SHA256"@ && "SHA1"@ != "MD5"@ && "SHA256"@ != "MD5"@) by {
        assert("SHA1"@.len() == 4 && "SHA256"@.len() == 6 && "MD5"@.len() == 3);
    }
}

/// Where a client searches.
#[derive(Debug, Clone, Copy, PartialEq, Eq, Structural)]
pub enum CSearchKind {
    Global,
    Buddies,
    Room,
}

/// The search kind that a number stands for, if any.
pub open spec fn search_kind_from_u32(n: u32) -> Option<CSearchKind> {
    if n == 0 {
        Some(CSearchKind::Global)
    } else if n == 1 {
        Some(CSearchKind::Buddies)
    } else if n == 2 {
        Some(CSearchKind::Room)
    } else {
        None
    }
}

impl CSearchKind {
    /// The search kind that `n` stands for: 0, 1 and 2 for global, buddies and room.
    pub fn from_u32(n: u32) -> (r: Option<CSearchKind>)
        ensures
            r == search_kind_from_u32(n),
    {
        if n == 0 {
            Some(CSearchKind::Global)
        } else if n == 1 {
            Some(CSearchKind::Buddies)
        } else if n == 2 {
            Some(CSearchKind::Room)
        } else {
            None
        }
    }
}

/// A message between the daemon and a client.
#[derive(Debug)]
pub enum DaemonMsg {
    CPing { id: u32 },
    SPing { id: u32 },
    SChallenge { version: u32, challenge: String },
    CLogin { algorithm: CLoginAlgorithm, challenge_response: String, mask: u32 },
    SLogin { success: bool, message: String, challenge: String },
    CSearch { kind: CSearchKind, query: String },
    SSearch { query: String, token: u32 },
}

/// A daemon message with its strings as sequences of characters.
pub enum SpecDaemonMsg {
    CPing { id: u32 },
    SPing { id: u32 },
    SChallenge { version: u32, challenge: Seq<char> },
    CLogin { algorithm: CLoginAlgorithm, challenge_response: Seq<char>, mask: u32 },
    SLogin { success: bool, message: Seq<char>, challenge: Seq<char> },
    CSearch { kind: CSearchKind, query: Seq<char> },
    SSearch { query: Seq<char>, token: u32 },
}

impl View for DaemonMsg {
    type V = SpecDaemonMsg;

    open spec fn view(&self) -> SpecDaemonMsg {
        match self {
            DaemonMsg::CPing { id } => SpecDaemonMsg::CPing { id: *id },
            DaemonMsg::SPing { id } => SpecDaemonMsg::SPing { id: *id },
            DaemonMsg::SChallenge { version, challenge } => SpecDaemonMsg::SChallenge {
                version: *version,
                challenge: challenge@,
            },
            DaemonMsg::CLogin { algorithm, challenge_response, mask } => SpecDaemonMsg::CLogin {
                algorithm: *algorithm,
                challenge_response: challenge_response@,
                mask: *mask,
            },
            DaemonMsg::SLogin { success, message, challenge } => SpecDaemonMsg::SLogin {
                success: *success,
                message: message@,
                challenge: challenge@,
            },
            DaemonMsg::CSearch { kind, query } => SpecDaemonMsg::CSearch {
                kind: *kind,
                query: query@,
            },
            DaemonMsg::SSearch { query, token } => SpecDaemonMsg::SSearch {
                query: query@,
                token: *token,
            },
        }
    }
}

/// The view of a decoding result.
pub open spec fn daemon_opt_view(m: Option<DaemonMsg>) -> Option<SpecDaemonMsg> {
    match m {
        Some(m) => Some(m@),
        None => None,
    }
}

/// The messages that the daemon writes.
pub open spec fn daemon_encodable(m: SpecDaemonMsg) -> bool {
    m is SPing || m is SChallenge || m is SLogin || m is SSearch
}

/// The code of a message that the daemon writes.
pub open spec fn daemon_code(m: SpecDaemonMsg) -> u32 {
    match m {
        SpecDaemonMsg::SPing { .. } => 0x0000,
        SpecDaemonMsg::SChallenge { .. } => 0x0001,
        SpecDaemonMsg::SLogin { .. } => 0x0002,
        _ => 0x0401,
    }
}

/// The body of a message that the daemon writes.
pub open spec fn daemon_body(m: SpecDaemonMsg) -> Seq<u8> {
    match m {
        SpecDaemonMsg::SPing { id } => le_u32(id),
        SpecDaemonMsg::SChallenge { version, challenge } => le_u32(version) + packed_string(
            challenge,
        ),
        SpecDaemonMsg::SLogin { success, message, challenge } => le_u32(
            if success {
                1
            } else {
                0
            },
        ) + packed_string(message) + packed_string(challenge),
        SpecDaemonMsg::SSearch { query, token } => packed_string(query) + le_u32(token),
        _ => Seq::empty(),
    }
}

/// The frame of a message: the length of code and body (the body length cut to
/// 32 bits, plus 4, wrapping), the code, the body.
pub open spec fn daemon_frame(m: SpecDaemonMsg) -> Seq<u8> {
    let body = daemon_body(m);
    le_u32(((len32(body.len()) + 4) % 0x1_0000_0000) as u32) + le_u32(daemon_code(m)) + body
}

/// The message in a client's body of the given code: `None` when the body is
/// malformed, `Some(None)` for a code that the daemon does not read.
pub open spec fn daemon_body_msg(kind: u32, data: Seq<u8>) -> Option<Option<SpecDaemonMsg>> {
    if kind == 0x0000 {
        match read_u32(data, 0) {
            Some((id, _)) => Some(Some(SpecDaemonMsg::CPing { id })),
            None => None,
        }
    } else if kind == 0x0002 {
        match read_string(data, 0) {
            None => None,
            Some((name, p1)) => match algorithm_from_name(name) {
                None => None,
                Some(algorithm) => match read_string(data, p1) {
                    None => None,
                    Some((challenge_response, p2)) => match read_u32(data, p2) {
                        None => None,
                        Some((mask, _)) => Some(
                            Some(SpecDaemonMsg::CLogin { algorithm, challenge_response, mask }),
                        ),
                    },
                },
            },
        }
    } else if kind == 0x0401 {
        match read_u32(data, 0) {
            None => None,
            Some((n, p1)) => match search_kind_from_u32(n) {
                None => None,
                Some(k) => match read_string(data, p1) {
                    None => None,
                    Some((query, _)) => Some(Some(SpecDaemonMsg::CSearch { kind: k, query })),
                },
            },
        }
    } else {
        Some(None)
    }
}

/// The state that a daemon codec keeps between calls of `decode`: the length and
/// the code of the frame being read, once read.
pub struct DaemonCodecState {
    pub len: Option<usize>,
    pub kind: Option<u32>,
}

/// One call of `decode` on `buf`: the state afterwards, the number of bytes taken
/// off the front of `buf`, and the message returned; `None` where the frame cannot
/// be read (a length shorter than the code, or a malformed body).
pub open spec fn daemon_decode_step(st: DaemonCodecState, buf: Seq<u8>) -> Option<
    (DaemonCodecState, nat, Option<SpecDaemonMsg>),
> {
    match frame_header(st.len, st.kind, buf) {
        FrameHeader::Pending { len, kind, taken } => Some(
            (DaemonCodecState { len, kind }, taken as nat, None),
        ),
        FrameHeader::Malformed => None,
        FrameHeader::Body { kind, start, size } => match daemon_body_msg(
            kind,
            buf.subrange(start as int, start + size),
        ) {
            None => None,
            Some(m) => Some((DaemonCodecState { len: None, kind: None }, (start + size) as nat, m)),
        },
    }
}

/// Reads the message in a body of the given code (see `daemon_body_msg`).
fn parse_daemon_body(kind: u32, data: Vec<u8>) -> (r: Option<Option<DaemonMsg>>)
    ensures
        match daemon_body_msg(kind, data@) {
            None => r is None,
            Some(m) => r matches Some(x) && daemon_opt_view(x) == m,
        },
{
    let mut b = Cursor::new(data);
    if kind == 0x0000 {
        match b.try_u32() {
            Some(id) => Some(Some(DaemonMsg::CPing { id })),
            None => None,
        }
    } else if kind == 0x0002 {
        let name = match b.try_string() {
            Some(s) => s,
            None => return None,
        };
        let algorithm = match CLoginAlgorithm::from_name(&name) {
            Some(a) => a,
            None => return None,
        };
        let challenge_response = match b.try_string() {
            Some(s) => s,
            None => return None,
        };
        match b.try_u32() {
            Some(mask) => Some(Some(DaemonMsg::CLogin { algorithm, challenge_response, mask })),
            None => None,
        }
    } else if kind == 0x0401 {
        let n = match b.try_u32() {
            Some(n) => n,
            None => return None,
        };
        let k = match CSearchKind::from_u32(n) {
            Some(k) => k,
            None => return None,
        };
        match b.try_string() {
            Some(query) => Some(Some(DaemonMsg::CSearch { kind: k, query })),
            None => None,
        }
    } else {
        Some(None)
    }
}

/// Reads and writes the frames of the client interface.
pub struct DaemonMsgCodec {
    cur_len: Option<usize>,
    cur_kind: Option<u32>,
}

impl View for DaemonMsgCodec {
    type V = DaemonCodecState;

    closed spec fn view(&self) -> DaemonCodecState {
        DaemonCodecState { len: self.cur_len, kind: self.cur_kind }
    }
}

impl DaemonMsgCodec {
    /// A codec between frames.
    pub fn new() -> (r: Self)
        ensures
            r@ == (DaemonCodecState { len: None, kind: None }),
    {
        DaemonMsgCodec { cur_len: None, cur_kind: None }
    }

    /// Appends the frame for `msg` to `bytes`.
    pub fn encode(&mut self, msg: DaemonMsg, bytes: &mut bytes::BytesMut)
        requires
            daemon_encodable(msg@),
        ensures
            final(self)@ == old(self)@,
            buf_contents(*final(bytes)) == buf_contents(*old(bytes)) + daemon_frame(msg@),
    {
        let ghost m = msg@;
        let mut buf = buf_new();
        let code: u32;
        match msg {
            DaemonMsg::SPing { id } => {
                code = 0x0000;
                buf_extend(&mut buf, u32_le_bytes(id).as_slice());
            },
            DaemonMsg::SChallenge { version, challenge } => {
                code = 0x0001;
                buf_extend(&mut buf, u32_le_bytes(version).as_slice());
                pack_string(challenge.as_str(), &mut buf);
            },
            DaemonMsg::SLogin { success, message, challenge } => {
                code = 0x0002;
                buf_extend(&mut buf, u32_le_bytes(success as u32).as_slice());
                pack_string(message.as_str(), &mut buf);
                pack_string(challenge.as_str(), &mut buf);
            },
            DaemonMsg::SSearch { query, token } => {
                code = 0x0401;
                pack_string(query.as_str(), &mut buf);
                buf_extend(&mut buf, u32_le_bytes(token).as_slice());
            },
            _ => {
                assert(false);
                code = 0;
            },
        }
        let body = buf_to_vec(&buf);
        assert(body@ =~= daemon_body(m));
        let len = len_field(body.len()).wrapping_add(4);
        buf_extend(bytes, u32_le_bytes(len).as_slice());
        buf_extend(bytes, u32_le_bytes(code).as_slice());
        buf_extend(bytes, body.as_slice());
        assert(buf_contents(*bytes) =~= buf_contents(*old(bytes)) + daemon_frame(m));
    }

    /// Works out one call of `decode` on `buf` without changing anything.
    fn step(&self, buf: &[u8]) -> (r: Option<(Option<usize>, Option<u32>, usize, Option<DaemonMsg>)>)
        ensures
            match daemon_decode_step(self@, buf@) {
                None => r is None,
                Some((st, n, m)) => r matches Some((l, k, t, x)) && st == (DaemonCodecState {
                    len: l,
                    kind: k,
                }) && t == n && daemon_opt_view(x) == m,
            },
    {
        match read_frame_header(self.cur_len, self.cur_kind, buf) {
            FrameHeader::Pending { len, kind, taken } => Some((len, kind, taken, None)),
            FrameHeader::Malformed => None,
            FrameHeader::Body { kind, start, size } => {
                let data = copy_range(buf, start, size);
                match parse_daemon_body(kind, data) {
                    None => None,
                    Some(m) => Some((None, None, start + size, m)),
                }
            },
        }
    }

    /// Takes the next frame off the front of `buf`, or as much of it as is there:
    /// returns the message once its frame is whole (nothing for a code that the
    /// daemon does not read), and nothing while more bytes are needed.
    pub fn decode(&mut self, buf: &mut bytes::BytesMut) -> (r: Option<DaemonMsg>)
        requires
            daemon_decode_step(old(self)@, buf_contents(*old(buf))) is Some,
        ensures
            ({
                let (st, n, m) = daemon_decode_step(old(self)@, buf_contents(*old(buf))).unwrap();
                &&& final(self)@ == st
                &&& buf_contents(*final(buf)) == buf_contents(*old(buf)).skip(n as int)
                &&& daemon_opt_view(r) == m
            }),
    {
        let data = buf_to_vec(buf);
        match self.step(data.as_slice()) {
            Some((len, kind, n, m)) => {
                self.cur_len = len;
                self.cur_kind = kind;
                let _ = buf_split_to(buf, n);
                m
            },
            None => {
                assert(false);
                None
            },
        }
    }

    /// `decode` where the frame can be read; where it cannot (see
    /// `daemon_decode_step`), nothing, with the codec and `buf` left as they were.
    pub fn try_decode(&mut self, buf: &mut bytes::BytesMut) -> (r: Option<Option<DaemonMsg>>)
        ensures
            match daemon_decode_step(old(self)@, buf_contents(*old(buf))) {
                None => r is None && final(self)@ == old(self)@ && buf_contents(*final(buf))
                    == buf_contents(*old(buf)),
                Some((st, n, m)) => r matches Some(x) && final(self)@ == st && buf_contents(
                    *final(buf),
                ) == buf_contents(*old(buf)).skip(n as int) && daemon_opt_view(x) == m,
            },
    {
        let data = buf_to_vec(buf);
        match self.step(data.as_slice()) {
            None => None,
            Some(_) => Some(self.decode(buf)),
        }
    }
}

/// Bytes that arrive in two pieces decode as if they had come at once: when
/// the first piece `a` does not hold the whole frame, decoding it and then the
/// rest of it followed by `b` gives the same message and state as decoding
/// `a + b`, and takes the same number of bytes in all.
pub proof fn lemma_daemon_decode_in_pieces(st: DaemonCodecState, a: Seq<u8>, b: Seq<u8>)
    requires
        frame_header(st.len, st.kind, a) is Pending,
    ensures
        daemon_decode_step(st, a) is Some,
        ({
            let (st1, n1, m1) = daemon_decode_step(st, a).unwrap();
            &&& m1 is None
            &&& match (daemon_decode_step(st1, a.skip(n1 as int) + b), daemon_decode_step(st, a + b)) {
                (Some((s2, n2, m2)), Some((s3, n3, m3))) => s2 == s3 && n1 + n2 == n3 && m2 == m3,
                (None, None) => true,
                _ => false,
            }
        }),
{
    lemma_frame_header_in_pieces(st.len, st.kind, a, b);
    let whole = a + b;
    match frame_header(st.len, st.kind, a) {
        FrameHeader::Pending { len: len1, kind: kind1, taken } => {
            let t = taken as int;
            let second = a.skip(t) + b;
            match frame_header(len1, kind1, second) {
                FrameHeader::Body { kind: k2, start: s2, size: z2 } => {
                    assert(second.subrange(s2 as int, s2 + z2) =~= whole.subrange(
                        t + s2,
                        t + s2 + z2,
                    ));
                },
                _ => {},
            }
        },
        _ => {},
    }
}


/// The body of a search frame: the kind's number, then the query.
proof fn lemma_search_body(n: u32, query: Seq<char>)
    requires
        str_bytes(query).len() < 0x1_0000_0000,
    ensures
        daemon_body_msg(0x0401, le_u32(n) + packed_string(query)) == if n == 0 {
            Some(Some(SpecDaemonMsg::CSearch { kind: CSearchKind::Global, query }))
        } else if n == 1 {
            Some(Some(SpecDaemonMsg::CSearch { kind: CSearchKind::Buddies, query }))
        } else if n == 2 {
            Some(Some(SpecDaemonMsg::CSearch { kind: CSearchKind::Room, query }))
        } else {
            None
        },
{
    let q = packed_string(query);
    let body = le_u32(n) + q;
    assert(body.subrange(0, body.len() as int) =~= body);
    lemma_split_at(body, 0, le_u32(n), q);
    lemma_read_u32_at(body, 0, n);
    lemma_read_string_at(body, 4, query);
}

/// A client's search frame decodes as a search for its query, of the kind that
/// its number names on the daemon interface (0 global, 1 buddies, 2 room),
/// taking the whole frame and leaving the codec between frames; with any other
/// number the frame cannot be read.
pub proof fn lemma_daemon_search_frame(n: u32, query: Seq<char>, rest: Seq<u8>)
    requires
        str_bytes(query).len() + 12 <= u32::MAX,
    ensures
        ({
            let body = le_u32(n) + packed_string(query);
            let frame = le_u32((body.len() + 4) as u32) + le_u32(0x0401) + body;
            let fresh = DaemonCodecState { len: None, kind: None };
            let step = daemon_decode_step(fresh, frame + rest);
            &&& n == 0 ==> step == Some(
                (fresh, frame.len(), Some(SpecDaemonMsg::CSearch { kind: CSearchKind::Global, query })),
            )
            &&& n == 1 ==> step == Some(
                (fresh, frame.len(), Some(SpecDaemonMsg::CSearch { kind: CSearchKind::Buddies, query })),
            )
            &&& n == 2 ==> step == Some(
                (fresh, frame.len(), Some(SpecDaemonMsg::CSearch { kind: CSearchKind::Room, query })),
            )
            &&& n > 2 ==> step is None
        }),
{
    let body = le_u32(n) + packed_string(query);
    let frame = le_u32((body.len() + 4) as u32) + le_u32(0x0401) + body;
    lemma_frame_header_whole(0x0401, body, rest);
    lemma_search_body(n, query);
    assert((frame + rest).subrange(8, 8 + body.len() as int) == body);
}

} // verus!
