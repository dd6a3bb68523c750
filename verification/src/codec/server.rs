//! The protocol between the client and the Soulseek server.
use vstd::prelude::*;
use crate::codec::util::{pack_ip, pack_string};
use crate::codec::wire::{
    Cursor, FrameHeader, lemma_frame_header_in_pieces, Ipv4Addr, copy_range, frame_header, le_u32, len32, len_field,
    packed_string, read_frame_header, read_i32, read_ip, read_string, read_u16, read_u32, read_u8,
    str_bytes, u32_le_bytes, lemma_frame_header_whole, lemma_read_string_at, lemma_read_u32_at,
    lemma_split_at,
};
use crate::foreign::{
    buf_contents, buf_extend, buf_from_vec, buf_new, buf_split_to, buf_to_vec, md5_compute, md5_digest,
};
use vstd::slice::slice_to_vec;

verus! {

broadcast use vstd::seq_lib::group_seq_properties;

/// The kind of connection that the server asks a client to open to a peer.
#[derive(Debug, Clone, Copy, PartialEq, Eq, Structural)]
pub enum SConnectToPeerKind {
    Peer,
    File,
    Distributed,
}

/// The letter by which the protocol spells a connection kind.
pub open spec fn connect_kind_name(k: SConnectToPeerKind) -> Seq<char> {
    match k {
        SConnectToPeerKind::Peer => "P"@,
        SConnectToPeerKind::File => "F"@,
        SConnectToPeerKind::Distributed => "D"@,
    }
}

/// The connection kind that a name spells, if any.
pub open spec fn connect_kind_from_name(s: Seq<char>) -> Option<SConnectToPeerKind> {
    if s == "P"@ {
        Some(SConnectToPeerKind::Peer)
    } else if s == "F"@ {
        Some(SConnectToPeerKind::File)
    } else if s == "D"@ {
        Some(SConnectToPeerKind::Distributed)
    } else {
        None
    }
}

impl SConnectToPeerKind {
    /// The kind's letter.
    pub fn into_string(self) -> (r: String)
        ensures
            r@ == connect_kind_name(self),
    {
        match self {
            SConnectToPeerKind::Peer => "P".to_owned(),
            SConnectToPeerKind::File => "F".to_owned(),
            SConnectToPeerKind::Distributed => "D".to_owned(),
        }
    }

    /// The kind that `s` names, if any.
    pub fn from_name(s: &String) -> (r: Option<SConnectToPeerKind>)
        ensures
            r == connect_kind_from_name(s@),
    {
        if *s == "P".to_owned() {
            Some(SConnectToPeerKind::Peer)
        } else if *s == "F".to_owned() {
            Some(SConnectToPeerKind::File)
        } else if *s == "D".to_owned() {
            Some(SConnectToPeerKind::Distributed)
        } else {
            None
        }
    }

    /// The kind named `it`, which must be one of the three letters.
    pub fn from(it: String) -> (r: SConnectToPeerKind)
        requires
            connect_kind_from_name(it@) is Some,
        ensures
            Some(r) == connect_kind_from_name(it@),
    {
        match SConnectToPeerKind::from_name(&it) {
            Some(k) => k,
            None => {
                assert(false);
                SConnectToPeerKind::Peer
            },
        }
    }
}

/// Reading back a connection kind's letter gives the kind.
pub proof fn lemma_connect_kind_name_roundtrip(k: SConnectToPeerKind)
    ensures
        connect_kind_from_name(connect_kind_name(k)) == Some(k),
{
    reveal_strlit("P");
    reveal_strlit("F");
    reveal_strlit("D");
    assert("P"@ != "F"@ && "P"@ != "D"@ && "F"@ != "D"@) by {
        assert("P"@[0] == 'P' && "F"@[0] == 'F' && "D"@[0] == 'D');
    }
}

/// The status that a client announces.
#[derive(Debug, Clone, Copy, PartialEq, Eq, Structural)]
pub enum CSetStatusStatus {
    Online,
    Offline,
}

/// The number that stands for a status on the wire.
pub open spec fn status_code(s: CSetStatusStatus) -> u32 {
    match s {
        CSetStatusStatus::Online => 1,
        CSetStatusStatus::Offline => 2,
    }
}

impl CSetStatusStatus {
    /// The status's number: 1 for online, 2 for offline.
    pub fn to_u32(self) -> (r: u32)
        ensures
            r == status_code(self),
    {
        match self {
            CSetStatusStatus::Online => 1,
            CSetStatusStatus::Offline => 2,
        }
    }

    /// The status that `n` stands for, if any.
    pub fn from_u32(n: u32) -> (r: Option<CSetStatusStatus>)
        ensures
            r matches Some(s) ==> status_code(s) == n,
            r is None <==> (n != 1 && n != 2),
    {
        if n == 1 {
            Some(CSetStatusStatus::Online)
        } else if n == 2 {
            Some(CSetStatusStatus::Offline)
        } else {
            None
        }
    }
}

/// A message between the client and the server. Where the server sends a table
/// keyed by name, it is a list of entries in which each name occurs once, in the
/// order in which the names first came.
#[derive(Debug)]
#[allow(inconsistent_fields)]
pub enum ServerMsg {
    CLogin { username: String, password: String },
    SLogin { success: bool, greet: String, public_ip: Option<Ipv4Addr>, unknown: Option<bool> },
    CSetListenPort { port: u32, use_obfuscation: bool },
    CGetPeerAddress { username: String },
    SGetPeerAddress {
        username: String,
        ip: Ipv4Addr,
        port: u32,
        use_obfuscation: bool,
        obfuscated_port: u16,
    },
    CFileSearch { token: u32, query: String },
    CHaveNoParents { have_parents: bool },
    CSharedFoldersFiles { folders: u32, files: u32 },
    CSetStatus { status: CSetStatusStatus },
    CRelatedSearch { query: String },
    SRelatedSearch { query: String, related_searches: Vec<(String, i32)> },
    CParentIp { ip: Ipv4Addr },
    SConnectToPeer {
        username: String,
        kind: SConnectToPeerKind,
        ip: Ipv4Addr,
        port: u32,
        token: u32,
        use_obfuscation: bool,
        privileged: bool,
        obfuscated_port: u32,
    },
    SNetInfo { users: Vec<(String, (Ipv4Addr, u32))> },
    SAckPrivateMessage(u32),
    SSetStatus(u32),
    SParentMinSpeed(u32),
    SParentSpeedRatio(u32),
    SParentInactivityTimeout(u32),
    SSearchInactivityTimeout(u32),
    SMinParentsInCache(u32),
    SDistribAliveInterval(u32),
    SWishlistInterval(u32),
}

/// A server message with its strings as sequences of characters.
#[allow(inconsistent_fields)]
pub enum SpecServerMsg {
    CLogin { username: Seq<char>, password: Seq<char> },
    SLogin { success: bool, greet: Seq<char>, public_ip: Option<Ipv4Addr>, unknown: Option<bool> },
    CSetListenPort { port: u32, use_obfuscation: bool },
    CGetPeerAddress { username: Seq<char> },
    SGetPeerAddress {
        username: Seq<char>,
        ip: Ipv4Addr,
        port: u32,
        use_obfuscation: bool,
        obfuscated_port: u16,
    },
    CFileSearch { token: u32, query: Seq<char> },
    CHaveNoParents { have_parents: bool },
    CSharedFoldersFiles { folders: u32, files: u32 },
    CSetStatus { status: CSetStatusStatus },
    CRelatedSearch { query: Seq<char> },
    SRelatedSearch { query: Seq<char>, related_searches: Seq<(Seq<char>, i32)> },
    CParentIp { ip: Ipv4Addr },
    SConnectToPeer {
        username: Seq<char>,
        kind: SConnectToPeerKind,
        ip: Ipv4Addr,
        port: u32,
        token: u32,
        use_obfuscation: bool,
        privileged: bool,
        obfuscated_port: u32,
    },
    SNetInfo { users: Seq<(Seq<char>, (Ipv4Addr, u32))> },
    SAckPrivateMessage(u32),
    SSetStatus(u32),
    SParentMinSpeed(u32),
    SParentSpeedRatio(u32),
    SParentInactivityTimeout(u32),
    SSearchInactivityTimeout(u32),
    SMinParentsInCache(u32),
    SDistribAliveInterval(u32),
    SWishlistInterval(u32),
}

/// The entries of a table, with the names as sequences of characters.
pub open spec fn table_view<V>(t: Seq<(String, V)>) -> Seq<(Seq<char>, V)> {
    t.map_values(|e: (String, V)| (e.0@, e.1))
}

impl View for ServerMsg {
    type V = SpecServerMsg;

    open spec fn view(&self) -> SpecServerMsg {
        match self {
            ServerMsg::CLogin { username, password } => SpecServerMsg::CLogin {
                username: username@,
                password: password@,
            },
            ServerMsg::SLogin { success, greet, public_ip, unknown } => SpecServerMsg::SLogin {
                success: *success,
                greet: greet@,
                public_ip: *public_ip,
                unknown: *unknown,
            },
            ServerMsg::CSetListenPort { port, use_obfuscation } => SpecServerMsg::CSetListenPort {
                port: *port,
                use_obfuscation: *use_obfuscation,
            },
            ServerMsg::CGetPeerAddress { username } => SpecServerMsg::CGetPeerAddress {
                username: username@,
            },
            ServerMsg::SGetPeerAddress { username, ip, port, use_obfuscation, obfuscated_port } =>
                SpecServerMsg::SGetPeerAddress {
                username: username@,
                ip: *ip,
                port: *port,
                use_obfuscation: *use_obfuscation,
                obfuscated_port: *obfuscated_port,
            },
            ServerMsg::CFileSearch { token, query } => SpecServerMsg::CFileSearch {
                token: *token,
                query: query@,
            },
            ServerMsg::CHaveNoParents { have_parents } => SpecServerMsg::CHaveNoParents {
                have_parents: *have_parents,
            },
            ServerMsg::CSharedFoldersFiles { folders, files } => SpecServerMsg::CSharedFoldersFiles {
                folders: *folders,
                files: *files,
            },
            ServerMsg::CSetStatus { status } => SpecServerMsg::CSetStatus { status: *status },
            ServerMsg::CRelatedSearch { query } => SpecServerMsg::CRelatedSearch { query: query@ },
            ServerMsg::SRelatedSearch { query, related_searches } => SpecServerMsg::SRelatedSearch {
                query: query@,
                related_searches: table_view(related_searches@),
            },
            ServerMsg::CParentIp { ip } => SpecServerMsg::CParentIp { ip: *ip },
            ServerMsg::SConnectToPeer {
                username,
                kind,
                ip,
                port,
                token,
                use_obfuscation,
                privileged,
                obfuscated_port,
            } => SpecServerMsg::SConnectToPeer {
                username: username@,
                kind: *kind,
                ip: *ip,
                port: *port,
                token: *token,
                use_obfuscation: *use_obfuscation,
                privileged: *privileged,
                obfuscated_port: *obfuscated_port,
            },
            ServerMsg::SNetInfo { users } => SpecServerMsg::SNetInfo { users: table_view(users@) },
            ServerMsg::SAckPrivateMessage(v) => SpecServerMsg::SAckPrivateMessage(*v),
            ServerMsg::SSetStatus(v) => SpecServerMsg::SSetStatus(*v),
            ServerMsg::SParentMinSpeed(v) => SpecServerMsg::SParentMinSpeed(*v),
            ServerMsg::SParentSpeedRatio(v) => SpecServerMsg::SParentSpeedRatio(*v),
            ServerMsg::SParentInactivityTimeout(v) => SpecServerMsg::SParentInactivityTimeout(*v),
            ServerMsg::SSearchInactivityTimeout(v) => SpecServerMsg::SSearchInactivityTimeout(*v),
            ServerMsg::SMinParentsInCache(v) => SpecServerMsg::SMinParentsInCache(*v),
            ServerMsg::SDistribAliveInterval(v) => SpecServerMsg::SDistribAliveInterval(*v),
            ServerMsg::SWishlistInterval(v) => SpecServerMsg::SWishlistInterval(*v),
        }
    }
}

/// The view of a decoding result.
pub open spec fn server_opt_view(m: Option<ServerMsg>) -> Option<SpecServerMsg> {
    match m {
        Some(m) => Some(m@),
        None => None,
    }
}

/// The lower-case hexadecimal digit for a value below 16.
pub open spec fn hex_digit(d: u8) -> u8 {
    if d < 10 {
        (48 + d) as u8
    } else {
        (87 + d) as u8
    }
}

/// The hexadecimal rendering that `hex_digest` gives: a buffer of `len * 4 + 1`
/// bytes holding two lower-case hex digits per byte of `source` (high nibble
/// first), with every other byte zero, the byte at `len * 2` included.
pub open spec fn hex_digest_bytes(source: Seq<u8>, len: nat) -> Seq<u8> {
    Seq::new(
        len * 4 + 1,
        |j: int|
            if j == 2 * len {
                0u8
            } else if j < 2 * source.len() {
                if j % 2 == 0 {
                    hex_digit(source[j / 2] / 16)
                } else {
                    hex_digit(source[j / 2] % 16)
                }
            } else {
                0u8
            },
    )
}

/// The digit for a value below 16.
fn hex_char(d: u8) -> (r: u8)
    requires
        d < 16,
    ensures
        r == hex_digit(d),
{
    if d < 10 {
        48 + d
    } else {
        87 + d
    }
}

/// Renders `source` in lower-case hexadecimal into a zeroed buffer of
/// `len * 4 + 1` bytes, and sets the byte at `len * 2` to zero.
pub fn hex_digest(source: &[u8], len: usize) -> (r: bytes::BytesMut)
    requires
        source@.len() <= 2 * len,
        len * 4 + 1 <= usize::MAX,
    ensures
        buf_contents(r) == hex_digest_bytes(source@, len as nat),
{
    let size = len * 4 + 1;
    let mut result: Vec<u8> = Vec::new();
    while result.len() < size
        invariant
            result@.len() <= size,
            forall|j: int| 0 <= j < result@.len() ==> result@[j] == 0u8,
        decreases size - result@.len(),
    {
        result.push(0u8);
    }
    let n = source.len();
    let mut i: usize = 0;
    while i < n
        invariant
            n == source@.len(),
            n <= 2 * len,
            size == len * 4 + 1,
            i <= n,
            result@.len() == size,
            forall|j: int|
                0 <= j < size ==> #[trigger] result@[j] == (if j < 2 * i {
                    if j % 2 == 0 {
                        hex_digit(source@[j / 2] / 16)
                    } else {
                        hex_digit(source@[j / 2] % 16)
                    }
                } else {
                    0u8
                }),
        decreases n - i,
    {
        let ch = source[i];
        let ind1 = ch >> 4u8;
        let ind2 = ch & 0x0fu8;
        assert(ind1 == ch / 16 && ind2 == ch % 16 && ind1 < 16 && ind2 < 16) by (bit_vector)
            requires
                ind1 == ch >> 4u8,
                ind2 == ch & 0x0fu8,
        ;
        result.set(i * 2, hex_char(ind1));
        result.set(i * 2 + 1, hex_char(ind2));
        i = i + 1;
    }
    result.set(len * 2, 0u8);
    assert(result@ =~= hex_digest_bytes(source@, len as nat));
    buf_from_vec(result)
}

/// Whether no name occurs twice in a table.
pub open spec fn distinct_keys<V>(t: Seq<(Seq<char>, V)>) -> bool {
    forall|i: int, j: int| 0 <= i < j < t.len() ==> t[i].0 != t[j].0
}

/// A table after setting `k` to `v`: the value of the entry for `k` is replaced
/// where there is one, and a new entry is added at the end otherwise.
pub open spec fn table_insert<V>(t: Seq<(Seq<char>, V)>, k: Seq<char>, v: V) -> Seq<
    (Seq<char>, V),
> {
    if exists|i: int| 0 <= i < t.len() && t[i].0 == k {
        let i = choose|i: int| 0 <= i < t.len() && t[i].0 == k;
        t.update(i, (k, v))
    } else {
        t.push((k, v))
    }
}

/// Setting a name in a table keeps the names distinct.
pub proof fn lemma_table_insert_distinct<V>(t: Seq<(Seq<char>, V)>, k: Seq<char>, v: V)
    requires
        distinct_keys(t),
    ensures
        distinct_keys(table_insert(t, k, v)),
        exists|i: int| 0 <= i < table_insert(t, k, v).len() && table_insert(t, k, v)[i] == (k, v),
{
    let r = table_insert(t, k, v);
    if exists|i: int| 0 <= i < t.len() && t[i].0 == k {
        let i = choose|i: int| 0 <= i < t.len() && t[i].0 == k;
        assert(r[i] == (k, v));
    } else {
        assert(r[t.len() as int] == (k, v));
    }
}

/// Sets `key` to `value` in the table (see `table_insert`).
fn insert_entry<V>(t: &mut Vec<(String, V)>, key: String, value: V)
    requires
        distinct_keys(table_view(old(t)@)),
    ensures
        table_view(final(t)@) == table_insert(table_view(old(t)@), key@, value),
        distinct_keys(table_view(final(t)@)),
{
    let ghost tv = table_view(t@);
    proof {
        lemma_table_insert_distinct(tv, key@, value);
    }
    let n = t.len();
    let mut i: usize = 0;
    while i < n
        invariant
            n == t@.len(),
            i <= n,
            tv == table_view(t@),
            t@ == old(t)@,
            distinct_keys(tv),
            distinct_keys(table_insert(tv, key@, value)),
            forall|j: int| 0 <= j < i ==> tv[j].0 != key@,
        decreases n - i,
    {
        if t[i].0 == key {
            assert(tv[i as int].0 == key@);
            assert(exists|j: int| 0 <= j < tv.len() && tv[j].0 == key@);
            proof {
                let c = choose|j: int| 0 <= j < tv.len() && tv[j].0 == key@;
                assert(c == i) by {
                    if c < i {
                    } else if c > i {
                        assert(tv[i as int].0 != tv[c].0);
                    }
                }
            }
            t.set(i, (key, value));
            assert(table_view(t@) =~= tv.update(i as int, (key@, value)));
            return;
        }
        i = i + 1;
    }
    t.push((key, value));
    assert(table_view(t@) =~= tv.push((key@, value)));
}

/// Whether a message is one that the client writes.
pub open spec fn server_encodable(m: SpecServerMsg) -> bool {
    ||| m is CLogin
    ||| m is CSetListenPort
    ||| m is CGetPeerAddress
    ||| m is CFileSearch
    ||| m is CSharedFoldersFiles
    ||| m is CHaveNoParents
    ||| m is CSetStatus
    ||| m is CRelatedSearch
    ||| m is CParentIp
}

/// The bytes that a login sends after its strings: a constant, the hex rendering
/// of the MD5 digest of the user name followed by the password, and a constant.
pub open spec fn login_tail(username: Seq<char>, password: Seq<char>) -> Seq<u8> {
    seq![183u8, 0u8, 0u8, 0u8] + hex_digest_bytes(
        md5_digest(str_bytes(username) + str_bytes(password)),
        16,
    ) + seq![1u8, 0u8, 0u8, 0u8]
}

/// The code and body of a message that the client writes.
pub open spec fn server_body(m: SpecServerMsg) -> Seq<u8> {
    match m {
        SpecServerMsg::CLogin { username, password } => le_u32(1) + packed_string(username)
            + packed_string(password) + login_tail(username, password),
        SpecServerMsg::CSetListenPort { port, use_obfuscation } => le_u32(2) + le_u32(port)
            + le_u32(
            if use_obfuscation {
                1
            } else {
                0
            },
        ),
        SpecServerMsg::CGetPeerAddress { username } => le_u32(3) + packed_string(username),
        SpecServerMsg::CFileSearch { token, query } => le_u32(26) + le_u32(token) + packed_string(
            query,
        ),
        SpecServerMsg::CSharedFoldersFiles { folders, files } => le_u32(35) + le_u32(folders)
            + le_u32(files),
        SpecServerMsg::CHaveNoParents { have_parents } => le_u32(71) + seq![
            if have_parents {
                1u8
            } else {
                0u8
            },
        ],
        SpecServerMsg::CSetStatus { status } => le_u32(71) + le_u32(status_code(status)),
        SpecServerMsg::CRelatedSearch { query } => le_u32(153) + packed_string(query),
        SpecServerMsg::CParentIp { ip } => le_u32(153) + seq![ip.a, ip.b, ip.c, ip.d],
        _ => Seq::empty(),
    }
}

/// The frame of a message: the length of code and body (cut to 32 bits), then
/// the code and the body.
pub open spec fn server_frame(m: SpecServerMsg) -> Seq<u8> {
    le_u32(len32(server_body(m).len())) + server_body(m)
}

/// Reads back a login reply: a success byte and a greeting, then, on success,
/// the client's public address and one more flag byte.
pub open spec fn read_login_reply(d: Seq<u8>) -> Option<SpecServerMsg> {
    match read_u8(d, 0) {
        None => None,
        Some((s, p1)) => match read_string(d, p1) {
            None => None,
            Some((greet, p2)) => if s != 0 {
                match read_ip(d, p2) {
                    None => None,
                    Some((ip, p3)) => match read_u8(d, p3) {
                        None => None,
                        Some((u, _)) => Some(
                            SpecServerMsg::SLogin {
                                success: true,
                                greet,
                                public_ip: Some(ip),
                                unknown: Some(u != 0),
                            },
                        ),
                    },
                }
            } else {
                Some(SpecServerMsg::SLogin { success: false, greet, public_ip: None, unknown: None })
            },
        },
    }
}

/// Reads back a peer address reply.
pub open spec fn read_peer_address(d: Seq<u8>) -> Option<SpecServerMsg> {
    match read_string(d, 0) {
        None => None,
        Some((username, p1)) => match read_ip(d, p1) {
            None => None,
            Some((ip, p2)) => match read_u32(d, p2) {
                None => None,
                Some((port, p3)) => match read_u32(d, p3) {
                    None => None,
                    Some((obf, p4)) => match read_u16(d, p4) {
                        None => None,
                        Some((obfuscated_port, _)) => Some(
                            SpecServerMsg::SGetPeerAddress {
                                username,
                                ip,
                                port,
                                use_obfuscation: obf == 1,
                                obfuscated_port,
                            },
                        ),
                    },
                },
            },
        },
    }
}

/// Reads back a request to connect to a peer; the kind must be one of the letters.
pub open spec fn read_connect_to_peer(d: Seq<u8>) -> Option<SpecServerMsg> {
    match read_string(d, 0) {
        None => None,
        Some((username, p1)) => match read_string(d, p1) {
            None => None,
            Some((name, p2)) => match connect_kind_from_name(name) {
                None => None,
                Some(kind) => match read_ip(d, p2) {
                    None => None,
                    Some((ip, p3)) => match read_u32(d, p3) {
                        None => None,
                        Some((port, p4)) => match read_u32(d, p4) {
                            None => None,
                            Some((token, p5)) => match read_u32(d, p5) {
                                None => None,
                                Some((obf, p6)) => match read_u8(d, p6) {
                                    None => None,
                                    Some((privileged, p7)) => match read_u32(d, p7) {
                                        None => None,
                                        Some((obfuscated_port, _)) => Some(
                                            SpecServerMsg::SConnectToPeer {
                                                username,
                                                kind,
                                                ip,
                                                port,
                                                token,
                                                use_obfuscation: obf != 0,
                                                privileged: privileged == 1,
                                                obfuscated_port,
                                            },
                                        ),
                                    },
                                },
                            },
                        },
                    },
                },
            },
        },
    }
}

/// `n` more users of a network-info reply from position `p`, each a name, an
/// address and a port, set one after the other into the table `acc`.
pub open spec fn read_net_users(
    d: Seq<u8>,
    p: int,
    n: nat,
    acc: Seq<(Seq<char>, (Ipv4Addr, u32))>,
) -> Option<Seq<(Seq<char>, (Ipv4Addr, u32))>>
    decreases n,
{
    if n == 0 {
        Some(acc)
    } else {
        match read_string(d, p) {
            None => None,
            Some((user, p1)) => match read_ip(d, p1) {
                None => None,
                Some((ip, p2)) => match read_u32(d, p2) {
                    None => None,
                    Some((port, p3)) => read_net_users(
                        d,
                        p3,
                        (n - 1) as nat,
                        table_insert(acc, user, (ip, port)),
                    ),
                },
            },
        }
    }
}

/// `n` more related searches from position `p`, each a term and a signed score,
/// set one after the other into the table `acc`.
pub open spec fn read_related_entries(
    d: Seq<u8>,
    p: int,
    n: nat,
    acc: Seq<(Seq<char>, i32)>,
) -> Option<Seq<(Seq<char>, i32)>>
    decreases n,
{
    if n == 0 {
        Some(acc)
    } else {
        match read_string(d, p) {
            None => None,
            Some((term, p1)) => match read_i32(d, p1) {
                None => None,
                Some((score, p2)) => read_related_entries(
                    d,
                    p2,
                    (n - 1) as nat,
                    table_insert(acc, term, score),
                ),
            },
        }
    }
}

/// Whether a code carries a single 32-bit value.
pub open spec fn is_value_code(kind: u32) -> bool {
    kind == 23 || kind == 28 || kind == 83 || kind == 84 || kind == 86 || kind == 87 || kind == 88
        || kind == 90 || kind == 104
}

/// The message of a code that carries a single 32-bit value.
pub open spec fn value_msg(kind: u32, v: u32) -> SpecServerMsg {
    if kind == 23 {
        SpecServerMsg::SAckPrivateMessage(v)
    } else if kind == 28 {
        SpecServerMsg::SSetStatus(v)
    } else if kind == 83 {
        SpecServerMsg::SParentMinSpeed(v)
    } else if kind == 84 {
        SpecServerMsg::SParentSpeedRatio(v)
    } else if kind == 86 {
        SpecServerMsg::SParentInactivityTimeout(v)
    } else if kind == 87 {
        SpecServerMsg::SSearchInactivityTimeout(v)
    } else if kind == 88 {
        SpecServerMsg::SMinParentsInCache(v)
    } else if kind == 90 {
        SpecServerMsg::SDistribAliveInterval(v)
    } else {
        SpecServerMsg::SWishlistInterval(v)
    }
}

/// The message in a server's body of the given code: `None` when the body is
/// malformed, `Some(None)` for a code that the client does not read.
#[verifier::opaque]
pub open spec fn server_body_msg(kind: u32, d: Seq<u8>) -> Option<Option<SpecServerMsg>> {
    let r: Option<SpecServerMsg> = if kind == 1 {
        read_login_reply(d)
    } else if kind == 3 {
        read_peer_address(d)
    } else if kind == 18 {
        read_connect_to_peer(d)
    } else if is_value_code(kind) {
        match read_u32(d, 0) {
            Some((v, _)) => Some(value_msg(kind, v)),
            None => None,
        }
    } else if kind == 102 {
        match read_u32(d, 0) {
            None => None,
            Some((count, p1)) => match read_net_users(d, p1, count as nat, Seq::empty()) {
                Some(users) => Some(SpecServerMsg::SNetInfo { users }),
                None => None,
            },
        }
    } else if kind == 153 {
        match read_string(d, 0) {
            None => None,
            Some((query, p1)) => match read_u32(d, p1) {
                None => None,
                Some((count, p2)) => match read_related_entries(d, p2, count as nat, Seq::empty()) {
                    Some(related_searches) => Some(
                        SpecServerMsg::SRelatedSearch { query, related_searches },
                    ),
                    None => None,
                },
            },
        }
    } else {
        Some(SpecServerMsg::CHaveNoParents { have_parents: false })
    };
    if kind == 1 || kind == 3 || kind == 18 || is_value_code(kind) || kind == 102 || kind == 153 {
        match r {
            Some(m) => Some(Some(m)),
            None => None,
        }
    } else {
        Some(None)
    }
}

/// Reads the users of a network-info reply (see `read_net_users`).
fn try_net_users(b: &mut Cursor, n: u32) -> (r: Option<Vec<(String, (Ipv4Addr, u32))>>)
    ensures
        match read_net_users(old(b)@.0, old(b)@.1, n as nat, Seq::empty()) {
            None => r is None,
            Some(t) => r matches Some(v) && table_view(v@) == t,
        },
{
    let ghost d = b@.0;
    let ghost p0 = b@.1;
    let mut users: Vec<(String, (Ipv4Addr, u32))> = Vec::new();
    assert(table_view(users@) =~= Seq::<(Seq<char>, (Ipv4Addr, u32))>::empty());
    let mut i: u32 = 0;
    while i < n
        invariant
            b@.0 == d,
            d == old(b)@.0,
            p0 == old(b)@.1,
            i <= n,
            distinct_keys(table_view(users@)),
            read_net_users(d, p0, n as nat, Seq::empty()) == read_net_users(
                d,
                b@.1,
                (n - i) as nat,
                table_view(users@),
            ),
        decreases n - i,
    {
        let user = match b.try_string() {
            Some(s) => s,
            None => return None,
        };
        let ip = match b.try_ip() {
            Some(v) => v,
            None => return None,
        };
        let port = match b.try_u32() {
            Some(v) => v,
            None => return None,
        };
        insert_entry(&mut users, user, (ip, port));
        i = i + 1;
    }
    Some(users)
}

/// Reads the related searches of a reply (see `read_related_entries`).
fn try_related_entries(b: &mut Cursor, n: u32) -> (r: Option<Vec<(String, i32)>>)
    ensures
        match read_related_entries(old(b)@.0, old(b)@.1, n as nat, Seq::empty()) {
            None => r is None,
            Some(t) => r matches Some(v) && table_view(v@) == t,
        },
{
    let ghost d = b@.0;
    let ghost p0 = b@.1;
    let mut entries: Vec<(String, i32)> = Vec::new();
    assert(table_view(entries@) =~= Seq::<(Seq<char>, i32)>::empty());
    let mut i: u32 = 0;
    while i < n
        invariant
            b@.0 == d,
            d == old(b)@.0,
            p0 == old(b)@.1,
            i <= n,
            distinct_keys(table_view(entries@)),
            read_related_entries(d, p0, n as nat, Seq::empty()) == read_related_entries(
                d,
                b@.1,
                (n - i) as nat,
                table_view(entries@),
            ),
        decreases n - i,
    {
        let term = match b.try_string() {
            Some(s) => s,
            None => return None,
        };
        let score = match b.try_i32() {
            Some(v) => v,
            None => return None,
        };
        insert_entry(&mut entries, term, score);
        i = i + 1;
    }
    Some(entries)
}

/// Reads a login reply (see `read_login_reply`).
fn parse_login_reply(b: &mut Cursor) -> (r: Option<ServerMsg>)
    requires
        old(b)@.1 == 0,
    ensures
        server_opt_view(r) == read_login_reply(old(b)@.0),
{
    let success = match b.try_u8() {
        Some(v) => v != 0,
        None => return None,
    };
    let greet = match b.try_string() {
        Some(s) => s,
        None => return None,
    };
    if success {
        let ip = match b.try_ip() {
            Some(v) => v,
            None => return None,
        };
        let unknown = match b.try_u8() {
            Some(v) => v != 0,
            None => return None,
        };
        Some(ServerMsg::SLogin { success, greet, public_ip: Some(ip), unknown: Some(unknown) })
    } else {
        Some(ServerMsg::SLogin { success, greet, public_ip: None, unknown: None })
    }
}

/// Reads a peer address reply (see `read_peer_address`).
fn parse_peer_address(b: &mut Cursor) -> (r: Option<ServerMsg>)
    requires
        old(b)@.1 == 0,
    ensures
        server_opt_view(r) == read_peer_address(old(b)@.0),
{
    let username = match b.try_string() {
        Some(s) => s,
        None => return None,
    };
    let ip = match b.try_ip() {
        Some(v) => v,
        None => return None,
    };
    let port = match b.try_u32() {
        Some(v) => v,
        None => return None,
    };
    let use_obfuscation = match b.try_u32() {
        Some(v) => v == 1,
        None => return None,
    };
    let obfuscated_port = match b.try_u16() {
        Some(v) => v,
        None => return None,
    };
    Some(ServerMsg::SGetPeerAddress { username, ip, port, use_obfuscation, obfuscated_port })
}

/// Reads a request to connect to a peer (see `read_connect_to_peer`).
fn parse_connect_to_peer(b: &mut Cursor) -> (r: Option<ServerMsg>)
    requires
        old(b)@.1 == 0,
    ensures
        server_opt_view(r) == read_connect_to_peer(old(b)@.0),
{
    let username = match b.try_string() {
        Some(s) => s,
        None => return None,
    };
    let name = match b.try_string() {
        Some(s) => s,
        None => return None,
    };
    let kind = match SConnectToPeerKind::from_name(&name) {
        Some(k) => k,
        None => return None,
    };
    let ip = match b.try_ip() {
        Some(v) => v,
        None => return None,
    };
    let port = match b.try_u32() {
        Some(v) => v,
        None => return None,
    };
    let token = match b.try_u32() {
        Some(v) => v,
        None => return None,
    };
    let use_obfuscation = match b.try_u32() {
        Some(v) => v != 0,
        None => return None,
    };
    let privileged = match b.try_u8() {
        Some(v) => v == 1,
        None => return None,
    };
    let obfuscated_port = match b.try_u32() {
        Some(v) => v,
        None => return None,
    };
    Some(
        ServerMsg::SConnectToPeer {
            username,
            kind,
            ip,
            port,
            token,
            use_obfuscation,
            privileged,
            obfuscated_port,
        },
    )
}

/// The message of a code that carries a single 32-bit value.
fn make_value_msg(kind: u32, v: u32) -> (r: ServerMsg)
    requires
        is_value_code(kind),
    ensures
        r@ == value_msg(kind, v),
{
    if kind == 23 {
        ServerMsg::SAckPrivateMessage(v)
    } else if kind == 28 {
        ServerMsg::SSetStatus(v)
    } else if kind == 83 {
        ServerMsg::SParentMinSpeed(v)
    } else if kind == 84 {
        ServerMsg::SParentSpeedRatio(v)
    } else if kind == 86 {
        ServerMsg::SParentInactivityTimeout(v)
    } else if kind == 87 {
        ServerMsg::SSearchInactivityTimeout(v)
    } else if kind == 88 {
        ServerMsg::SMinParentsInCache(v)
    } else if kind == 90 {
        ServerMsg::SDistribAliveInterval(v)
    } else {
        ServerMsg::SWishlistInterval(v)
    }
}

/// Reads the message in a body of the given code (see `server_body_msg`).
fn parse_server_body(kind: u32, data: Vec<u8>) -> (r: Option<Option<ServerMsg>>)
    ensures
        match server_body_msg(kind, data@) {
            None => r is None,
            Some(m) => r matches Some(x) && server_opt_view(x) == m,
        },
{
    reveal(server_body_msg);
    let mut b = Cursor::new(data);
    let r: Option<ServerMsg> = if kind == 1 {
        parse_login_reply(&mut b)
    } else if kind == 3 {
        parse_peer_address(&mut b)
    } else if kind == 18 {
        parse_connect_to_peer(&mut b)
    } else if kind == 23 || kind == 28 || kind == 83 || kind == 84 || kind == 86 || kind == 87
        || kind == 88 || kind == 90 || kind == 104 {
        match b.try_u32() {
            Some(v) => Some(make_value_msg(kind, v)),
            None => None,
        }
    } else if kind == 102 {
        let count = match b.try_u32() {
            Some(v) => v,
            None => return None,
        };
        match try_net_users(&mut b, count) {
            Some(users) => Some(ServerMsg::SNetInfo { users }),
            None => None,
        }
    } else if kind == 153 {
        let query = match b.try_string() {
            Some(s) => s,
            None => return None,
        };
        let count = match b.try_u32() {
            Some(v) => v,
            None => return None,
        };
        match try_related_entries(&mut b, count) {
            Some(related_searches) => Some(ServerMsg::SRelatedSearch { query, related_searches }),
            None => None,
        }
    } else {
        return Some(None);
    };
    match r {
        Some(m) => Some(Some(m)),
        None => None,
    }
}

/// The state that a server codec keeps between calls of `decode`: the length and
/// the code of the frame being read, once read.
pub struct ServerCodecState {
    pub len: Option<usize>,
    pub kind: Option<u32>,
}

/// One call of `decode` on `buf`: the state afterwards, the number of bytes taken
/// off the front of `buf`, and the message returned; `None` where the frame cannot
/// be read (a length shorter than the code, or a malformed body).
pub open spec fn server_decode_step(st: ServerCodecState, buf: Seq<u8>) -> Option<
    (ServerCodecState, nat, Option<SpecServerMsg>),
> {
    match frame_header(st.len, st.kind, buf) {
        FrameHeader::Pending { len, kind, taken } => Some(
            (ServerCodecState { len, kind }, taken as nat, None),
        ),
        FrameHeader::Malformed => None,
        FrameHeader::Body { kind, start, size } => match server_body_msg(
            kind,
            buf.subrange(start as int, start + size),
        ) {
            None => None,
            Some(m) => Some((ServerCodecState { len: None, kind: None }, (start + size) as nat, m)),
        },
    }
}

/// Reads and writes the frames of the server protocol.
pub struct ServerMsgCodec {
    cur_len: Option<usize>,
    cur_kind: Option<u32>,
}

impl View for ServerMsgCodec {
    type V = ServerCodecState;

    closed spec fn view(&self) -> ServerCodecState {
        ServerCodecState { len: self.cur_len, kind: self.cur_kind }
    }
}

/// The bytes of `a` followed by those of `b`.
fn concat_bytes(a: &[u8], b: &[u8]) -> (r: Vec<u8>)
    ensures
        r@ == a@ + b@,
{
    let mut v = slice_to_vec(a);
    let n = b.len();
    let mut i: usize = 0;
    while i < n
        invariant
            n == b@.len(),
            i <= n,
            v@ == a@ + b@.take(i as int),
        decreases n - i,
    {
        v.push(b[i]);
        i = i + 1;
        assert(v@ =~= a@ + b@.take(i as int));
    }
    assert(b@.take(n as int) =~= b@);
    v
}

impl ServerMsgCodec {
    /// A codec between frames.
    pub fn new() -> (r: Self)
        ensures
            r@ == (ServerCodecState { len: None, kind: None }),
    {
        ServerMsgCodec { cur_len: None, cur_kind: None }
    }

    /// Appends the frame for `msg` to `bytes`.
    pub fn encode(&mut self, msg: ServerMsg, bytes: &mut bytes::BytesMut)
        requires
            server_encodable(msg@),
        ensures
            final(self)@ == old(self)@,
            buf_contents(*final(bytes)) == buf_contents(*old(bytes)) + server_frame(msg@),
    {
        let ghost m = msg@;
        let mut buf = buf_new();
        match msg {
            ServerMsg::CLogin { username, password } => {
                let src = concat_bytes(username.as_str().as_bytes(), password.as_str().as_bytes());
                let md5_digest = md5_compute(src.as_slice());
                let digest = buf_to_vec(&hex_digest(md5_digest.as_slice(), 16));
                buf_extend(&mut buf, u32_le_bytes(1).as_slice());
                pack_string(username.as_str(), &mut buf);
                pack_string(password.as_str(), &mut buf);
                buf_extend(&mut buf, [183u8, 0u8, 0u8, 0u8].as_slice());
                buf_extend(&mut buf, digest.as_slice());
                buf_extend(&mut buf, [1u8, 0u8, 0u8, 0u8].as_slice());
            },
            ServerMsg::CSetListenPort { port, use_obfuscation } => {
                buf_extend(&mut buf, u32_le_bytes(2).as_slice());
                buf_extend(&mut buf, u32_le_bytes(port).as_slice());
                buf_extend(&mut buf, u32_le_bytes(use_obfuscation as u32).as_slice());
            },
            ServerMsg::CGetPeerAddress { username } => {
                buf_extend(&mut buf, u32_le_bytes(3).as_slice());
                pack_string(username.as_str(), &mut buf);
            },
            ServerMsg::CFileSearch { token, query } => {
                buf_extend(&mut buf, u32_le_bytes(26).as_slice());
                buf_extend(&mut buf, u32_le_bytes(token).as_slice());
                pack_string(query.as_str(), &mut buf);
            },
            ServerMsg::CSharedFoldersFiles { folders, files } => {
                buf_extend(&mut buf, u32_le_bytes(35).as_slice());
                buf_extend(&mut buf, u32_le_bytes(folders).as_slice());
                buf_extend(&mut buf, u32_le_bytes(files).as_slice());
            },
            ServerMsg::CHaveNoParents { have_parents } => {
                buf_extend(&mut buf, u32_le_bytes(71).as_slice());
                buf_extend(&mut buf, [have_parents as u8].as_slice());
            },
            ServerMsg::CSetStatus { status } => {
                buf_extend(&mut buf, u32_le_bytes(71).as_slice());
                buf_extend(&mut buf, u32_le_bytes(status.to_u32()).as_slice());
            },
            ServerMsg::CRelatedSearch { query } => {
                buf_extend(&mut buf, u32_le_bytes(153).as_slice());
                pack_string(query.as_str(), &mut buf);
            },
            ServerMsg::CParentIp { ip } => {
                buf_extend(&mut buf, u32_le_bytes(153).as_slice());
                pack_ip(&ip, &mut buf);
            },
            _ => {
                assert(false);
            },
        }
        let body = buf_to_vec(&buf);
        assert(body@ =~= server_body(m));
        buf_extend(bytes, u32_le_bytes(len_field(body.len())).as_slice());
        buf_extend(bytes, body.as_slice());
        assert(buf_contents(*bytes) =~= buf_contents(*old(bytes)) + server_frame(m));
    }

    /// Works out one call of `decode` on `buf` without changing anything.
    fn step(&self, buf: &[u8]) -> (r: Option<(Option<usize>, Option<u32>, usize, Option<ServerMsg>)>)
        ensures
            match server_decode_step(self@, buf@) {
                None => r is None,
                Some((st, n, m)) => r matches Some((l, k, t, x)) && st == (ServerCodecState {
                    len: l,
                    kind: k,
                }) && t == n && server_opt_view(x) == m,
            },
    {
        match read_frame_header(self.cur_len, self.cur_kind, buf) {
            FrameHeader::Pending { len, kind, taken } => Some((len, kind, taken, None)),
            FrameHeader::Malformed => None,
            FrameHeader::Body { kind, start, size } => {
                let data = copy_range(buf, start, size);
                match parse_server_body(kind, data) {
                    None => None,
                    Some(m) => Some((None, None, start + size, m)),
                }
            },
        }
    }

    /// Takes the next frame off the front of `buf`, or as much of it as is there:
    /// returns the message once its frame is whole (nothing for a code that the
    /// client does not read), and nothing while more bytes are needed.
    pub fn decode(&mut self, buf: &mut bytes::BytesMut) -> (r: Option<ServerMsg>)
        requires
            server_decode_step(old(self)@, buf_contents(*old(buf))) is Some,
        ensures
            ({
                let (st, n, m) = server_decode_step(old(self)@, buf_contents(*old(buf))).unwrap();
                &&& final(self)@ == st
                &&& buf_contents(*final(buf)) == buf_contents(*old(buf)).skip(n as int)
                &&& server_opt_view(r) == m
            }),
    {
        let data = buf_to_vec(buf);
        match self.step(data.as_slice()) {
            Some((len, kind, n, m)) => {
                self.cur_len = len;
                self.cur_kind = kind;
                let _ = buf_split_to(buf, n);
                m
            },
            None => {
                assert(false);
                None
            },
        }
    }

    /// `decode` where the frame can be read; where it cannot (see
    /// `server_decode_step`), nothing, with the codec and `buf` left as they were.
    pub fn try_decode(&mut self, buf: &mut bytes::BytesMut) -> (r: Option<Option<ServerMsg>>)
        ensures
            match server_decode_step(old(self)@, buf_contents(*old(buf))) {
                None => r is None && final(self)@ == old(self)@ && buf_contents(*final(buf))
                    == buf_contents(*old(buf)),
                Some((st, n, m)) => r matches Some(x) && final(self)@ == st && buf_contents(
                    *final(buf),
                ) == buf_contents(*old(buf)).skip(n as int) && server_opt_view(x) == m,
            },
    {
        let data = buf_to_vec(buf);
        match self.step(data.as_slice()) {
            None => None,
            Some(_) => Some(self.decode(buf)),
        }
    }
}

/// Bytes that arrive in two pieces decode as if they had come at once: when
/// the first piece `a` does not hold the whole frame, decoding it and then the
/// rest of it followed by `b` gives the same message and state as decoding
/// `a + b`, and takes the same number of bytes in all.
pub proof fn lemma_server_decode_in_pieces(st: ServerCodecState, a: Seq<u8>, b: Seq<u8>)
    requires
        frame_header(st.len, st.kind, a) is Pending,
    ensures
        server_decode_step(st, a) is Some,
        ({
            let (st1, n1, m1) = server_decode_step(st, a).unwrap();
            &&& m1 is None
            &&& match (server_decode_step(st1, a.skip(n1 as int) + b), server_decode_step(st, a + b)) {
                (Some((s2, n2, m2)), Some((s3, n3, m3))) => s2 == s3 && n1 + n2 == n3 && m2 == m3,
                (None, None) => true,
                _ => false,
            }
        }),
{
    lemma_frame_header_in_pieces(st.len, st.kind, a, b);
    let whole = a + b;
    match frame_header(st.len, st.kind, a) {
        FrameHeader::Pending { len: len1, kind: kind1, taken } => {
            let t = taken as int;
            let second = a.skip(t) + b;
            match frame_header(len1, kind1, second) {
                FrameHeader::Body { kind: k2, start: s2, size: z2 } => {
                    assert(second.subrange(s2 as int, s2 + z2) =~= whole.subrange(
                        t + s2,
                        t + s2 + z2,
                    ));
                },
                _ => {},
            }
        },
        _ => {},
    }
}

/// Setting names one after the other into a table whose names are distinct
/// leaves them distinct.
proof fn lemma_net_users_distinct(
    d: Seq<u8>,
    p: int,
    n: nat,
    acc: Seq<(Seq<char>, (Ipv4Addr, u32))>,
)
    requires
        distinct_keys(acc),
    ensures
        read_net_users(d, p, n, acc) matches Some(t) ==> distinct_keys(t),
    decreases n,
{
    if n > 0 {
        if let Some((user, p1)) = read_string(d, p) {
            if let Some((ip, p2)) = read_ip(d, p1) {
                if let Some((port, p3)) = read_u32(d, p2) {
                    lemma_table_insert_distinct(acc, user, (ip, port));
                    lemma_net_users_distinct(d, p3, (n - 1) as nat, table_insert(acc, user, (ip, port)));
                }
            }
        }
    }
}

/// Setting terms one after the other into a table whose terms are distinct
/// leaves them distinct.
proof fn lemma_related_entries_distinct(d: Seq<u8>, p: int, n: nat, acc: Seq<(Seq<char>, i32)>)
    requires
        distinct_keys(acc),
    ensures
        read_related_entries(d, p, n, acc) matches Some(t) ==> distinct_keys(t),
    decreases n,
{
    if n > 0 {
        if let Some((term, p1)) = read_string(d, p) {
            if let Some((score, p2)) = read_i32(d, p1) {
                lemma_table_insert_distinct(acc, term, score);
                lemma_related_entries_distinct(d, p2, (n - 1) as nat, table_insert(acc, term, score));
            }
        }
    }
}

/// The tables that the server sends are read with each name once: the users of
/// a network-info message and the terms of a related-search message are distinct.
pub proof fn lemma_server_tables_distinct(kind: u32, d: Seq<u8>)
    ensures
        match server_body_msg(kind, d) {
            Some(Some(SpecServerMsg::SNetInfo { users })) => distinct_keys(users),
            Some(Some(SpecServerMsg::SRelatedSearch { related_searches, .. })) => distinct_keys(
                related_searches,
            ),
            _ => true,
        },
{
    reveal(server_body_msg);
    if kind == 102 {
        if let Some((count, p1)) = read_u32(d, 0) {
            lemma_net_users_distinct(d, p1, count as nat, Seq::empty());
        }
    } else if kind == 153 {
        if let Some((query, p1)) = read_string(d, 0) {
            if let Some((count, p2)) = read_u32(d, p1) {
                lemma_related_entries_distinct(d, p2, count as nat, Seq::empty());
            }
        }
    }
}


/// A login frame carries, right after the version field 183, the MD5 digest of
/// the user name's bytes followed by the password's bytes, in lower-case hex
/// (high nibble first) padded with zeros to 65 bytes, and then the field 1.
pub proof fn lemma_login_carries_md5_of_user_then_password(username: Seq<char>, password: Seq<char>)
    ensures
        ({
            let f = server_frame(SpecServerMsg::CLogin { username, password });
            let off = 12 + packed_string(username).len() as int + packed_string(password).len() as int;
            &&& f.len() == off + 69
            &&& f.subrange(off - 4, off) == seq![183u8, 0u8, 0u8, 0u8]
            &&& f.subrange(off, off + 65) == hex_digest_bytes(
                md5_digest(str_bytes(username) + str_bytes(password)),
                16,
            )
            &&& f.subrange(off + 65, off + 69) == seq![1u8, 0u8, 0u8, 0u8]
        }),
{
    let m = SpecServerMsg::CLogin { username, password };
    let u = packed_string(username);
    let p = packed_string(password);
    let h = hex_digest_bytes(md5_digest(str_bytes(username) + str_bytes(password)), 16);
    let body = le_u32(1) + u + p + (seq![183u8, 0u8, 0u8, 0u8] + h + seq![1u8, 0u8, 0u8, 0u8]);
    assert(server_body(m) =~= body);
    let f = server_frame(m);
    let off = 12 + u.len() as int + p.len() as int;
    assert(h.len() == 65);
    assert(f =~= le_u32(len32(body.len())) + le_u32(1) + u + p + seq![183u8, 0u8, 0u8, 0u8] + h
        + seq![1u8, 0u8, 0u8, 0u8]);
    assert(f.subrange(off - 4, off) =~= seq![183u8, 0u8, 0u8, 0u8]);
    assert(f.subrange(off, off + 65) =~= h);
    assert(f.subrange(off + 65, off + 69) =~= seq![1u8, 0u8, 0u8, 0u8]);
}

} // verus!
