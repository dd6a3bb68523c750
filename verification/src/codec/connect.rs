//! What a connect-to-peer request from the server reads as, field by field.
use vstd::prelude::*;
use crate::codec::server::{
    SConnectToPeerKind, ServerCodecState, SpecServerMsg, connect_kind_from_name, connect_kind_name,
    lemma_connect_kind_name_roundtrip, read_connect_to_peer, server_body_msg, server_decode_step,
};
use crate::codec::wire::{
    Ipv4Addr, le_u32, lemma_frame_header_whole, lemma_read_string_at, lemma_read_u32_at, lemma_split_at,
    packed_string, read_ip, read_string, read_u32, read_u8, str_bytes,
};

verus! {

/// The body of a connect-to-peer request from the server: the user name, the
/// connection kind's letter, the address (last octet first), the port, the
/// token, the 32-bit obfuscation field, the privileged byte and the obfuscated
/// port.
pub open spec fn connect_to_peer_body(
    username: Seq<char>,
    kind: SConnectToPeerKind,
    ip: Ipv4Addr,
    port: u32,
    token: u32,
    obf: u32,
    privileged: u8,
    obfuscated_port: u32,
) -> Seq<u8> {
    packed_string(username) + (packed_string(connect_kind_name(kind)) + (seq![ip.d, ip.c, ip.b, ip.a]
        + (le_u32(port) + (le_u32(token) + (le_u32(obf) + (seq![privileged] + le_u32(
        obfuscated_port,
    )))))))
}

/// A connect-to-peer body reads whole once each of its fields does.
proof fn lemma_connect_parts(
    d: Seq<u8>,
    username: Seq<char>,
    kind: SConnectToPeerKind,
    ip: Ipv4Addr,
    port: u32,
    token: u32,
    obf: u32,
    privileged: u8,
    obfuscated_port: u32,
    p1: int,
    p2: int,
    p3: int,
)
    requires
        read_string(d, 0) == Some((username, p1)),
        read_string(d, p1) == Some((connect_kind_name(kind), p2)),
        connect_kind_from_name(connect_kind_name(kind)) == Some(kind),
        read_ip(d, p2) == Some((ip, p3)),
        read_u32(d, p3) == Some((port, p3 + 4)),
        read_u32(d, p3 + 4) == Some((token, p3 + 8)),
        read_u32(d, p3 + 8) == Some((obf, p3 + 12)),
        read_u8(d, p3 + 12) == Some((privileged, p3 + 13)),
        read_u32(d, p3 + 13) == Some((obfuscated_port, p3 + 17)),
    ensures
        read_connect_to_peer(d) == Some(
            SpecServerMsg::SConnectToPeer {
                username,
                kind,
                ip,
                port,
                token,
                use_obfuscation: obf != 0,
                privileged: privileged == 1,
                obfuscated_port,
            },
        ),
{
}

/// The two strings of a connect-to-peer body read back from where they stand.
proof fn lemma_connect_strings(d: Seq<u8>, username: Seq<char>, name: Seq<char>, p1: int, p2: int)
    requires
        str_bytes(username).len() < 0x1_0000_0000,
        str_bytes(name).len() < 0x1_0000_0000,
        p1 == packed_string(username).len(),
        p2 == p1 + packed_string(name).len(),
        p2 <= d.len(),
        d.subrange(0, p1) == packed_string(username),
        d.subrange(p1, p2) == packed_string(name),
    ensures
        read_string(d, 0) == Some((username, p1)),
        read_string(d, p1) == Some((name, p2)),
{
    lemma_read_string_at(d, 0, username);
    lemma_read_string_at(d, p1, name);
}

/// The fixed-width fields of a connect-to-peer body read back from where they
/// stand.
proof fn lemma_connect_numbers(
    d: Seq<u8>,
    p2: int,
    ip: Ipv4Addr,
    port: u32,
    token: u32,
    obf: u32,
    privileged: u8,
    obfuscated_port: u32,
)
    requires
        0 <= p2,
        p2 + 21 <= d.len(),
        d.subrange(p2, p2 + 4) == seq![ip.d, ip.c, ip.b, ip.a],
        d.subrange(p2 + 4, p2 + 8) == le_u32(port),
        d.subrange(p2 + 8, p2 + 12) == le_u32(token),
        d.subrange(p2 + 12, p2 + 16) == le_u32(obf),
        d.subrange(p2 + 16, p2 + 17) == seq![privileged],
        d.subrange(p2 + 17, p2 + 21) == le_u32(obfuscated_port),
    ensures
        read_ip(d, p2) == Some((ip, p2 + 4)),
        read_u32(d, p2 + 4) == Some((port, p2 + 8)),
        read_u32(d, p2 + 8) == Some((token, p2 + 12)),
        read_u32(d, p2 + 12) == Some((obf, p2 + 16)),
        read_u8(d, p2 + 16) == Some((privileged, p2 + 17)),
        read_u32(d, p2 + 17) == Some((obfuscated_port, p2 + 21)),
{
    assert(d.subrange(p2, p2 + 4)[0] == d[p2]);
    assert(d.subrange(p2 + 16, p2 + 17)[0] == d[p2 + 16]);
    lemma_read_u32_at(d, p2 + 4, port);
    lemma_read_u32_at(d, p2 + 8, token);
    lemma_read_u32_at(d, p2 + 12, obf);
    lemma_read_u32_at(d, p2 + 17, obfuscated_port);
}

/// Where the fields of a connect-to-peer body stand.
proof fn lemma_connect_layout(
    username: Seq<char>,
    kind: SConnectToPeerKind,
    ip: Ipv4Addr,
    port: u32,
    token: u32,
    obf: u32,
    privileged: u8,
    obfuscated_port: u32,
)
    ensures
        ({
            let d = connect_to_peer_body(username, kind, ip, port, token, obf, privileged, obfuscated_port);
            let p1 = packed_string(username).len() as int;
            let p2 = p1 + packed_string(connect_kind_name(kind)).len();
            &&& d.len() == p2 + 21
            &&& d.subrange(0, p1) == packed_string(username)
            &&& d.subrange(p1, p2) == packed_string(connect_kind_name(kind))
            &&& d.subrange(p2, p2 + 4) == seq![ip.d, ip.c, ip.b, ip.a]
            &&& d.subrange(p2 + 4, p2 + 8) == le_u32(port)
            &&& d.subrange(p2 + 8, p2 + 12) == le_u32(token)
            &&& d.subrange(p2 + 12, p2 + 16) == le_u32(obf)
            &&& d.subrange(p2 + 16, p2 + 17) == seq![privileged]
            &&& d.subrange(p2 + 17, p2 + 21) == le_u32(obfuscated_port)
        }),
{
    let d = connect_to_peer_body(username, kind, ip, port, token, obf, privileged, obfuscated_port);
    let u = packed_string(username);
    let k = packed_string(connect_kind_name(kind));
    let ipb = seq![ip.d, ip.c, ip.b, ip.a];
    let r7 = seq![privileged] + le_u32(obfuscated_port);
    let r6 = le_u32(obf) + r7;
    let r5 = le_u32(token) + r6;
    let r4 = le_u32(port) + r5;
    let r3 = ipb + r4;
    let r2 = k + r3;
    assert(d.subrange(0, d.len() as int) =~= d);
    lemma_split_at(d, 0, u, r2);
    let p1 = u.len() as int;
    lemma_split_at(d, p1, k, r3);
    let p2 = p1 + k.len();
    lemma_split_at(d, p2, ipb, r4);
    let p3 = p2 + 4;
    lemma_split_at(d, p3, le_u32(port), r5);
    lemma_split_at(d, p3 + 4, le_u32(token), r6);
    lemma_split_at(d, p3 + 8, le_u32(obf), r7);
    lemma_split_at(d, p3 + 12, seq![privileged], le_u32(obfuscated_port));
}

/// The fields of a connect-to-peer body read back.
proof fn lemma_connect_to_peer_body(
    username: Seq<char>,
    kind: SConnectToPeerKind,
    ip: Ipv4Addr,
    port: u32,
    token: u32,
    obf: u32,
    privileged: u8,
    obfuscated_port: u32,
)
    requires
        connect_to_peer_body(username, kind, ip, port, token, obf, privileged, obfuscated_port).len()
            < 0x1_0000_0000,
    ensures
        read_connect_to_peer(
            connect_to_peer_body(username, kind, ip, port, token, obf, privileged, obfuscated_port),
        ) == Some(
            SpecServerMsg::SConnectToPeer {
                username,
                kind,
                ip,
                port,
                token,
                use_obfuscation: obf != 0,
                privileged: privileged == 1,
                obfuscated_port,
            },
        ),
{
    let d = connect_to_peer_body(username, kind, ip, port, token, obf, privileged, obfuscated_port);
    lemma_connect_layout(username, kind, ip, port, token, obf, privileged, obfuscated_port);
    let p1 = packed_string(username).len() as int;
    let p2 = p1 + packed_string(connect_kind_name(kind)).len();
    lemma_connect_strings(d, username, connect_kind_name(kind), p1, p2);
    lemma_connect_numbers(d, p2, ip, port, token, obf, privileged, obfuscated_port);
    lemma_connect_kind_name_roundtrip(kind);
    lemma_connect_parts(d, username, kind, ip, port, token, obf, privileged, obfuscated_port, p1, p2, p2 + 4);
}

/// A body of code 18 reads as a connect-to-peer request.
proof fn lemma_body_msg_18(body: Seq<u8>)
    requires
        read_connect_to_peer(body) is Some,
    ensures
        server_body_msg(18, body) == Some(read_connect_to_peer(body)),
{
    reveal(server_body_msg);
}

/// A whole frame of code 18 decodes as what its body reads as.
proof fn lemma_code_18_frame(body: Seq<u8>, rest: Seq<u8>, m: Option<SpecServerMsg>)
    requires
        body.len() + 4 <= u32::MAX,
        server_body_msg(18, body) == Some(m),
    ensures
        ({
            let frame = le_u32((body.len() + 4) as u32) + le_u32(18) + body;
            let fresh = ServerCodecState { len: None, kind: None };
            server_decode_step(fresh, frame + rest) == Some((fresh, frame.len(), m))
        }),
{
    let frame = le_u32((body.len() + 4) as u32) + le_u32(18) + body;
    lemma_frame_header_whole(18, body, rest);
    assert((frame + rest).subrange(8, 8 + body.len() as int) == body);
}

/// A connect-to-peer frame (code 18) from the server decodes as a request to
/// connect to that user, with the kind its letter names, the address, port and
/// token written, obfuscation asked for exactly when the obfuscation field is
/// not zero, privilege exactly when the privileged byte is 1, and the obfuscated
/// port; the whole frame is taken and the codec is left between frames.
pub proof fn lemma_connect_to_peer_frame(
    username: Seq<char>,
    kind: SConnectToPeerKind,
    ip: Ipv4Addr,
    port: u32,
    token: u32,
    obf: u32,
    privileged: u8,
    obfuscated_port: u32,
    rest: Seq<u8>,
)
    requires
        connect_to_peer_body(username, kind, ip, port, token, obf, privileged, obfuscated_port).len()
            + 4 <= u32::MAX,
    ensures
        ({
            let body = connect_to_peer_body(
                username,
                kind,
                ip,
                port,
                token,
                obf,
                privileged,
                obfuscated_port,
            );
            let frame = le_u32((body.len() + 4) as u32) + le_u32(18) + body;
            let fresh = ServerCodecState { len: None, kind: None };
            server_decode_step(fresh, frame + rest) == Some(
                (
                    fresh,
                    frame.len(),
                    Some(
                        SpecServerMsg::SConnectToPeer {
                            username,
                            kind,
                            ip,
                            port,
                            token,
                            use_obfuscation: obf != 0,
                            privileged: privileged == 1,
                            obfuscated_port,
                        },
                    ),
                ),
            )
        }),
{
    let body = connect_to_peer_body(username, kind, ip, port, token, obf, privileged, obfuscated_port);
    lemma_connect_to_peer_body(username, kind, ip, port, token, obf, privileged, obfuscated_port);
    lemma_body_msg_18(body);
    lemma_code_18_frame(body, rest, read_connect_to_peer(body));
}

} // verus!
