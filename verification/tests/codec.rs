use bytes::BytesMut;
use museek::codec::daemon::{CLoginAlgorithm, CSearchKind, DaemonMsg, DaemonMsgCodec};
use museek::codec::peer::{
    obfuscate, parse_search_reply, rotate_key, unpack_file_entry_u32, unpack_file_entry_u64, PeerMsg,
    PeerMsgCodec,
};
use museek::codec::server::{CSetStatusStatus, SConnectToPeerKind, ServerMsg, ServerMsgCodec};
use museek::codec::structs::FileEntry;
use museek::codec::util::{
    compress, decompress, get_ip, get_ip2, get_string, get_string2, pack_ip, pack_path_string,
    pack_string,
};
use museek::codec::wire::{Cursor, Ipv4Addr};

fn le(x: u32) -> Vec<u8> {
    x.to_le_bytes().to_vec()
}

fn packed(s: &str) -> Vec<u8> {
    let mut v = le(s.len() as u32);
    v.extend_from_slice(s.as_bytes());
    v
}

#[test]
fn pack_string_writes_length_then_bytes() {
    let mut b = BytesMut::new();
    pack_string("héllo", &mut b);
    assert_eq!(&b[..], &[6, 0, 0, 0, b'h', 0xc3, 0xa9, b'l', b'l', b'o'][..]);
}

#[test]
fn get_string_reads_back_pack_string() {
    let mut b = BytesMut::new();
    pack_string("squarepusher", &mut b);
    b.extend_from_slice(&[9, 9]);
    let s = get_string(&mut b);
    assert_eq!(s, "squarepusher");
    assert_eq!(&b[..], &[9, 9][..]);
}

#[test]
fn get_string2_reads_at_the_cursor() {
    let mut data = vec![0xff];
    data.extend(packed("abc"));
    data.push(7);
    let mut c = Cursor::new(data);
    c.advance(1);
    assert_eq!(get_string2(&mut c), "abc");
    assert_eq!(c.position(), 8);
    assert_eq!(c.remaining(), 1);
}

#[test]
fn try_string_refuses_invalid_utf8_and_short_input() {
    let mut data = le(2);
    data.extend_from_slice(&[0xff, 0xfe]);
    let mut c = Cursor::new(data);
    assert!(c.try_string().is_none());
    assert_eq!(c.position(), 0);
    let mut short = Cursor::new(vec![5, 0, 0, 0, b'a']);
    assert!(short.try_string().is_none());
    assert_eq!(short.position(), 0);
}

#[test]
fn pack_path_string_turns_slashes_into_backslashes() {
    let mut b = BytesMut::new();
    pack_path_string("music/a.mp3", &mut b);
    let mut expected = le(11);
    expected.extend_from_slice(b"music\\a.mp3");
    assert_eq!(&b[..], &expected[..]);
}

#[test]
fn pack_path_string_keeps_utf8_length_and_cuts_characters() {
    let mut b = BytesMut::new();
    pack_path_string("é/", &mut b);
    assert_eq!(&b[..], &[3, 0, 0, 0, 0xe9, b'\\'][..]);
}

#[test]
fn ip_is_written_in_order_and_read_last_octet_first() {
    let mut b = BytesMut::new();
    pack_ip(&Ipv4Addr::new(192, 168, 1, 101), &mut b);
    assert_eq!(&b[..], &[192, 168, 1, 101][..]);
    let ip = get_ip(&mut b);
    assert_eq!(ip, Ipv4Addr::new(101, 1, 168, 192));
    assert_eq!(b.len(), 0);
    let mut c = Cursor::new(vec![4, 3, 2, 1]);
    assert_eq!(get_ip2(&mut c), Ipv4Addr::new(1, 2, 3, 4));
    assert_eq!(Ipv4Addr::new(1, 2, 3, 4).octets(), [1, 2, 3, 4]);
}

#[test]
fn compress_then_decompress_gives_the_bytes_back() {
    let text = b"hello hello hello hello hello".to_vec();
    let mut c = Cursor::new(text.clone());
    let packed = compress(&mut c);
    assert_eq!(c.remaining(), 0);
    assert_ne!(&packed[..], &text[..]);
    assert_eq!(packed[0], 0x78);
    let mut d = Cursor::new(packed.to_vec());
    let unpacked = decompress(&mut d);
    assert_eq!(&unpacked[..], &text[..]);
}

#[test]
fn algorithm_names() {
    assert_eq!(CLoginAlgorithm::Sha256.into_string(), "SHA256");
    assert_eq!(CLoginAlgorithm::from("MD5".to_string()), CLoginAlgorithm::Md5);
    assert_eq!(CLoginAlgorithm::from_name(&"sha1".to_string()), None);
    assert_eq!(CSearchKind::from_u32(2), Some(CSearchKind::Room));
    assert_eq!(CSearchKind::from_u32(3), None);
    assert_eq!(SConnectToPeerKind::Distributed.into_string(), "D");
    assert_eq!(SConnectToPeerKind::from("F".to_string()), SConnectToPeerKind::File);
    assert_eq!(CSetStatusStatus::Offline.to_u32(), 2);
    assert_eq!(CSetStatusStatus::from_u32(1), Some(CSetStatusStatus::Online));
    assert_eq!(CSetStatusStatus::from_u32(0), None);
}

#[test]
fn daemon_encodes_ping_and_search() {
    let mut codec = DaemonMsgCodec::new();
    let mut b = BytesMut::new();
    codec.encode(DaemonMsg::SPing { id: 7 }, &mut b);
    assert_eq!(&b[..], &[8, 0, 0, 0, 0, 0, 0, 0, 7, 0, 0, 0][..]);
    let mut b = BytesMut::new();
    codec.encode(DaemonMsg::SSearch { query: "ab".to_string(), token: 3 }, &mut b);
    assert_eq!(&b[..], &[14, 0, 0, 0, 1, 4, 0, 0, 2, 0, 0, 0, b'a', b'b', 3, 0, 0, 0][..]);
}

#[test]
fn daemon_encodes_login_reply_and_challenge() {
    let mut codec = DaemonMsgCodec::new();
    let mut b = BytesMut::new();
    codec.encode(
        DaemonMsg::SLogin { success: true, message: "hi".to_string(), challenge: String::new() },
        &mut b,
    );
    let mut expected = le(4 + 4 + 6 + 4);
    expected.extend(le(2));
    expected.extend(le(1));
    expected.extend(packed("hi"));
    expected.extend(packed(""));
    assert_eq!(&b[..], &expected[..]);
    let mut b = BytesMut::new();
    codec.encode(DaemonMsg::SChallenge { version: 4, challenge: "abc".to_string() }, &mut b);
    let mut expected = le(4 + 4 + 7);
    expected.extend(le(1));
    expected.extend(le(4));
    expected.extend(packed("abc"));
    assert_eq!(&b[..], &expected[..]);
}

fn daemon_frame(code: u32, body: &[u8]) -> Vec<u8> {
    let mut v = le(body.len() as u32 + 4);
    v.extend(le(code));
    v.extend_from_slice(body);
    v
}

#[test]
fn daemon_decodes_ping_in_pieces() {
    let frame = daemon_frame(0, &le(5));
    let mut codec = DaemonMsgCodec::new();
    let mut b = BytesMut::from(&frame[..6]);
    assert!(codec.decode(&mut b).is_none());
    assert_eq!(b.len(), 2);
    b.extend_from_slice(&frame[6..]);
    b.extend_from_slice(&[1, 2]);
    match codec.decode(&mut b) {
        Some(DaemonMsg::CPing { id }) => assert_eq!(id, 5),
        other => panic!("unexpected {:?}", other),
    }
    assert_eq!(&b[..], &[1, 2][..]);
}

#[test]
fn daemon_decodes_login_and_search() {
    let mut body = packed("SHA256");
    body.extend(packed("resp"));
    body.extend(le(9));
    let mut b = BytesMut::from(&daemon_frame(2, &body)[..]);
    let mut codec = DaemonMsgCodec::new();
    match codec.decode(&mut b) {
        Some(DaemonMsg::CLogin { algorithm, challenge_response, mask }) => {
            assert_eq!(algorithm, CLoginAlgorithm::Sha256);
            assert_eq!(challenge_response, "resp");
            assert_eq!(mask, 9);
        },
        other => panic!("unexpected {:?}", other),
    }
    let mut body = le(1);
    body.extend(packed("boards"));
    let mut b = BytesMut::from(&daemon_frame(0x0401, &body)[..]);
    match codec.decode(&mut b) {
        Some(DaemonMsg::CSearch { kind, query }) => {
            assert_eq!(kind, CSearchKind::Buddies);
            assert_eq!(query, "boards");
        },
        other => panic!("unexpected {:?}", other),
    }
}

#[test]
fn daemon_skips_unknown_codes() {
    let mut frame = daemon_frame(77, &[1, 2, 3]);
    frame.extend(daemon_frame(0, &le(4)));
    let mut b = BytesMut::from(&frame[..]);
    let mut codec = DaemonMsgCodec::new();
    assert!(codec.decode(&mut b).is_none());
    match codec.decode(&mut b) {
        Some(DaemonMsg::CPing { id }) => assert_eq!(id, 4),
        other => panic!("unexpected {:?}", other),
    }
}

#[test]
fn daemon_refuses_malformed_frames() {
    let mut body = packed("SHA3");
    body.extend(packed("x"));
    body.extend(le(0));
    let mut b = BytesMut::from(&daemon_frame(2, &body)[..]);
    let before = b.len();
    let mut codec = DaemonMsgCodec::new();
    assert!(codec.try_decode(&mut b).is_none());
    assert_eq!(b.len(), before);
    let mut body = le(3);
    body.extend(packed("q"));
    let mut b = BytesMut::from(&daemon_frame(0x0401, &body)[..]);
    assert!(codec.try_decode(&mut b).is_none());
    let mut b = BytesMut::from(&[2u8, 0, 0, 0, 0, 0, 0, 0][..]);
    assert!(codec.try_decode(&mut b).is_none());
    let mut b = BytesMut::from(&daemon_frame(0, &[1, 2])[..]);
    assert!(codec.try_decode(&mut b).is_none());
    let mut b = BytesMut::from(&daemon_frame(0, &le(6))[..]);
    match codec.try_decode(&mut b) {
        Some(Some(DaemonMsg::CPing { id })) => assert_eq!(id, 6),
        _ => panic!("expected a ping"),
    }
}

fn server_frame(code: u32, body: &[u8]) -> Vec<u8> {
    daemon_frame(code, body)
}

#[test]
fn server_encodes_simple_messages() {
    let mut codec = ServerMsgCodec::new();
    let mut b = BytesMut::new();
    codec.encode(ServerMsg::CSetStatus { status: CSetStatusStatus::Online }, &mut b);
    assert_eq!(&b[..], &[8, 0, 0, 0, 71, 0, 0, 0, 1, 0, 0, 0][..]);
    let mut b = BytesMut::new();
    codec.encode(ServerMsg::CHaveNoParents { have_parents: true }, &mut b);
    assert_eq!(&b[..], &[5, 0, 0, 0, 71, 0, 0, 0, 1][..]);
    let mut b = BytesMut::new();
    codec.encode(ServerMsg::CSetListenPort { port: 51673, use_obfuscation: true }, &mut b);
    let mut expected = le(12);
    expected.extend(le(2));
    expected.extend(le(51673));
    expected.extend(le(1));
    assert_eq!(&b[..], &expected[..]);
    let mut b = BytesMut::new();
    codec.encode(ServerMsg::CParentIp { ip: Ipv4Addr::new(10, 0, 0, 1) }, &mut b);
    assert_eq!(&b[..], &[8, 0, 0, 0, 153, 0, 0, 0, 10, 0, 0, 1][..]);
    let mut b = BytesMut::new();
    codec.encode(ServerMsg::CFileSearch { token: 123, query: "squarepusher".to_string() }, &mut b);
    let mut expected = le(4 + 4 + 16);
    expected.extend(le(26));
    expected.extend(le(123));
    expected.extend(packed("squarepusher"));
    assert_eq!(&b[..], &expected[..]);
    let mut b = BytesMut::new();
    codec.encode(ServerMsg::CSharedFoldersFiles { folders: 1, files: 2 }, &mut b);
    assert_eq!(&b[..], &[12, 0, 0, 0, 35, 0, 0, 0, 1, 0, 0, 0, 2, 0, 0, 0][..]);
    let mut b = BytesMut::new();
    codec.encode(ServerMsg::CGetPeerAddress { username: "u".to_string() }, &mut b);
    assert_eq!(&b[..], &[9, 0, 0, 0, 3, 0, 0, 0, 1, 0, 0, 0, b'u'][..]);
    let mut b = BytesMut::new();
    codec.encode(ServerMsg::CRelatedSearch { query: "q".to_string() }, &mut b);
    assert_eq!(&b[..], &[9, 0, 0, 0, 153, 0, 0, 0, 1, 0, 0, 0, b'q'][..]);
}

#[test]
fn server_login_carries_md5_of_user_and_password_in_hex() {
    let mut codec = ServerMsgCodec::new();
    let mut b = BytesMut::new();
    codec.encode(ServerMsg::CLogin { username: String::new(), password: String::new() }, &mut b);
    let mut body = le(1);
    body.extend(le(0));
    body.extend(le(0));
    body.extend_from_slice(&[183, 0, 0, 0]);
    body.extend_from_slice(b"d41d8cd98f00b204e9800998ecf8427e");
    body.extend_from_slice(&[0u8; 33]);
    body.extend_from_slice(&[1, 0, 0, 0]);
    let mut expected = le(body.len() as u32);
    expected.extend(body);
    assert_eq!(&b[..], &expected[..]);
}

#[test]
fn server_decodes_login_replies() {
    let mut body = vec![1u8];
    body.extend(packed("welcome"));
    body.extend_from_slice(&[4, 3, 2, 1, 0]);
    let mut b = BytesMut::from(&server_frame(1, &body)[..]);
    let mut codec = ServerMsgCodec::new();
    match codec.decode(&mut b) {
        Some(ServerMsg::SLogin { success, greet, public_ip, unknown }) => {
            assert!(success);
            assert_eq!(greet, "welcome");
            assert_eq!(public_ip, Some(Ipv4Addr::new(1, 2, 3, 4)));
            assert_eq!(unknown, Some(false));
        },
        other => panic!("unexpected {:?}", other),
    }
    let mut body = vec![0u8];
    body.extend(packed("no"));
    let mut b = BytesMut::from(&server_frame(1, &body)[..]);
    match codec.decode(&mut b) {
        Some(ServerMsg::SLogin { success, greet, public_ip, unknown }) => {
            assert!(!success);
            assert_eq!(greet, "no");
            assert_eq!(public_ip, None);
            assert_eq!(unknown, None);
        },
        other => panic!("unexpected {:?}", other),
    }
}

#[test]
fn server_decodes_peer_address_and_connect_request() {
    let mut body = packed("alice");
    body.extend_from_slice(&[1, 0, 0, 127]);
    body.extend(le(2234));
    body.extend(le(1));
    body.extend_from_slice(&[0x39, 0x30]);
    let mut b = BytesMut::from(&server_frame(3, &body)[..]);
    let mut codec = ServerMsgCodec::new();
    match codec.decode(&mut b) {
        Some(ServerMsg::SGetPeerAddress { username, ip, port, use_obfuscation, obfuscated_port }) => {
            assert_eq!(username, "alice");
            assert_eq!(ip, Ipv4Addr::new(127, 0, 0, 1));
            assert_eq!(port, 2234);
            assert!(use_obfuscation);
            assert_eq!(obfuscated_port, 12345);
        },
        other => panic!("unexpected {:?}", other),
    }
    let mut body = packed("bob");
    body.extend(packed("F"));
    body.extend_from_slice(&[4, 3, 2, 1]);
    body.extend(le(10));
    body.extend(le(11));
    body.extend(le(2));
    body.push(1);
    body.extend(le(12));
    let mut b = BytesMut::from(&server_frame(18, &body)[..]);
    match codec.decode(&mut b) {
        Some(ServerMsg::SConnectToPeer {
            username,
            kind,
            ip,
            port,
            token,
            use_obfuscation,
            privileged,
            obfuscated_port,
        }) => {
            assert_eq!(username, "bob");
            assert_eq!(kind, SConnectToPeerKind::File);
            assert_eq!(ip, Ipv4Addr::new(1, 2, 3, 4));
            assert_eq!((port, token, obfuscated_port), (10, 11, 12));
            assert!(use_obfuscation);
            assert!(privileged);
        },
        other => panic!("unexpected {:?}", other),
    }
    let mut body = packed("bob");
    body.extend(packed("X"));
    body.extend_from_slice(&[0; 21]);
    let mut b = BytesMut::from(&server_frame(18, &body)[..]);
    assert!(codec.try_decode(&mut b).is_none());
}

#[test]
fn server_tables_keep_one_entry_per_name() {
    let mut body = le(3);
    body.extend(packed("a"));
    body.extend_from_slice(&[1, 0, 0, 10]);
    body.extend(le(1));
    body.extend(packed("b"));
    body.extend_from_slice(&[2, 0, 0, 10]);
    body.extend(le(2));
    body.extend(packed("a"));
    body.extend_from_slice(&[3, 0, 0, 10]);
    body.extend(le(3));
    let mut b = BytesMut::from(&server_frame(102, &body)[..]);
    let mut codec = ServerMsgCodec::new();
    match codec.decode(&mut b) {
        Some(ServerMsg::SNetInfo { users }) => {
            assert_eq!(
                users,
                vec![
                    ("a".to_string(), (Ipv4Addr::new(10, 0, 0, 3), 3)),
                    ("b".to_string(), (Ipv4Addr::new(10, 0, 0, 2), 2)),
                ]
            );
        },
        other => panic!("unexpected {:?}", other),
    }
    let mut body = packed("query");
    body.extend(le(2));
    body.extend(packed("x"));
    body.extend((-5i32).to_le_bytes());
    body.extend(packed("y"));
    body.extend(7i32.to_le_bytes());
    let mut b = BytesMut::from(&server_frame(153, &body)[..]);
    match codec.decode(&mut b) {
        Some(ServerMsg::SRelatedSearch { query, related_searches }) => {
            assert_eq!(query, "query");
            assert_eq!(related_searches, vec![("x".to_string(), -5), ("y".to_string(), 7)]);
        },
        other => panic!("unexpected {:?}", other),
    }
}

#[test]
fn server_reads_single_value_messages_and_skips_others() {
    let mut codec = ServerMsgCodec::new();
    let mut b = BytesMut::from(&server_frame(104, &le(600))[..]);
    match codec.decode(&mut b) {
        Some(ServerMsg::SWishlistInterval(v)) => assert_eq!(v, 600),
        other => panic!("unexpected {:?}", other),
    }
    let mut b = BytesMut::from(&server_frame(83, &le(1))[..]);
    match codec.decode(&mut b) {
        Some(ServerMsg::SParentMinSpeed(v)) => assert_eq!(v, 1),
        other => panic!("unexpected {:?}", other),
    }
    let mut b = BytesMut::from(&server_frame(32, &[])[..]);
    assert!(codec.decode(&mut b).is_none());
    assert_eq!(b.len(), 0);
    let mut b = BytesMut::from(&server_frame(23, &[1])[..]);
    assert!(codec.try_decode(&mut b).is_none());
    assert_eq!(b.len(), 9);
}

fn entry_bytes(name: &str, size: u64, ext: &str, attrs: &[u32]) -> Vec<u8> {
    let mut v = vec![1u8];
    v.extend(packed(name));
    v.extend_from_slice(&size.to_le_bytes());
    v.extend(packed(ext));
    v.extend(le(attrs.len() as u32));
    for a in attrs {
        v.extend(le(0));
        v.extend(le(*a));
    }
    v
}

#[test]
fn file_entries_are_read_and_dropped_when_attributes_run_out() {
    let mut c = Cursor::new(entry_bytes("a.mp3", 1000, "mp3", &[320, 5]));
    let e = unpack_file_entry_u64(&mut c).unwrap();
    assert_eq!(
        e,
        FileEntry { filename: "a.mp3".to_string(), size: 1000, ext: "mp3".to_string(), attrs: vec![320, 5] }
    );
    assert_eq!(c.remaining(), 0);
    let mut bytes = entry_bytes("a", 7, "b", &[]);
    bytes.truncate(bytes.len() - 4);
    bytes.extend(le(2));
    bytes.extend_from_slice(&[0, 0]);
    let mut c = Cursor::new(bytes);
    assert!(unpack_file_entry_u64(&mut c).is_none());
    assert_eq!(c.remaining(), 0);
    let mut v = vec![0u8];
    v.extend(packed("x"));
    v.extend(le(99));
    v.extend(packed("y"));
    v.extend(le(0));
    let mut c = Cursor::new(v);
    let e = unpack_file_entry_u32(&mut c).unwrap();
    assert_eq!(e.size, 99);
    assert_eq!(e.attrs, Vec::<u32>::new());
}

fn reply_bytes(locked: bool) -> Vec<u8> {
    let mut v = packed("bob");
    v.extend(le(7));
    v.extend(le(1));
    v.extend(entry_bytes("a.mp3", 1000, "mp3", &[320]));
    v.push(1);
    v.extend(le(100));
    v.extend_from_slice(&2u64.to_le_bytes());
    if locked {
        v.extend(le(1));
        v.extend(entry_bytes("l.flac", 5, "flac", &[]));
    }
    v
}

#[test]
fn search_reply_is_parsed_from_its_body() {
    let msg = parse_search_reply(reply_bytes(false)).unwrap();
    let entry = FileEntry { filename: "a.mp3".to_string(), size: 1000, ext: "mp3".to_string(), attrs: vec![320] };
    assert_eq!(
        msg,
        PeerMsg::SearchReply {
            username: "bob".to_string(),
            token: 7,
            results: vec![entry.clone()],
            slots_free: true,
            average_speed: 100,
            queue_length: 2,
            locked_results: None,
        }
    );
    match parse_search_reply(reply_bytes(true)).unwrap() {
        PeerMsg::SearchReply { locked_results, .. } => {
            let locked = locked_results.unwrap();
            assert_eq!(locked.len(), 1);
            assert_eq!(locked[0].filename, "l.flac");
        },
        _ => panic!("expected a search reply"),
    }
    let mut short = reply_bytes(false);
    short.truncate(20);
    assert!(parse_search_reply(short).is_none());
}

#[test]
fn peer_decodes_a_compressed_search_reply() {
    let mut c = Cursor::new(reply_bytes(false));
    let body = compress(&mut c);
    let mut frame = le(body.len() as u32 + 4);
    frame.extend(le(9));
    frame.extend_from_slice(&body[..]);
    let mut b = BytesMut::from(&frame[..]);
    let mut codec = PeerMsgCodec::new(false);
    match codec.decode(&mut b) {
        Some(PeerMsg::SearchReply { username, token, results, .. }) => {
            assert_eq!(username, "bob");
            assert_eq!(token, 7);
            assert_eq!(results.len(), 1);
        },
        other => panic!("unexpected {:?}", other),
    }
    assert_eq!(b.len(), 0);
}

#[test]
fn peer_pierce_firewall_roundtrip_without_obfuscation() {
    let mut codec = PeerMsgCodec::new(false);
    let mut b = BytesMut::new();
    codec.encode(PeerMsg::HPierceFirewall { token: 77 }, &mut b);
    assert_eq!(&b[..], &[5, 0, 0, 0, 0, 77, 0, 0, 0][..]);
    assert_eq!(codec.decode(&mut b), Some(PeerMsg::HPierceFirewall { token: 77 }));
    assert_eq!(b.len(), 0);
}

#[test]
fn peer_obfuscated_frame_starts_with_the_key() {
    let codec = PeerMsgCodec::new(true);
    let mut b = BytesMut::new();
    codec.encode_with_key(PeerMsg::HPierceFirewall { token: 1 }, [221, 1, 148, 189], &mut b);
    assert_eq!(b.len(), 13);
    assert_eq!(&b[..4], &[221, 1, 148, 189][..]);
    assert_eq!(b[8], 0);
    assert_eq!(&b[4..8], &[5 ^ 187, 3, 40, 123][..]);
    let mut decoder = PeerMsgCodec::new(true);
    assert_eq!(decoder.decode(&mut b), Some(PeerMsg::HPierceFirewall { token: 1 }));
}

#[test]
fn peer_search_request_frame_and_its_reading() {
    let codec = PeerMsgCodec::new(false);
    let mut b = BytesMut::new();
    codec.encode_with_key(PeerMsg::SearchRequest { token: 2, query: "ab".to_string() }, [0; 4], &mut b);
    let mut expected = le(4 + 6);
    expected.extend(le(1));
    expected.extend(le(2));
    expected.extend(packed("ab"));
    assert_eq!(&b[..], &expected[..]);
    let mut frame = le(1 + 4 + 6);
    frame.push(1);
    frame.extend(le(2));
    frame.extend(packed("ab"));
    let mut b = BytesMut::from(&frame[..]);
    let mut decoder = PeerMsgCodec::new(false);
    assert_eq!(
        decoder.decode(&mut b),
        Some(PeerMsg::SearchRequest { token: 2, query: "ab".to_string() })
    );
}

#[test]
fn peer_waits_for_whole_frames_and_refuses_short_lengths() {
    let mut decoder = PeerMsgCodec::new(true);
    let mut b = BytesMut::from(&[1u8, 2, 3][..]);
    assert_eq!(decoder.decode(&mut b), None);
    assert_eq!(b.len(), 3);
    let mut decoder = PeerMsgCodec::new(false);
    let mut b = BytesMut::from(&[0u8, 0, 0, 0, 7, 0, 0, 0][..]);
    assert!(decoder.try_decode(&mut b).is_none());
    assert_eq!(b.len(), 8);
    let mut b = BytesMut::from(&[8u8, 0, 0, 0, 50, 0, 0, 0, 1, 2, 3, 4][..]);
    assert_eq!(decoder.decode(&mut b), None);
    assert_eq!(b.len(), 0);
}

#[test]
fn peer_decodes_a_compressed_search_reply_in_pieces() {
    let mut c = Cursor::new(reply_bytes(false));
    let body = compress(&mut c);
    let mut frame = le(body.len() as u32 + 4);
    frame.extend(le(9));
    frame.extend_from_slice(&body[..]);
    let mut codec = PeerMsgCodec::new(false);
    let mut b = BytesMut::from(&frame[..10]);
    assert_eq!(codec.decode(&mut b), None);
    assert_eq!(b.len(), 2);
    b.extend_from_slice(&frame[10..]);
    match codec.decode(&mut b) {
        Some(PeerMsg::SearchReply { username, token, .. }) => {
            assert_eq!(username, "bob");
            assert_eq!(token, 7);
        },
        other => panic!("unexpected {:?}", other),
    }
    assert_eq!(b.len(), 0);
}

#[test]
fn peer_decodes_an_obfuscated_frame_split_inside_its_length() {
    let codec = PeerMsgCodec::new(true);
    let mut whole = BytesMut::new();
    codec.encode_with_key(PeerMsg::HPierceFirewall { token: 9 }, [7, 1, 250, 3], &mut whole);
    let mut decoder = PeerMsgCodec::new(true);
    let mut b = BytesMut::from(&whole[..6]);
    assert_eq!(decoder.decode(&mut b), None);
    assert_eq!(b.len(), 2);
    b.extend_from_slice(&whole[6..]);
    assert_eq!(decoder.decode(&mut b), Some(PeerMsg::HPierceFirewall { token: 9 }));
    assert_eq!(b.len(), 0);
}

#[test]
fn peer_frame_split_after_a_handshake_code_is_read_with_a_four_byte_code_size() {
    let frame = [5u8, 0, 0, 0, 0, 77, 0, 0, 0];
    let mut decoder = PeerMsgCodec::new(false);
    let mut b = BytesMut::from(&frame[..8]);
    assert_eq!(decoder.decode(&mut b), None);
    assert_eq!(b.len(), 3);
    b.extend_from_slice(&frame[8..]);
    assert!(decoder.try_decode(&mut b).is_none());
    let mut whole = BytesMut::from(&frame[..]);
    let mut fresh = PeerMsgCodec::new(false);
    assert_eq!(fresh.decode(&mut whole), Some(PeerMsg::HPierceFirewall { token: 77 }));
}

#[test]
fn key_rotation_touches_only_the_first_four_bytes() {
    let mut key = BytesMut::from(&[221u8, 1, 148, 189, 9, 8][..]);
    rotate_key(&mut key);
    assert_eq!(&key[..], &[187, 3, 40, 123, 9, 8][..]);
}

#[test]
fn obfuscating_nothing_changes_nothing_and_twice_gives_the_bytes_back() {
    let mut src = BytesMut::from(&[1u8, 2, 3][..]);
    let mut key = BytesMut::from(&[5u8][..]);
    obfuscate(&mut src, &mut key, 0);
    assert_eq!(&src[..], &[1, 2, 3][..]);
    assert_eq!(&key[..], &[5][..]);
    let mut src = BytesMut::from(&b"hello world"[..]);
    let mut key = BytesMut::from(&[10u8, 20, 30, 40][..]);
    obfuscate(&mut src, &mut key, 5);
    assert_ne!(&src[..5], &b"hello"[..]);
    assert_eq!(&src[5..], &b" world"[..]);
    let mut key = BytesMut::from(&[10u8, 20, 30, 40][..]);
    obfuscate(&mut src, &mut key, 5);
    assert_eq!(&src[..], &b"hello world"[..]);
}

fn rot(k: [u8; 4]) -> [u8; 4] {
    u32::from_le_bytes(k).rotate_left(1).to_le_bytes()
}

#[test]
fn peer_obfuscated_search_request_masks_a_code_block_before_the_code() {
    let codec = PeerMsgCodec::new(true);
    let mut b = BytesMut::new();
    let k0 = [221u8, 1, 148, 189];
    codec.encode_with_key(PeerMsg::SearchRequest { token: 2, query: "ab".to_string() }, k0, &mut b);
    let k1 = rot(k0);
    let k2 = rot(k1);
    let mut expected = k0.to_vec();
    expected.extend(le(10).iter().zip(k1.iter()).map(|(x, m)| x ^ m));
    expected.extend_from_slice(&k2);
    expected.extend(le(1));
    let mut body = le(2);
    body.extend(packed("ab"));
    let mut k = k2;
    for (i, x) in body.iter().enumerate() {
        if i % 4 == 0 {
            k = rot(k);
        }
        expected.push(x ^ k[i % 4]);
    }
    assert_eq!(&b[..], &expected[..]);
}

#[test]
fn both_file_entry_readers_read_the_same_entry() {
    let mut narrow = vec![9u8];
    narrow.extend(packed("song.ogg"));
    narrow.extend(le(4321));
    narrow.extend(packed("ogg"));
    narrow.extend(le(2));
    narrow.extend(le(0));
    narrow.extend(le(192));
    narrow.extend(le(1));
    narrow.extend(le(60));
    let narrow_len = narrow.len();
    narrow.extend_from_slice(&[7, 7]);
    let mut wide = vec![9u8];
    wide.extend(packed("song.ogg"));
    wide.extend_from_slice(&4321u64.to_le_bytes());
    wide.extend(packed("ogg"));
    wide.extend(le(2));
    wide.extend(le(0));
    wide.extend(le(192));
    wide.extend(le(1));
    wide.extend(le(60));
    let wide_len = wide.len();
    wide.extend_from_slice(&[7, 7]);
    let mut c32 = Cursor::new(narrow);
    let mut c64 = Cursor::new(wide);
    let e32 = unpack_file_entry_u32(&mut c32).unwrap();
    let e64 = unpack_file_entry_u64(&mut c64).unwrap();
    let expected =
        FileEntry { filename: "song.ogg".to_string(), size: 4321, ext: "ogg".to_string(), attrs: vec![192, 60] };
    assert_eq!(e32, expected);
    assert_eq!(e64, expected);
    assert_eq!(c32.position(), narrow_len);
    assert_eq!(c64.position(), wide_len);
}

#[test]
fn thirty_two_key_rotations_give_the_key_back() {
    let mut key = BytesMut::from(&[221u8, 1, 148, 189, 42][..]);
    for _ in 0..32 {
        rotate_key(&mut key);
    }
    assert_eq!(&key[..], &[221, 1, 148, 189, 42][..]);
}
