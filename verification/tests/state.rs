use museek::codec::daemon::{CLoginAlgorithm, CSearchKind, DaemonMsg};
use museek::codec::server::{CSetStatusStatus, SConnectToPeerKind, ServerMsg};
use museek::codec::wire::Ipv4Addr;
use museek::state::{
    challenge, challenge_from, login_reply, peer_port, search_actions, startup_messages, ServerAction, State,
};

#[test]
fn tokens_count_up_from_one() {
    let mut s = State::new();
    assert_eq!(s.token(), 0);
    assert_eq!(s.next_token(), 1);
    assert_eq!(s.next_token(), 2);
    assert_eq!(s.token(), 2);
}

#[test]
fn obfuscated_peers_are_reached_on_their_obfuscated_port() {
    assert_eq!(peer_port(2234, true, 2235), 2235);
    assert_eq!(peer_port(2234, false, 2235), 2234);
}

#[test]
fn global_search_goes_to_the_server() {
    let (to_server, reply) = search_actions(CSearchKind::Global, "boards", 5);
    assert_eq!(to_server.len(), 2);
    match &to_server[0] {
        ServerMsg::CFileSearch { token, query } => {
            assert_eq!(*token, 5);
            assert_eq!(query, "boards");
        },
        other => panic!("unexpected {:?}", other),
    }
    match &to_server[1] {
        ServerMsg::CRelatedSearch { query } => assert_eq!(query, "boards"),
        other => panic!("unexpected {:?}", other),
    }
    match reply {
        DaemonMsg::SSearch { query, token } => {
            assert_eq!(query, "boards");
            assert_eq!(token, 5);
        },
        other => panic!("unexpected {:?}", other),
    }
    let (to_server, _) = search_actions(CSearchKind::Room, "x", 6);
    assert!(to_server.is_empty());
}

#[test]
fn login_is_always_accepted() {
    match login_reply() {
        DaemonMsg::SLogin { success, message, challenge } => {
            assert!(success);
            assert!(message.is_empty());
            assert!(challenge.is_empty());
        },
        other => panic!("unexpected {:?}", other),
    }
}

#[test]
fn startup_sends_ports_shares_status_and_a_search() {
    let msgs = startup_messages();
    assert_eq!(msgs.len(), 6);
    match &msgs[4] {
        ServerMsg::CSetStatus { status } => assert_eq!(*status, CSetStatusStatus::Online),
        other => panic!("unexpected {:?}", other),
    }
    match &msgs[5] {
        ServerMsg::CFileSearch { token, query } => {
            assert_eq!(*token, 123);
            assert_eq!(query, "squarepusher");
        },
        other => panic!("unexpected {:?}", other),
    }
}

#[test]
fn challenges_are_hex_digits() {
    assert_eq!(challenge_from(&vec![0, 9, 10, 15, 16, 31]), "09af0f");
    let c = challenge();
    assert_eq!(c.len(), 64);
    assert!(c.chars().all(|ch| "0123456789abcdef".contains(ch)));
}

#[test]
fn login_reply_from_the_server_is_recorded() {
    let mut s = State::new();
    let actions = s.on_server_message(ServerMsg::SLogin {
        success: true,
        greet: "hi".to_string(),
        public_ip: None,
        unknown: None,
    });
    assert_eq!(actions.len(), 1);
    assert!(matches!(actions[0], ServerAction::LoggedIn { success: true }));
    assert_eq!(s.token(), 0);
}

#[test]
fn connect_request_waits_for_the_peer_on_the_right_port() {
    let mut s = State::new();
    let ip = Ipv4Addr::new(10, 0, 0, 1);
    let actions = s.on_server_message(ServerMsg::SConnectToPeer {
        username: "eve".to_string(),
        kind: SConnectToPeerKind::Peer,
        ip,
        port: 2234,
        token: 44,
        use_obfuscation: true,
        privileged: false,
        obfuscated_port: 2235,
    });
    assert_eq!(actions.len(), 1);
    match &actions[0] {
        ServerAction::AwaitPeer { username, kind, ip: at, port, token, use_obfuscation } => {
            assert_eq!(username, "eve");
            assert_eq!(*kind, SConnectToPeerKind::Peer);
            assert_eq!(*at, ip);
            assert_eq!(*port, 2235);
            assert_eq!(*token, 44);
            assert!(*use_obfuscation);
        },
        other => panic!("unexpected {:?}", other),
    }
    assert_eq!(s.token(), 0);
}

#[test]
fn net_info_names_parents_in_order_under_fresh_tokens() {
    let mut s = State::new();
    s.next_token();
    let a = Ipv4Addr::new(1, 2, 3, 4);
    let b = Ipv4Addr::new(5, 6, 7, 8);
    let actions = s.on_server_message(ServerMsg::SNetInfo {
        users: vec![("ann".to_string(), (a, 100)), ("bo".to_string(), (b, 200))],
    });
    assert_eq!(actions.len(), 4);
    match (&actions[0], &actions[1], &actions[2], &actions[3]) {
        (
            ServerAction::Send(ServerMsg::CParentIp { ip: ip0 }),
            ServerAction::AwaitPeer { username: u0, kind: k0, port: p0, token: t0, use_obfuscation: o0, .. },
            ServerAction::Send(ServerMsg::CParentIp { ip: ip1 }),
            ServerAction::AwaitPeer { username: u1, port: p1, token: t1, .. },
        ) => {
            assert_eq!(*ip0, a);
            assert_eq!(u0, "ann");
            assert_eq!(*k0, SConnectToPeerKind::Distributed);
            assert_eq!(*p0, 100);
            assert_eq!(*t0, 2);
            assert!(!*o0);
            assert_eq!(*ip1, b);
            assert_eq!(u1, "bo");
            assert_eq!(*p1, 200);
            assert_eq!(*t1, 3);
        },
        other => panic!("unexpected {:?}", other),
    }
    assert_eq!(s.token(), 3);
    assert!(s.on_server_message(ServerMsg::SSetStatus(1)).is_empty());
    assert_eq!(s.token(), 3);
}

#[test]
fn clients_are_answered_by_kind_of_message() {
    let mut s = State::new();
    let (to_server, reply) = s.on_client_message(DaemonMsg::CLogin {
        algorithm: CLoginAlgorithm::Md5,
        challenge_response: "x".to_string(),
        mask: 0,
    });
    assert!(to_server.is_empty());
    assert!(matches!(reply, Some(DaemonMsg::SLogin { success: true, .. })));
    let (to_server, reply) = s.on_client_message(DaemonMsg::CSearch {
        kind: CSearchKind::Global,
        query: "q".to_string(),
    });
    assert_eq!(to_server.len(), 2);
    assert!(matches!(to_server[0], ServerMsg::CFileSearch { token: 1, .. }));
    assert!(matches!(reply, Some(DaemonMsg::SSearch { token: 1, .. })));
    let (to_server, reply) = s.on_client_message(DaemonMsg::CPing { id: 3 });
    assert!(to_server.is_empty());
    assert!(reply.is_none());
    assert_eq!(s.token(), 1);
}
