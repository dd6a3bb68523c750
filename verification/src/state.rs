//! What the daemon decides between messages: tokens, the messages it sends when
//! it connects or is asked to search, and the challenge it gives a new client.
use vstd::prelude::*;
use vstd::utf8::{decode_utf8_encode_utf8, partial_valid_utf8_extend_ascii_block, valid_utf8};
use crate::codec::daemon::{CSearchKind, DaemonMsg, SpecDaemonMsg};
use crate::codec::server::{
    CSetStatusStatus, SConnectToPeerKind, ServerMsg, SpecServerMsg, hex_digit, table_view,
};
use crate::codec::wire::{Ipv4Addr, str_bytes};
use crate::foreign::string_from_utf8;
use rand::Rng;

verus! {

/// The search tokens that the daemon hands out.
pub struct State {
    token: u32,
}

impl State {
    /// A state that has handed out no token yet.
    pub fn new() -> (r: State)
        ensures
            r.last_token() == 0,
    {
        State { token: 0 }
    }

    /// The last token handed out (0 before the first).
    pub closed spec fn last_token(&self) -> u32 {
        self.token
    }

    /// The last token handed out (0 before the first).
    pub fn token(&self) -> (r: u32)
        ensures
            r == self.last_token(),
    {
        self.token
    }

    /// Hands out the next token: one more than the last.
    pub fn next_token(&mut self) -> (r: u32)
        requires
            old(self).last_token() < u32::MAX,
        ensures
            r == old(self).last_token() + 1,
            final(self).last_token() == r,
    {
        self.token = self.token + 1;
        self.token
    }
}

/// The port to reach a peer on: its obfuscated port when it asks for obfuscation.
pub fn peer_port(port: u32, use_obfuscation: bool, obfuscated_port: u32) -> (r: u32)
    ensures
        r == (if use_obfuscation {
            obfuscated_port
        } else {
            port
        }),
{
    if use_obfuscation {
        obfuscated_port
    } else {
        port
    }
}

/// What the daemon sends the server right after logging in: its two listening
/// ports (the second obfuscated), one shared folder holding one file, that it
/// has no parents, that it is online, and a first search.
pub fn startup_messages() -> (r: Vec<ServerMsg>)
    ensures
        r@.len() == 6,
        r@[0]@ == (SpecServerMsg::CSetListenPort { port: 51672, use_obfuscation: false }),
        r@[1]@ == (SpecServerMsg::CSetListenPort { port: 51673, use_obfuscation: true }),
        r@[2]@ == (SpecServerMsg::CSharedFoldersFiles { folders: 1, files: 1 }),
        r@[3]@ == (SpecServerMsg::CHaveNoParents { have_parents: true }),
        r@[4]@ == (SpecServerMsg::CSetStatus { status: CSetStatusStatus::Online }),
        r@[5]@ == (SpecServerMsg::CFileSearch { token: 123, query: "squarepusher"@ }),
{
    let mut r: Vec<ServerMsg> = Vec::new();
    r.push(ServerMsg::CSetListenPort { port: 51672, use_obfuscation: false });
    r.push(ServerMsg::CSetListenPort { port: 51673, use_obfuscation: true });
    r.push(ServerMsg::CSharedFoldersFiles { folders: 1, files: 1 });
    r.push(ServerMsg::CHaveNoParents { have_parents: true });
    r.push(ServerMsg::CSetStatus { status: CSetStatusStatus::Online });
    r.push(ServerMsg::CFileSearch { token: 123, query: "squarepusher".to_owned() });
    r
}

/// The daemon's answer to a client's login: success, with an empty message and challenge.
pub fn login_reply() -> (r: DaemonMsg)
    ensures
        r@ == (SpecDaemonMsg::SLogin {
            success: true,
            message: Seq::empty(),
            challenge: Seq::empty(),
        }),
{
    DaemonMsg::SLogin { success: true, message: String::new(), challenge: String::new() }
}

/// What a client's search under `token` leads to: for a global search, a file
/// search and a related search sent to the server (none otherwise), and the
/// reply to the client that names the token.
pub fn search_actions(kind: CSearchKind, query: &str, token: u32) -> (r: (Vec<ServerMsg>, DaemonMsg))
    ensures
        kind == CSearchKind::Global ==> r.0@.len() == 2 && r.0@[0]@ == (SpecServerMsg::CFileSearch {
            token,
            query: query@,
        }) && r.0@[1]@ == (SpecServerMsg::CRelatedSearch { query: query@ }),
        kind != CSearchKind::Global ==> r.0@.len() == 0,
        r.1@ == (SpecDaemonMsg::SSearch { query: query@, token }),
{
    let mut to_server: Vec<ServerMsg> = Vec::new();
    match kind {
        CSearchKind::Global => {
            to_server.push(ServerMsg::CFileSearch { token, query: query.to_owned() });
            to_server.push(ServerMsg::CRelatedSearch { query: query.to_owned() });
        },
        _ => {},
    }
    (to_server, DaemonMsg::SSearch { query: query.to_owned(), token })
}

/// What the daemon does in answer to a message from the server.
#[derive(Debug)]
pub enum ServerAction {
    /// The login went through (or did not): record it and tell the clients.
    LoggedIn { success: bool },
    /// Send this message to the server.
    Send(ServerMsg),
    /// Expect this peer to connect on this port, under this token.
    AwaitPeer {
        username: String,
        kind: SConnectToPeerKind,
        ip: Ipv4Addr,
        port: u32,
        token: u32,
        use_obfuscation: bool,
    },
}

/// A server action with its strings and messages by their views.
pub enum SpecServerAction {
    LoggedIn { success: bool },
    Send(SpecServerMsg),
    AwaitPeer {
        username: Seq<char>,
        kind: SConnectToPeerKind,
        ip: Ipv4Addr,
        port: u32,
        token: u32,
        use_obfuscation: bool,
    },
}

impl View for ServerAction {
    type V = SpecServerAction;

    open spec fn view(&self) -> SpecServerAction {
        match self {
            ServerAction::LoggedIn { success } => SpecServerAction::LoggedIn { success: *success },
            ServerAction::Send(m) => SpecServerAction::Send(m@),
            ServerAction::AwaitPeer { username, kind, ip, port, token, use_obfuscation } =>
                SpecServerAction::AwaitPeer {
                username: username@,
                kind: *kind,
                ip: *ip,
                port: *port,
                token: *token,
                use_obfuscation: *use_obfuscation,
            },
        }
    }
}

/// The views of a list of actions.
pub open spec fn actions_view(v: Seq<ServerAction>) -> Seq<SpecServerAction> {
    v.map_values(|a: ServerAction| a@)
}

/// Whether the daemon has tokens enough left to answer `msg`: one for each
/// parent peer that a net-info message names.
pub open spec fn tokens_suffice(last_token: u32, msg: SpecServerMsg) -> bool {
    match msg {
        SpecServerMsg::SNetInfo { users } => last_token + users.len() <= u32::MAX,
        _ => true,
    }
}

impl State {
    /// What the daemon does in answer to a message from the server. A login
    /// reply is recorded. A request to connect to a peer means waiting for that
    /// peer, on its obfuscated port when it asks for obfuscation. For each parent
    /// peer of a net-info message, in order, the daemon tells the server the
    /// parent's address and waits for the parent under the next token, on its
    /// port and without obfuscation. Other messages need nothing.
    pub fn on_server_message(&mut self, msg: ServerMsg) -> (r: Vec<ServerAction>)
        requires
            tokens_suffice(old(self).last_token(), msg@),
        ensures
            match msg@ {
                SpecServerMsg::SLogin { success, .. } => {
                    &&& actions_view(r@) == seq![SpecServerAction::LoggedIn { success }]
                    &&& final(self).last_token() == old(self).last_token()
                },
                SpecServerMsg::SConnectToPeer {
                    username,
                    kind,
                    ip,
                    port,
                    token,
                    use_obfuscation,
                    obfuscated_port,
                    ..
                } => {
                    &&& actions_view(r@) == seq![
                        SpecServerAction::AwaitPeer {
                            username,
                            kind,
                            ip,
                            port: if use_obfuscation {
                                obfuscated_port
                            } else {
                                port
                            },
                            token,
                            use_obfuscation,
                        },
                    ]
                    &&& final(self).last_token() == old(self).last_token()
                },
                SpecServerMsg::SNetInfo { users } => {
                    &&& r@.len() == 2 * users.len()
                    &&& forall|i: int|
                        0 <= i < users.len() ==> {
                            &&& r@[2 * i]@ == SpecServerAction::Send(
                                SpecServerMsg::CParentIp { ip: (#[trigger] users[i]).1.0 },
                            )
                            &&& r@[2 * i + 1]@ == SpecServerAction::AwaitPeer {
                                username: users[i].0,
                                kind: SConnectToPeerKind::Distributed,
                                ip: users[i].1.0,
                                port: users[i].1.1,
                                token: (old(self).last_token() + i + 1) as u32,
                                use_obfuscation: false,
                            }
                        }
                    &&& final(self).last_token() == old(self).last_token() + users.len()
                },
                _ => r@.len() == 0 && final(self).last_token() == old(self).last_token(),
            },
    {
        let mut actions: Vec<ServerAction> = Vec::new();
        match msg {
            ServerMsg::SLogin { success, .. } => {
                actions.push(ServerAction::LoggedIn { success });
                assert(actions_view(actions@) =~= seq![SpecServerAction::LoggedIn { success }]);
            },
            ServerMsg::SConnectToPeer {
                username,
                kind,
                ip,
                port,
                token,
                use_obfuscation,
                obfuscated_port,
                ..
            } => {
                let port = peer_port(port, use_obfuscation, obfuscated_port);
                let ghost name = username@;
                actions.push(
                    ServerAction::AwaitPeer { username, kind, ip, port, token, use_obfuscation },
                );
                assert(actions_view(actions@) =~= seq![
                    SpecServerAction::AwaitPeer {
                        username: name,
                        kind,
                        ip,
                        port,
                        token,
                        use_obfuscation,
                    },
                ]);
            },
            ServerMsg::SNetInfo { users } => {
                let ghost first = self.last_token();
                let ghost t = table_view(users@);
                let n = users.len();
                let mut j: usize = 0;
                while j < n
                    invariant
                        n == users@.len(),
                        t == table_view(users@),
                        j <= n,
                        first + n <= u32::MAX,
                        self.last_token() == first + j,
                        actions@.len() == 2 * j,
                        forall|i: int|
                            0 <= i < j ==> {
                                &&& actions@[2 * i]@ == SpecServerAction::Send(
                                    SpecServerMsg::CParentIp { ip: (#[trigger] t[i]).1.0 },
                                )
                                &&& actions@[2 * i + 1]@ == SpecServerAction::AwaitPeer {
                                    username: t[i].0,
                                    kind: SConnectToPeerKind::Distributed,
                                    ip: t[i].1.0,
                                    port: t[i].1.1,
                                    token: (first + i + 1) as u32,
                                    use_obfuscation: false,
                                }
                            },
                    decreases n - j,
                {
                    let entry = &users[j];
                    let ip = entry.1.0;
                    let port = entry.1.1;
                    let token = self.next_token();
                    actions.push(ServerAction::Send(ServerMsg::CParentIp { ip }));
                    actions.push(
                        ServerAction::AwaitPeer {
                            username: entry.0.clone(),
                            kind: SConnectToPeerKind::Distributed,
                            ip,
                            port: peer_port(port, false, 0),
                            token,
                            use_obfuscation: false,
                        },
                    );
                    j = j + 1;
                }
            },
            _ => {},
        }
        actions
    }

    /// What the daemon does in answer to a message from a client: the messages
    /// it sends the server and its reply to the client. A login is accepted; a
    /// search takes the next token (see `search_actions`); other messages need
    /// nothing.
    pub fn on_client_message(&mut self, msg: DaemonMsg) -> (r: (Vec<ServerMsg>, Option<DaemonMsg>))
        requires
            msg@ is CSearch ==> old(self).last_token() < u32::MAX,
        ensures
            match msg@ {
                SpecDaemonMsg::CLogin { .. } => {
                    &&& r.0@.len() == 0
                    &&& r.1 matches Some(m) && m@ == (SpecDaemonMsg::SLogin {
                        success: true,
                        message: Seq::empty(),
                        challenge: Seq::empty(),
                    })
                    &&& final(self).last_token() == old(self).last_token()
                },
                SpecDaemonMsg::CSearch { kind, query } => {
                    let token = (old(self).last_token() + 1) as u32;
                    &&& final(self).last_token() == token
                    &&& kind == CSearchKind::Global ==> r.0@.len() == 2 && r.0@[0]@
                        == (SpecServerMsg::CFileSearch { token, query }) && r.0@[1]@
                        == (SpecServerMsg::CRelatedSearch { query })
                    &&& kind != CSearchKind::Global ==> r.0@.len() == 0
                    &&& r.1 matches Some(m) && m@ == (SpecDaemonMsg::SSearch { query, token })
                },
                _ => r.0@.len() == 0 && r.1 is None && final(self).last_token()
                    == old(self).last_token(),
            },
    {
        match msg {
            DaemonMsg::CLogin { .. } => (Vec::new(), Some(login_reply())),
            DaemonMsg::CSearch { kind, query } => {
                let token = self.next_token();
                let (to_server, reply) = search_actions(kind, query.as_str(), token);
                (to_server, Some(reply))
            },
            _ => (Vec::new(), None),
        }
    }
}

/// The bytes of a challenge drawn with the given random numbers: for each, the
/// lower-case hex digit of its value modulo 16.
pub open spec fn challenge_bytes(draws: Seq<usize>) -> Seq<u8> {
    draws.map_values(|d: usize| hex_digit((d % 16) as u8))
}

/// The challenge string for the given random numbers (see `challenge_bytes`).
pub fn challenge_from(draws: &Vec<usize>) -> (r: String)
    ensures
        str_bytes(r@) == challenge_bytes(draws@),
{
    let n = draws.len();
    let mut bytes: Vec<u8> = Vec::new();
    let mut i: usize = 0;
    while i < n
        invariant
            n == draws@.len(),
            i <= n,
            bytes@ == challenge_bytes(draws@.take(i as int)),
            forall|j: int| 0 <= j < bytes@.len() ==> #[trigger] bytes@[j] < 128,
        decreases n - i,
    {
        let d = (draws[i] % 16) as u8;
        let c: u8 = if d < 10 {
            48 + d
        } else {
            87 + d
        };
        bytes.push(c);
        i = i + 1;
        assert(bytes@ =~= challenge_bytes(draws@.take(i as int)));
    }
    assert(draws@.take(n as int) =~= draws@);
    proof {
        let b = bytes@;
        assert(b.subrange(0, 0) =~= Seq::<u8>::empty());
        assert(valid_utf8(Seq::<u8>::empty()));
        partial_valid_utf8_extend_ascii_block(b, 0, b.len() as int);
        assert(b.subrange(0, b.len() as int) =~= b);
        decode_utf8_encode_utf8(b);
    }
    match string_from_utf8(bytes) {
        Some(s) => s,
        None => {
            assert(false);
            String::new()
        },
    }
}

/// A random number from the thread's generator (`rand::thread_rng` and
/// `Rng::gen`). Nothing is stated of it.
#[verifier::external_body]
fn random_usize() -> usize {
    rand::thread_rng().gen::<usize>()
}

/// A fresh challenge for a client: 64 random lower-case hex digits.
pub fn challenge() -> (r: String)
    ensures
        exists|draws: Seq<usize>| draws.len() == 64 && str_bytes(r@) == challenge_bytes(draws),
{
    let mut draws: Vec<usize> = Vec::new();
    let mut i: usize = 0;
    while i < 64
        invariant
            i <= 64,
            draws@.len() == i,
        decreases 64 - i,
    {
        draws.push(random_usize());
        i = i + 1;
    }
    challenge_from(&draws)
}

} // verus!
