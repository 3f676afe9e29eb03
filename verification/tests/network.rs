use networkinator::auth::{
    authenticate_anonymous_peer, authenticate_local_peer, confirm_port_authentication, keep_session,
    pending_authentications, reply_to_authenticated_peer, retain_connected_sessions, AuthenticatedFromServer,
    AuthenticatedSessions, AuthenticationMessage, LocalPeerUUID, LocalSeasonUUID,
};
use networkinator::client_network;
use networkinator::connection::{
    ClientConnection, ClientPortTrait, ClientSettingsPort, NetworkConnection, NetworkPortSharedInfos,
    ServerConnection, ServerPortTrait, ServerSettingsPort,
};
use networkinator::messages::MessageInfos;
use networkinator::messaging::{
    check_messages_from_client, check_messages_from_server, route_peer_batch, route_server_batch, send_registered_message,
};
use networkinator::registry::MessagesRegistry;
use networkinator::server_network;
use networkinator::sessions::PeerSessions;
use networkinator::sides::PortReliability;
use std::any::TypeId;
use std::cell::RefCell;
use std::collections::HashMap;
use std::rc::Rc;

type Log = Rc<RefCell<Vec<String>>>;

struct ServerPort {
    name: &'static str,
    log: Log,
    main_ok: bool,
    main: bool,
    ready: bool,
    started: bool,
    sessions: PeerSessions<()>,
    accepted: Vec<u128>,
    inbox: Vec<(u128, Vec<u8>, Option<u128>)>,
    start_asked: bool,
    closed: bool,
    last_sent: Option<(u32, u128, Vec<u8>)>,
}

fn server_port(name: &'static str, log: &Log) -> ServerPort {
    ServerPort {
        name,
        log: log.clone(),
        main_ok: true,
        main: false,
        ready: true,
        started: false,
        sessions: PeerSessions::new(),
        accepted: Vec::new(),
        inbox: Vec::new(),
        start_asked: false,
        closed: false,
        last_sent: None,
    }
}

impl ServerPortTrait<u8> for ServerPort {
    type Error = String;
    fn start_requested(&self) -> bool {
        self.start_asked
    }
    fn is_closed(&self) -> bool {
        self.closed
    }
    fn main_role_allowed(&self) -> bool {
        self.main_ok
    }
    fn serves_as_main(&self) -> bool {
        self.main
    }
    fn last_sent(&self) -> Option<(u32, u128, Vec<u8>)> {
        self.last_sent.clone()
    }
    fn session_known(&self, session: u128) -> bool {
        self.sessions.connections().contains_key(&session)
    }
    fn peer_of(&self, session: u128) -> Option<u128> {
        self.sessions.connections().get(&session).and_then(|e| e.peer_id)
    }
    fn holds(&self, uuid: u128) -> bool {
        if self.sessions.is_peer_connected(uuid) {
            self.sessions.peer_connection(uuid).is_some()
        } else {
            self.sessions.connections().contains_key(&uuid)
        }
    }
    fn peer_connected(&self, peer: u128) -> bool {
        self.sessions.is_peer_connected(peer)
    }
    fn start(&mut self, shared: &u8) {
        self.start_asked = true;
        self.log.borrow_mut().push(format!("start {} {}", self.name, shared));
    }
    fn close(&mut self) {
        self.closed = true;
        self.log.borrow_mut().push(format!("close {}", self.name));
    }
    fn started(&mut self) -> (bool, bool) {
        if self.started {
            (true, false)
        } else if self.ready {
            self.started = true;
            (true, true)
        } else {
            (false, false)
        }
    }
    fn disconnected(&mut self) -> (bool, Option<String>, bool) {
        (false, None, self.started)
    }
    fn get_peers_messages(&mut self) -> HashMap<u128, (Vec<Vec<u8>>, Option<u128>)> {
        let mut m = HashMap::new();
        for (s, bytes, peer) in self.inbox.drain(..) {
            m.insert(s, (vec![bytes], peer));
        }
        m
    }
    fn get_port_reliability(&mut self) -> PortReliability {
        PortReliability::Reliable
    }
    fn as_main_port(&mut self) -> bool {
        self.main = self.main_ok;
        self.main_ok
    }
    fn send_message_to_peer(&mut self, message_id: u32, peer_id: u128, shared: &u8, message: &[u8]) {
        self.last_sent = Some((message_id, peer_id, message.to_vec()));
        self.log.borrow_mut().push(format!("send {} {} {} {} {:?}", self.name, message_id, peer_id, shared, message));
    }
    fn is_main_port(&self) -> bool {
        self.main
    }
    fn peers_connected(&mut self) -> Vec<u128> {
        std::mem::take(&mut self.accepted)
    }
    fn authenticate_peer(&mut self, current: u128, peer: u128, new_session: Option<u128>) {
        self.sessions.authenticate_peer(current, peer, new_session);
    }
    fn is_season_authenticated(&self, s: u128) -> bool {
        self.sessions.is_session_authenticated(s)
    }
    fn is_peer_connected(&self, p: u128) -> bool {
        self.sessions.is_peer_connected(p)
    }
    fn disconnect_peer_or_season(&mut self, uuid: u128) {
        self.log.borrow_mut().push(format!("disconnect {} {}", self.name, uuid));
        self.sessions.disconnect_peer_or_session(uuid);
    }
}

struct ServerSettings(ServerPort);

impl ServerSettingsPort<ServerPort> for ServerSettings {
    fn create_port(self) -> ServerPort {
        self.0
    }
}

struct Infos;

impl NetworkPortSharedInfos<ServerPort, u8> for Infos {
    fn create_infos_server(c: &ServerConnection<ServerPort, u8>) -> u8 {
        c.get_max_connections() as u8
    }
    fn create_infos_client(_c: &ClientConnection<ServerPort, u8>) -> u8 {
        0
    }
}

impl NetworkPortSharedInfos<ClientPort, u8> for Infos {
    fn create_infos_server(_c: &ServerConnection<ClientPort, u8>) -> u8 {
        0
    }
    fn create_infos_client(_c: &ClientConnection<ClientPort, u8>) -> u8 {
        9
    }
}

struct ClientPort {
    authenticated: bool,
    inbox: Vec<Vec<u8>>,
    log: Log,
    start_asked: bool,
    closed: bool,
    last_sent: Option<(u32, Vec<u8>)>,
}

impl ClientPortTrait<u8> for ClientPort {
    type Error = String;
    fn start_requested(&self) -> bool {
        self.start_asked
    }
    fn is_closed(&self) -> bool {
        self.closed
    }
    fn main_role_allowed(&self) -> bool {
        true
    }
    fn serves_as_main(&self) -> bool {
        true
    }
    fn last_sent(&self) -> Option<(u32, Vec<u8>)> {
        self.last_sent.clone()
    }
    fn port_authenticated(&self) -> bool {
        self.authenticated
    }
    fn start(&mut self, _shared: &u8) {
        self.start_asked = true;
    }
    fn close(&mut self) {
        self.closed = true;
        self.log.borrow_mut().push("close client".to_string());
    }
    fn started(&mut self) -> (bool, bool) {
        (true, false)
    }
    fn disconnected(&mut self) -> (bool, Option<String>, bool) {
        (true, Some("gone".to_string()), true)
    }
    fn get_server_messages(&mut self) -> Vec<Vec<u8>> {
        std::mem::take(&mut self.inbox)
    }
    fn get_port_reliability(&mut self) -> PortReliability {
        PortReliability::Unreliable
    }
    fn as_main_port(&mut self) -> bool {
        true
    }
    fn send_message_for_server(&mut self, message_id: u32, _shared: &u8, message: &[u8]) {
        self.last_sent = Some((message_id, message.to_vec()));
        self.log.borrow_mut().push(format!("to server {}", message_id));
    }
    fn is_main_port(&self) -> bool {
        true
    }
    fn authenticate_port(&mut self) {
        self.authenticated = true;
    }
    fn is_port_authenticated(&self) -> bool {
        self.authenticated
    }
}

struct ClientSettings(ClientPort);

impl ClientSettingsPort<ClientPort> for ClientSettings {
    fn create_port(self) -> ClientPort {
        self.0
    }
}

fn client_port(log: &Log) -> ClientPort {
    ClientPort { authenticated: false, inbox: Vec::new(), log: log.clone(), start_asked: false, closed: false, last_sent: None }
}

#[test]
fn connection_needs_a_main_port() {
    let log: Log = Rc::new(RefCell::new(Vec::new()));
    let mut p = server_port("m", &log);
    p.main_ok = false;
    assert!(ServerConnection::<ServerPort, u8>::create_connection(3, ServerSettings(p), true).is_none());
    let mut conns = NetworkConnection::<ServerConnection<ServerPort, u8>>::new();
    let mut p = server_port("m", &log);
    p.main_ok = false;
    assert!(!conns.start_connection::<Infos, _>(0, 3, ServerSettings(p), true));
    assert!(conns.0.is_empty());
    assert!(conns.start_connection::<Infos, _>(0, 3, ServerSettings(server_port("n", &log)), true));
    assert!(!conns.start_connection::<Infos, _>(0, 3, ServerSettings(server_port("o", &log)), true));
}

#[test]
fn with_main_port_asks_the_port() {
    let log: Log = Rc::new(RefCell::new(Vec::new()));
    let mut p = server_port("m", &log);
    p.main_ok = false;
    assert!(ServerConnection::<ServerPort, u8>::with_main_port(p, 3, true).is_none());
    let mut c = ServerConnection::<ServerPort, u8>::with_main_port(server_port("k", &log), 3, false).unwrap();
    assert!(c.get_port(0).unwrap().is_main_port());
    assert_eq!((c.get_max_connections(), c.is_authentication_connection(), c.get_ports_amount()), (3, false, 0));
    let c = ClientConnection::<ClientPort, u8>::with_main_port(client_port(&log), true).unwrap();
    assert!(c.is_authentication_connection());
}

#[test]
fn batches_route_registered_envelopes_in_order() {
    let log: Log = Rc::new(RefCell::new(Vec::new()));
    let port = server_port("m", &log);
    let mut registry: MessagesRegistry<&str> = MessagesRegistry::new();
    registry.register(TypeId::of::<u8>(), "bytes");
    registry.register(TypeId::of::<u16>(), "words");
    let batch = vec![
        MessageInfos { message_id: 2, message: vec![1] }.to_bytes(),
        MessageInfos { message_id: 9, message: vec![3] }.to_bytes(),
        MessageInfos { message_id: 1, message: vec![4, 5] }.to_bytes(),
    ];
    let out = route_peer_batch(&port, &registry, &batch, 3, 1, Some(8), 6).unwrap();
    assert_eq!(out.len(), 2);
    assert_eq!((out[0].functions, out[0].message.clone(), out[0].connection_id, out[0].port_id), ("words", vec![1], 3, 1));
    assert_eq!((out[1].functions, out[1].message.clone(), out[1].peer_uuid, out[1].session_uuid), ("bytes", vec![4, 5], Some(8), 6));
    let bad = vec![MessageInfos { message_id: 1, message: vec![4] }.to_bytes(), vec![0x80]];
    assert!(route_peer_batch(&port, &registry, &bad, 3, 1, None, 6).is_none());
    let client = client_port(&log);
    let out = route_server_batch(&client, &registry, &batch, 2, 0).unwrap();
    assert_eq!((out.len(), out[0].functions, out[1].functions, out[1].port_id), (2, "words", "bytes", 0));
    assert!(route_server_batch(&client, &registry, &bad, 2, 0).is_none());
}

#[test]
fn start_connection_keeps_existing() {
    let log: Log = Rc::new(RefCell::new(Vec::new()));
    let mut conns = NetworkConnection::<ServerConnection<ServerPort, u8>>::new();
    conns.start_connection::<Infos, _>(0, 5, ServerSettings(server_port("a", &log)), true);
    conns.start_connection::<Infos, _>(0, 6, ServerSettings(server_port("b", &log)), false);
    let c = conns.0.get_mut(&0).unwrap();
    assert_eq!(c.get_max_connections(), 5);
    assert!(c.is_authentication_connection());
    assert_eq!(c.get_port(0).unwrap().name, "a");
}

#[test]
fn secondary_ports_get_consecutive_ids() {
    let log: Log = Rc::new(RefCell::new(Vec::new()));
    let mut conns = NetworkConnection::<ServerConnection<ServerPort, u8>>::new();
    conns.start_connection::<Infos, _>(0, 2, ServerSettings(server_port("main", &log)), true);
    conns.open_secondary_port(0, ServerSettings(server_port("one", &log)));
    conns.open_secondary_port(0, ServerSettings(server_port("two", &log)));
    {
        let c = conns.0.get_mut(&0).unwrap();
        assert_eq!(c.get_ports_amount(), 2);
        assert_eq!(c.get_port(1).unwrap().name, "one");
        assert_eq!(c.get_port(2).unwrap().name, "two");
        let (p, infos) = c.get_port_split(2);
        assert_eq!(p.unwrap().name, "two");
        assert_eq!(infos, Some(&2));
    }
    conns.close_port(0, 1);
    assert_eq!(log.borrow().as_slice(), &["close one".to_string()]);
    conns.open_secondary_port(0, ServerSettings(server_port("three", &log)));
    let c = conns.0.get_mut(&0).unwrap();
    assert_eq!(c.get_ports_amount(), 1);
    assert_eq!(c.get_port(2).unwrap().name, "three");
    assert!(c.get_port(1).is_none());
}

#[test]
fn closing_main_port_closes_all() {
    let log: Log = Rc::new(RefCell::new(Vec::new()));
    let mut conns = NetworkConnection::<ServerConnection<ServerPort, u8>>::new();
    conns.start_connection::<Infos, _>(4, 2, ServerSettings(server_port("main", &log)), true);
    conns.open_secondary_port(4, ServerSettings(server_port("one", &log)));
    conns.close_port(4, 0);
    let mut closed = log.borrow().clone();
    closed.sort();
    assert_eq!(closed, vec!["close main".to_string(), "close one".to_string()]);
    let c = conns.0.get_mut(&4).unwrap();
    assert!(c.get_port(0).is_none());
    assert_eq!(c.get_ports_amount(), 0);
    conns.close_connection(4);
    assert!(conns.0.is_empty());
}

#[test]
fn disconnect_asks_every_port() {
    let log: Log = Rc::new(RefCell::new(Vec::new()));
    let mut conns = NetworkConnection::<ServerConnection<ServerPort, u8>>::new();
    conns.start_connection::<Infos, _>(0, 0, ServerSettings(server_port("main", &log)), true);
    conns.open_secondary_port(0, ServerSettings(server_port("one", &log)));
    assert_eq!(conns.disconnect_peer_or_season(0, 42), vec![0, 1]);
    assert!(conns.disconnect_peer_or_season(5, 42).is_empty());
    assert_eq!(log.borrow().as_slice(), &["disconnect main 42".to_string(), "disconnect one 42".to_string()]);
}

#[test]
fn registered_messages_are_sent_with_their_id() {
    let log: Log = Rc::new(RefCell::new(Vec::new()));
    let mut conns = NetworkConnection::<ServerConnection<ServerPort, u8>>::new();
    conns.start_connection::<Infos, _>(0, 7, ServerSettings(server_port("main", &log)), true);
    let mut registry: MessagesRegistry<()> = MessagesRegistry::new();
    registry.register(TypeId::of::<u16>(), ());
    assert_eq!(send_registered_message(&registry, &mut conns, &TypeId::of::<u16>(), 0, 0, &[1, 2], 99), Some(1));
    assert_eq!(send_registered_message(&registry, &mut conns, &TypeId::of::<u32>(), 0, 0, &[3], 99), None);
    assert_eq!(send_registered_message(&registry, &mut conns, &TypeId::of::<u16>(), 0, 4, &[3], 99), None);
    assert!(!conns.send_message(1, 3, 0, &[3], 99));
    assert_eq!(log.borrow().as_slice(), &["send main 1 99 7 [1, 2]".to_string()]);
}

#[test]
fn anonymous_peer_becomes_new_peer() {
    let log: Log = Rc::new(RefCell::new(Vec::new()));
    let mut conns = NetworkConnection::<ServerConnection<ServerPort, u8>>::new();
    let mut p = server_port("main", &log);
    p.sessions.insert_anonymous(500, ());
    conns.start_connection::<Infos, _>(0, 0, ServerSettings(p), true);
    let mut sessions = AuthenticatedSessions::new();
    let reply = authenticate_anonymous_peer(&mut conns, &mut sessions, 0, 0, 500, &AuthenticationMessage { session_uuid: None }, 9)
        .unwrap();
    assert_eq!((reply.peer_uuid, reply.message.session_uuid, reply.message.peer_uuid), (9, 500, 9));
    assert_eq!(sessions.get(500), Some(9));
    assert!(conns.0.get_mut(&0).unwrap().get_port(0).unwrap().is_season_authenticated(500));
    let again = authenticate_anonymous_peer(&mut conns, &mut sessions, 0, 0, 500, &AuthenticationMessage { session_uuid: None }, 10);
    assert!(again.is_none());
}

#[test]
fn known_session_rejoins_on_another_port() {
    let log: Log = Rc::new(RefCell::new(Vec::new()));
    let mut conns = NetworkConnection::<ServerConnection<ServerPort, u8>>::new();
    conns.start_connection::<Infos, _>(0, 0, ServerSettings(server_port("main", &log)), true);
    let mut second = server_port("udp", &log);
    second.sessions.insert_anonymous(600, ());
    conns.open_secondary_port(0, ServerSettings(second));
    let mut sessions = AuthenticatedSessions::new();
    sessions.insert(500, 9);
    let reply = authenticate_anonymous_peer(
        &mut conns,
        &mut sessions,
        0,
        1,
        600,
        &AuthenticationMessage { session_uuid: Some(500) },
        77,
    )
    .unwrap();
    assert_eq!((reply.port_id, reply.message.session_uuid, reply.peer_uuid), (1, 500, 9));
    let port = conns.0.get_mut(&0).unwrap().get_port(1).unwrap();
    assert!(port.is_season_authenticated(500));
    assert!(!port.is_season_authenticated(600));
    let unknown = authenticate_anonymous_peer(&mut conns, &mut sessions, 0, 1, 600, &AuthenticationMessage { session_uuid: Some(1) }, 77);
    assert!(unknown.is_none());
    assert!(authenticate_anonymous_peer(&mut conns, &mut sessions, 3, 0, 600, &AuthenticationMessage { session_uuid: None }, 77).is_none());
}

#[test]
fn authenticated_peer_gets_its_ids_again() {
    let log: Log = Rc::new(RefCell::new(Vec::new()));
    let mut conns = NetworkConnection::<ServerConnection<ServerPort, u8>>::new();
    conns.start_connection::<Infos, _>(0, 0, ServerSettings(server_port("main", &log)), true);
    let mut sessions = AuthenticatedSessions::new();
    sessions.insert(500, 9);
    let r = reply_to_authenticated_peer(&conns, &sessions, 0, 0, &AuthenticationMessage { session_uuid: Some(500) }).unwrap();
    assert_eq!((r.peer_uuid, r.message.session_uuid), (9, 500));
    assert!(reply_to_authenticated_peer(&conns, &sessions, 0, 1, &AuthenticationMessage { session_uuid: Some(500) }).is_none());
    assert!(reply_to_authenticated_peer(&conns, &sessions, 0, 0, &AuthenticationMessage { session_uuid: None }).is_none());
}

#[test]
fn sessions_of_gone_peers_are_dropped() {
    let log: Log = Rc::new(RefCell::new(Vec::new()));
    let mut conns = NetworkConnection::<ServerConnection<ServerPort, u8>>::new();
    let mut p = server_port("main", &log);
    p.sessions.insert_anonymous(1, ());
    p.sessions.authenticate_peer(1, 10, None);
    conns.start_connection::<Infos, _>(0, 0, ServerSettings(p), true);
    let mut sessions = AuthenticatedSessions::new();
    sessions.insert(1, 10);
    sessions.insert(2, 20);
    sessions.insert(3, 30);
    retain_connected_sessions(&conns, &mut sessions, Some(30));
    assert_eq!(sessions.get(1), Some(10));
    assert_eq!(sessions.get(2), None);
    assert_eq!(sessions.get(3), Some(30));
    assert!(keep_session(5, None, &vec![]));
    assert!(!keep_session(5, Some(6), &vec![true, false]));
}

#[test]
fn client_port_confirmed_once() {
    let log: Log = Rc::new(RefCell::new(Vec::new()));
    let mut conns = NetworkConnection::<ClientConnection<ClientPort, u8>>::new();
    conns.start_connection::<Infos, _>(0, ClientSettings(client_port(&log)), true);
    let mut peer = LocalPeerUUID(None);
    let mut session = LocalSeasonUUID(None);
    let msg = AuthenticatedFromServer { session_uuid: 5, peer_uuid: 6 };
    let e = confirm_port_authentication(&mut conns, &mut peer, &mut session, 0, 0, &msg).unwrap();
    assert_eq!((e.connection_id, e.port_id), (0, 0));
    assert_eq!((peer.0, session.0), (Some(6), Some(5)));
    assert!(confirm_port_authentication(&mut conns, &mut peer, &mut session, 0, 0, &msg).is_none());
}

#[test]
fn pending_authentications_without_and_with_session() {
    let log: Log = Rc::new(RefCell::new(Vec::new()));
    let mut conns = NetworkConnection::<ClientConnection<ClientPort, u8>>::new();
    conns.start_connection::<Infos, _>(0, ClientSettings(client_port(&log)), true);
    conns.start_connection::<Infos, _>(1, ClientSettings(client_port(&log)), false);
    conns.open_secondary_port(1, ClientSettings(client_port(&log)));
    let (mut first, first_answers) = pending_authentications(&mut conns, None);
    assert!(first_answers.iter().all(|a| a.is_empty()));
    first.sort();
    assert_eq!(first, vec![(0, vec![0])]);
    let (mut later, later_answers) = pending_authentications(&mut conns, Some(3));
    assert_eq!(later_answers.iter().map(|a| a.len()).sum::<usize>(), 3);
    assert!(later_answers.iter().flatten().all(|a| !a.answer));
    later.sort();
    assert_eq!(later, vec![(0, vec![0]), (1, vec![0, 1])]);
}

#[test]
fn local_peer_authenticates_itself() {
    let log: Log = Rc::new(RefCell::new(Vec::new()));
    let mut servers = NetworkConnection::<ServerConnection<ServerPort, u8>>::new();
    let mut p = server_port("main", &log);
    p.sessions.insert_anonymous(1000, ());
    servers.start_connection::<Infos, _>(0, 0, ServerSettings(p), true);
    let mut clients = NetworkConnection::<ClientConnection<ClientPort, u8>>::new();
    clients.start_connection::<Infos, _>(0, ClientSettings(client_port(&log)), true);
    let mut peer = LocalPeerUUID(None);
    let mut session = LocalSeasonUUID(None);
    let mut sessions = AuthenticatedSessions::new();
    let (server_answers, client_answers) =
        authenticate_local_peer(&mut peer, &mut session, &mut sessions, &mut servers, &mut clients, 7, 1000);
    assert_eq!((peer.0, session.0), (Some(7), Some(1000)));
    assert_eq!((server_answers.len(), server_answers[0].1.len()), (1, 1));
    assert_eq!((client_answers.len(), client_answers[0].1[0].port_id, client_answers[0].1[0].answer), (1, 0, false));
    assert_eq!(sessions.get(1000), Some(7));
    assert!(servers.0.get_mut(&0).unwrap().get_port(0).unwrap().is_peer_connected(7));
    assert!(clients.0.get_mut(&0).unwrap().get_port(0).unwrap().is_port_authenticated());
    let (_, client_answers) =
        authenticate_local_peer(&mut peer, &mut session, &mut sessions, &mut servers, &mut clients, 8, 2000);
    assert_eq!((peer.0, session.0), (Some(7), Some(1000)));
    assert!(client_answers[0].1[0].answer);
}

#[test]
fn server_systems_report_events() {
    let log: Log = Rc::new(RefCell::new(Vec::new()));
    let mut conns = NetworkConnection::<ServerConnection<ServerPort, u8>>::new();
    let mut p = server_port("main", &log);
    p.ready = false;
    p.accepted = vec![11, 12];
    conns.start_connection::<Infos, _>(0, 3, ServerSettings(p), true);
    let (none, polls) = server_network::start_ports(&mut conns);
    assert_eq!(polls.len(), 1);
    assert_eq!((polls[0].answer, polls[0].start_requested), ((false, false), true));
    assert!(none.is_empty());
    assert_eq!(log.borrow().as_slice(), &["start main 3".to_string()]);
    conns.0.get_mut(&0).unwrap().get_port(0).unwrap().ready = true;
    let (up, _) = server_network::start_ports(&mut conns);
    assert_eq!((up.len(), up[0].port_id, up[0].connection_id), (1, 0, 0));
    let (again, polls) = server_network::start_ports(&mut conns);
    assert!(again.is_empty());
    assert_eq!((polls[0].answer, polls[0].start_requested), ((true, false), false));
    let (accepted, reports) = server_network::check_peers_connected(&mut conns);
    assert_eq!(reports.len(), 1);
    assert!(reports[0].reported);
    assert_eq!(accepted.len(), 1);
    assert_eq!(accepted[0].seasons_uuids, vec![11, 12]);
    let (down, reports) = server_network::check_port_disconnected(&mut conns);
    assert!(down.is_empty());
    assert_eq!((reports.len(), reports[0].reported), (1, false));
    let (dropped, reports) = server_network::check_peers_disconnected(&mut conns);
    assert!(dropped.is_empty());
    assert_eq!((reports.len(), reports[0].reported), (1, false));
}

#[test]
fn messages_from_peers_are_routed_by_type() {
    let log: Log = Rc::new(RefCell::new(Vec::new()));
    let mut conns = NetworkConnection::<ServerConnection<ServerPort, u8>>::new();
    let mut p = server_port("main", &log);
    p.inbox.push((5, MessageInfos { message_id: 1, message: vec![4, 2] }.to_bytes(), Some(50)));
    p.inbox.push((6, MessageInfos { message_id: 2, message: vec![1] }.to_bytes(), None));
    conns.start_connection::<Infos, _>(0, 0, ServerSettings(p), true);
    let mut registry: MessagesRegistry<&str> = MessagesRegistry::new();
    registry.register(TypeId::of::<u8>(), "bytes");
    let (out, batches) = match check_messages_from_client(&mut conns, &registry) {
        Ok(out) => out,
        Err(_) => panic!("envelope"),
    };
    assert_eq!(out.len(), 1);
    assert_eq!((batches.len(), batches[0].connection_id, batches[0].port_id, batches[0].sessions.len()), (1, 0, 0, 2));
    assert_eq!((out[0].functions, out[0].message.clone(), out[0].peer_uuid, out[0].session_uuid), ("bytes", vec![4, 2], Some(50), 5));
    conns.0.get_mut(&0).unwrap().get_port(0).unwrap().inbox.push((7, vec![0x80], None));
    match check_messages_from_client(&mut conns, &registry) {
        Ok(_) => panic!("not an envelope"),
        Err(e) => assert_eq!((e.connection_id, e.port_id), (0, 0)),
    }
}

#[test]
fn messages_from_server_and_client_systems() {
    let log: Log = Rc::new(RefCell::new(Vec::new()));
    let mut conns = NetworkConnection::<ClientConnection<ClientPort, u8>>::new();
    let mut p = client_port(&log);
    p.inbox.push(MessageInfos { message_id: 1, message: vec![9] }.to_bytes());
    conns.start_connection::<Infos, _>(0, ClientSettings(p), true);
    let mut registry: MessagesRegistry<u8> = MessagesRegistry::new();
    registry.register(TypeId::of::<u8>(), 1);
    let (out, batches) = match check_messages_from_server(&mut conns, &registry) {
        Ok(out) => out,
        Err(_) => panic!("envelope"),
    };
    assert_eq!((batches.len(), batches[0].port_id, batches[0].messages.len()), (1, 0, 1));
    assert_eq!((out.len(), out[0].message.clone(), out[0].functions), (1, vec![9], 1));
    let (down, reports) = client_network::check_port_disconnected(&mut conns);
    assert_eq!((reports.len(), reports[0].port_id, reports[0].reported), (1, 0, true));
    assert_eq!((down.len(), down[0].was_connected, down[0].error.clone()), (1, true, Some("gone".to_string())));
    let servers = NetworkConnection::<ServerConnection<ServerPort, u8>>::new();
    let (up, polls) = client_network::start_ports(&mut conns, Some(&servers));
    assert!(up.is_empty());
    assert_eq!(polls.len(), 1);
    assert_eq!((polls[0].port_id, polls[0].answer, polls[0].start_requested), (0, (true, false), false));
}

#[test]
fn server_port_answers_become_events() {
    assert!(server_network::port_connected_event(2, 1, (true, false)).is_none());
    assert!(server_network::port_connected_event(2, 1, (false, false)).is_none());
    let up = server_network::port_connected_event(2, 1, (true, true)).unwrap();
    assert_eq!((up.connection_id, up.port_id), (2, 1));
    assert!(server_network::peers_accepted_event(2, 1, Vec::new()).is_none());
    let accepted = server_network::peers_accepted_event(2, 0, vec![7, 8]).unwrap();
    assert_eq!((accepted.connection_id, accepted.port_id, accepted.seasons_uuids), (2, 0, vec![7, 8]));
    let empty: HashMap<u128, (Option<u128>, String)> = HashMap::new();
    assert!(server_network::peers_dropped_event(2, 0, empty).is_none());
    let mut peers: HashMap<u128, (Option<u128>, String)> = HashMap::new();
    peers.insert(5, (Some(50), "reset".to_string()));
    let dropped = server_network::peers_dropped_event(2, 3, peers).unwrap();
    assert_eq!((dropped.connection_id, dropped.port_id, dropped.peers.len()), (2, 3, 1));
    assert!(server_network::port_disconnected_event::<String>(2, 0, (false, None, true)).is_none());
    let down = server_network::port_disconnected_event(2, 0, (true, Some("refused".to_string()), false)).unwrap();
    assert_eq!((down.connection_id, down.port_id, down.error, down.was_connected), (2, 0, Some("refused".to_string()), false));
}

#[test]
fn client_port_answers_become_events() {
    assert!(client_network::client_port_connected_event(4, 0, (true, false)).is_none());
    let up = client_network::client_port_connected_event(4, 2, (true, true)).unwrap();
    assert_eq!((up.connection_id, up.port_id), (4, 2));
    assert!(client_network::client_port_disconnected_event::<String>(4, 0, (false, None, false)).is_none());
    let down = client_network::client_port_disconnected_event(4, 1, (true, None::<String>, true)).unwrap();
    assert_eq!((down.connection_id, down.port_id, down.error, down.was_connected), (4, 1, None, true));
}

#[test]
fn each_port_reported_once_per_frame() {
    let log: Log = Rc::new(RefCell::new(Vec::new()));
    let mut conns = NetworkConnection::<ServerConnection<ServerPort, u8>>::new();
    conns.start_connection::<Infos, _>(0, 3, ServerSettings(server_port("a", &log)), true);
    conns.start_connection::<Infos, _>(1, 3, ServerSettings(server_port("b", &log)), true);
    conns.open_secondary_port(0, ServerSettings(server_port("c", &log)));
    let (up, polls) = server_network::start_ports(&mut conns);
    assert_eq!(polls.len(), 3);
    let mut seen: Vec<(u32, u32)> = up.iter().map(|e| (e.connection_id, e.port_id)).collect();
    seen.sort();
    assert_eq!(seen, vec![(0, 0), (0, 1), (1, 0)]);
}

#[test]
fn listening_asks_every_visited_port() {
    let log: Log = Rc::new(RefCell::new(Vec::new()));
    let mut conns = NetworkConnection::<ServerConnection<ServerPort, u8>>::new();
    conns.start_connection::<Infos, _>(0, 3, ServerSettings(server_port("a", &log)), true);
    conns.open_secondary_port(0, ServerSettings(server_port("b", &log)));
    let mut asked = server_network::listen_peers(&mut conns);
    asked.sort();
    assert_eq!(asked, vec![(0, 0), (0, 1)]);
    let mut clients = NetworkConnection::<ClientConnection<ClientPort, u8>>::new();
    clients.start_connection::<Infos, _>(2, ClientSettings(client_port(&log)), true);
    assert_eq!(client_network::start_listening_ports(&mut clients), vec![(2, 0)]);
}
