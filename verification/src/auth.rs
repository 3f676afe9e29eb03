//! Authentication of peers. A client sends its session id (none on first
//! contact); the server answers with the session id and peer id it is known
//! under, and every port of the connection then treats the session as that
//! peer.

use std::collections::HashMap;
use vstd::prelude::*;
use crate::connection::{
    get_mut_u32,
    others_unchanged,
    ClientConnection,
    ClientPortTrait,
    NetworkConnection,
    ServerConnection,
    ServerPortTrait,
};
use crate::maps::{keys_of, keys_of_u128};
use crate::messages::ClientPortAuthenticated;
use crate::server_network::visited;

verus! {

broadcast use vstd::std_specs::hash::group_hash_axioms;

/// The peer each authenticated session belongs to, on a server.
pub struct AuthenticatedSessions(HashMap<u128, u128>);

impl View for AuthenticatedSessions {
    type V = Map<u128, u128>;

    closed spec fn view(&self) -> Map<u128, u128> {
        self.0@
    }
}

impl AuthenticatedSessions {
    pub fn new() -> (r: Self)
        ensures
            r@ == Map::<u128, u128>::empty(),
    {
        AuthenticatedSessions(HashMap::new())
    }

    /// The peer of session `session_uuid`.
    pub fn get(&self, session_uuid: u128) -> (r: Option<u128>)
        ensures
            match r {
                Some(p) => self@.contains_key(session_uuid) && self@[session_uuid] == p,
                None => !self@.contains_key(session_uuid),
            },
    {
        match self.0.get(&session_uuid) {
            Some(p) => Some(*p),
            None => None,
        }
    }

    pub fn insert(&mut self, session_uuid: u128, peer_uuid: u128)
        ensures
            final(self)@ == old(self)@.insert(session_uuid, peer_uuid),
    {
        self.0.insert(session_uuid, peer_uuid);
    }
}

/// The peer id this process was given (a client) or gave itself (a local
/// server).
pub struct LocalPeerUUID(pub Option<u128>);

/// The session id this process uses.
pub struct LocalSeasonUUID(pub Option<u128>);

/// Sent by a client to authenticate a port: the session it already has, if
/// any.
pub struct AuthenticationMessage {
    pub session_uuid: Option<u128>,
}

/// Sent by the server: the session and the peer the client is known as.
pub struct AuthenticatedFromServer {
    pub session_uuid: u128,
    pub peer_uuid: u128,
}

/// An answer the server owes: `message` to the peer `peer_uuid` on port
/// `port_id` of connection `connection_id`.
pub struct AuthenticationReply {
    pub connection_id: u32,
    pub port_id: u32,
    pub peer_uuid: u128,
    pub message: AuthenticatedFromServer,
}

/// What the server does with an authentication message from a session that
/// is not authenticated yet.
pub enum AnonymousAuthentication {
    Ignored,
    /// The session rejoins as the known peer of an earlier session, under
    /// that session's id.
    Rejoined { session_uuid: u128, peer_uuid: u128 },
    /// The session becomes a new peer.
    NewPeer { peer_uuid: u128 },
}

pub open spec fn anonymous_authentication_spec(
    authenticate_able: bool,
    requested: Option<u128>,
    known_peer: Option<u128>,
    requested_authenticated: bool,
    is_authentication_connection: bool,
    is_main_port: bool,
    sender_authenticated: bool,
    fresh_peer: u128,
) -> AnonymousAuthentication {
    if !authenticate_able {
        AnonymousAuthentication::Ignored
    } else {
        match requested {
            Some(su) => match known_peer {
                Some(p) => if !requested_authenticated {
                    AnonymousAuthentication::Rejoined { session_uuid: su, peer_uuid: p }
                } else {
                    AnonymousAuthentication::Ignored
                },
                None => AnonymousAuthentication::Ignored,
            },
            None => if is_authentication_connection && is_main_port && !sender_authenticated {
                AnonymousAuthentication::NewPeer { peer_uuid: fresh_peer }
            } else {
                AnonymousAuthentication::Ignored
            },
        }
    }
}

/// The server's decision on an authentication message from an anonymous
/// session, given what the port answered: a port that does not
/// authenticate ignores it; a known session id lets the sender rejoin as
/// its peer unless that session is already authenticated on the port;
/// without a session id, the main port of an authentication connection
/// makes the sender a new peer unless it is already authenticated.
pub fn anonymous_authentication(
    authenticate_able: bool,
    requested: Option<u128>,
    known_peer: Option<u128>,
    requested_authenticated: bool,
    is_authentication_connection: bool,
    is_main_port: bool,
    sender_authenticated: bool,
    fresh_peer: u128,
) -> (r: AnonymousAuthentication)
    ensures
        r == anonymous_authentication_spec(
            authenticate_able,
            requested,
            known_peer,
            requested_authenticated,
            is_authentication_connection,
            is_main_port,
            sender_authenticated,
            fresh_peer,
        ),
{
    if !authenticate_able {
        return AnonymousAuthentication::Ignored;
    }
    match requested {
        Some(su) => match known_peer {
            Some(p) => {
                if !requested_authenticated {
                    AnonymousAuthentication::Rejoined { session_uuid: su, peer_uuid: p }
                } else {
                    AnonymousAuthentication::Ignored
                }
            },
            None => AnonymousAuthentication::Ignored,
        },
        None => {
            if is_authentication_connection && is_main_port && !sender_authenticated {
                AnonymousAuthentication::NewPeer { peer_uuid: fresh_peer }
            } else {
                AnonymousAuthentication::Ignored
            }
        },
    }
}

/// Handles an authentication message that session `session_uuid` sent on
/// port `port_id` of connection `connection_id` before it was
/// authenticated. `fresh_peer` is the id a new peer gets. Returns the
/// answer to send, if any.
pub fn authenticate_anonymous_peer<P: ServerPortTrait<I>, I>(
    connections: &mut NetworkConnection<ServerConnection<P, I>>,
    sessions: &mut AuthenticatedSessions,
    connection_id: u32,
    port_id: u32,
    session_uuid: u128,
    message: &AuthenticationMessage,
    fresh_peer: u128,
) -> (r: Option<AuthenticationReply>)
    ensures
        others_unchanged(final(connections).0@, old(connections).0@, connection_id),
        old(connections).0@.contains_key(connection_id) ==> ({
            let o = old(connections).0@[connection_id];
            let c = final(connections).0@[connection_id];
            &&& c.ports().dom() == o.ports().dom()
            &&& c.same_settings(&o)
        }),
        !old(connections).0@.contains_key(connection_id) || !old(connections).0@[connection_id].ports().contains_key(port_id)
            ==> r is None,
        match r {
            None => final(sessions)@ == old(sessions)@,
            Some(reply) => {
                &&& reply.connection_id == connection_id
                &&& reply.port_id == port_id
                &&& reply.peer_uuid == reply.message.peer_uuid
                &&& match message.session_uuid {
                    Some(su) => {
                        &&& reply.message.session_uuid == su
                        &&& old(sessions)@.contains_key(su)
                        &&& reply.peer_uuid == old(sessions)@[su]
                        &&& final(sessions)@ == old(sessions)@
                    },
                    None => {
                        &&& reply.message.session_uuid == session_uuid
                        &&& reply.peer_uuid == fresh_peer
                        &&& final(sessions)@ == old(sessions)@.insert(session_uuid, fresh_peer)
                        &&& old(connections).0@[connection_id].authentication_spec()
                    },
                }
            },
        },
        r is Some ==> ({
            let reply = r->0;
            let before = old(connections).0@[connection_id].ports()[port_id];
            let after = final(connections).0@[connection_id].ports()[port_id];
            before.session_known(session_uuid) ==> after.session_known(reply.message.session_uuid) && after.peer_of(
                reply.message.session_uuid,
            ) == Some(reply.peer_uuid)
        }),
        r is None && old(connections).0@.contains_key(connection_id) ==> final(connections).0@[connection_id].ports()
            == old(connections).0@[connection_id].ports(),
{
    let connection = match get_mut_u32(&mut connections.0, connection_id) {
        Some(c) => c,
        None => return None,
    };
    let is_authentication_connection = connection.is_authentication_connection();
    let port = match connection.get_port(port_id) {
        Some(p) => p,
        None => return None,
    };
    let authenticate_able = port.is_port_authenticate_able();
    let mut known_peer: Option<u128> = None;
    let mut requested_authenticated = false;
    let mut is_main_port = false;
    let mut sender_authenticated = false;
    if authenticate_able {
        match message.session_uuid {
            Some(su) => {
                known_peer = sessions.get(su);
                if known_peer.is_some() {
                    requested_authenticated = port.is_season_authenticated(su);
                }
            },
            None => {
                if is_authentication_connection {
                    is_main_port = port.is_main_port();
                    if is_main_port {
                        sender_authenticated = port.is_season_authenticated(session_uuid);
                    }
                }
            },
        }
    }
    let decision = anonymous_authentication(
        authenticate_able,
        message.session_uuid,
        known_peer,
        requested_authenticated,
        is_authentication_connection,
        is_main_port,
        sender_authenticated,
        fresh_peer,
    );
    match decision {
        AnonymousAuthentication::Ignored => None,
        AnonymousAuthentication::Rejoined { session_uuid: su, peer_uuid } => {
            port.authenticate_peer(session_uuid, peer_uuid, Some(su));
            Some(
                AuthenticationReply {
                    connection_id,
                    port_id,
                    peer_uuid,
                    message: AuthenticatedFromServer { session_uuid: su, peer_uuid },
                },
            )
        },
        AnonymousAuthentication::NewPeer { peer_uuid } => {
            port.authenticate_peer(session_uuid, peer_uuid, None);
            sessions.insert(session_uuid, peer_uuid);
            Some(
                AuthenticationReply {
                    connection_id,
                    port_id,
                    peer_uuid,
                    message: AuthenticatedFromServer { session_uuid, peer_uuid },
                },
            )
        },
    }
}

/// An authenticated peer that asks again, with a known session id, is told
/// that session and its peer again; there is no answer when the port or
/// the session is unknown.
pub fn reply_to_authenticated_peer<P, I>(
    connections: &NetworkConnection<ServerConnection<P, I>>,
    sessions: &AuthenticatedSessions,
    connection_id: u32,
    port_id: u32,
    message: &AuthenticationMessage,
) -> (r: Option<AuthenticationReply>)
    ensures
        match r {
            Some(reply) => {
                &&& connections.0@.contains_key(connection_id)
                &&& connections.0@[connection_id].ports().contains_key(port_id)
                &&& message.session_uuid == Some(reply.message.session_uuid)
                &&& sessions@.contains_key(reply.message.session_uuid)
                &&& reply.message.peer_uuid == sessions@[reply.message.session_uuid]
                &&& reply.peer_uuid == reply.message.peer_uuid
                &&& reply.connection_id == connection_id
                &&& reply.port_id == port_id
            },
            None => !connections.0@.contains_key(connection_id)
                || !connections.0@[connection_id].ports().contains_key(port_id)
                || message.session_uuid is None
                || !sessions@.contains_key(message.session_uuid->0),
        },
{
    match connections.0.get(&connection_id) {
        None => None,
        Some(connection) => {
            if !connection.has_port(port_id) {
                return None;
            }
            match message.session_uuid {
                None => None,
                Some(su) => match sessions.get(su) {
                    None => None,
                    Some(peer_uuid) => Some(
                        AuthenticationReply {
                            connection_id,
                            port_id,
                            peer_uuid,
                            message: AuthenticatedFromServer { session_uuid: su, peer_uuid },
                        },
                    ),
                },
            }
        },
    }
}

/// Whether a session of the peer `peer` stays authenticated: it is the
/// local peer, or every main port of an authentication connection still
/// has the peer (`connected` holds their answers).
pub fn keep_session(peer: u128, local_peer: Option<u128>, connected: &Vec<bool>) -> (r: bool)
    ensures
        r == (local_peer == Some(peer) || forall|i: int| 0 <= i < connected@.len() ==> #[trigger] connected@[i]),
{
    if let Some(local) = local_peer {
        if local == peer {
            return true;
        }
    }
    let mut i: usize = 0;
    while i < connected.len()
        invariant
            i <= connected@.len(),
            forall|j: int| 0 <= j < i ==> #[trigger] connected@[j],
            local_peer != Some(peer),
        decreases connected@.len() - i,
    {
        if !connected[i] {
            return false;
        }
        i = i + 1;
    }
    true
}

/// Whether a session of the peer `peer` stays authenticated: it is the
/// local peer, or the main port of every authentication connection that has
/// one still has the peer.
pub open spec fn session_kept<P: ServerPortTrait<I>, I>(
    connections: Map<u32, ServerConnection<P, I>>,
    peer: u128,
    local_peer: Option<u128>,
) -> bool {
    local_peer == Some(peer) || forall|c: u32|
        #[trigger] connections.contains_key(c) && connections[c].authentication_spec() && connections[c].main_slot() is Some
            ==> connections[c].main_slot()->0.peer_connected(peer)
}

/// Forgets the authenticated sessions whose peer is gone from the main
/// port of some authentication connection; the local peer always stays.
pub fn retain_connected_sessions<P: ServerPortTrait<I>, I>(
    connections: &NetworkConnection<ServerConnection<P, I>>,
    sessions: &mut AuthenticatedSessions,
    local_peer: Option<u128>,
)
    ensures
        forall|s: u128| #[trigger] final(sessions)@.contains_key(s) ==> final(sessions)@[s] == old(sessions)@[s],
        forall|s: u128|
            #[trigger] final(sessions)@.contains_key(s) == (old(sessions)@.contains_key(s) && session_kept(
                connections.0@,
                old(sessions)@[s],
                local_peer,
            )),
{
    let session_ids = keys_of_u128(&sessions.0);
    let connection_ids = keys_of(&connections.0);
    let mut i: usize = 0;
    while i < session_ids.len()
        invariant
            session_ids@.to_set() == old(sessions)@.dom(),
            session_ids@.no_duplicates(),
            connection_ids@.to_set() == connections.0@.dom(),
            i <= session_ids@.len(),
            forall|s: u128| #[trigger] sessions@.contains_key(s) ==> old(sessions)@.contains_key(s)
                && sessions@[s] == old(sessions)@[s],
            forall|j: int| i <= j < session_ids@.len() ==> #[trigger] sessions@.contains_key(session_ids@[j]),
            forall|j: int|
                0 <= j < i ==> #[trigger] sessions@.contains_key(session_ids@[j]) == session_kept(
                    connections.0@,
                    old(sessions)@[session_ids@[j]],
                    local_peer,
                ),
        decreases session_ids@.len() - i,
    {
        let s = session_ids[i];
        assert(sessions@.contains_key(session_ids@[i as int]));
        let peer = match sessions.0.get(&s) {
            Some(p) => *p,
            None => 0,
        };
        assert(peer == old(sessions)@[s]);
        let mut connected: Vec<bool> = Vec::new();
        let mut j: usize = 0;
        while j < connection_ids.len()
            invariant
                connection_ids@.to_set() == connections.0@.dom(),
                j <= connection_ids@.len(),
                (forall|k: int| 0 <= k < connected@.len() ==> #[trigger] connected@[k]) == (forall|m: int|
                    0 <= m < j && #[trigger] connections.0@.contains_key(connection_ids@[m])
                        && connections.0@[connection_ids@[m]].authentication_spec()
                        && connections.0@[connection_ids@[m]].main_slot() is Some
                        ==> connections.0@[connection_ids@[m]].main_slot()->0.peer_connected(peer)),
            decreases connection_ids@.len() - j,
        {
            let c = connection_ids[j];
            let ghost before = connected@;
            assert(connection_ids@.to_set().contains(connection_ids@[j as int]));
            if let Some(connection) = connections.0.get(&c) {
                if connection.is_authentication_connection() {
                    if let Some(main) = connection.main_port() {
                        let answer = main.is_peer_connected(peer);
                        connected.push(answer);
                        proof {
                            if forall|k: int| 0 <= k < connected@.len() ==> #[trigger] connected@[k] {
                                assert forall|k: int| 0 <= k < before.len() implies #[trigger] before[k] by {
                                    assert(connected@[k] == before[k]);
                                }
                                assert(connected@[before.len() as int]);
                            }
                        }
                    }
                }
            }
            j = j + 1;
        }
        proof {
            assert((forall|k: int| 0 <= k < connected@.len() ==> #[trigger] connected@[k]) == (forall|c: u32|
                #[trigger] connections.0@.contains_key(c) && connections.0@[c].authentication_spec()
                    && connections.0@[c].main_slot() is Some ==> connections.0@[c].main_slot()->0.peer_connected(peer))) by {
                if forall|k: int| 0 <= k < connected@.len() ==> #[trigger] connected@[k] {
                    assert forall|c: u32|
                        #[trigger] connections.0@.contains_key(c) && connections.0@[c].authentication_spec()
                            && connections.0@[c].main_slot() is Some implies connections.0@[c].main_slot()->0.peer_connected(peer) by {
                        assert(connection_ids@.to_set().contains(c));
                        let m = choose|m: int| 0 <= m < connection_ids@.len() && connection_ids@[m] == c;
                        assert(connections.0@.contains_key(connection_ids@[m]));
                    }
                }
            }
        }
        let ghost before = sessions@;
        if !keep_session(peer, local_peer, &connected) {
            sessions.0.remove(&s);
            proof {
                assert forall|k: int| i < k < session_ids@.len() implies #[trigger] sessions@.contains_key(session_ids@[k]) by {
                    assert(session_ids@[k] != session_ids@[i as int]);
                }
            }
        }
        proof {
            assert forall|k: int|
                0 <= k < i + 1 implies #[trigger] sessions@.contains_key(session_ids@[k]) == session_kept(
                    connections.0@,
                    old(sessions)@[session_ids@[k]],
                    local_peer,
                ) by {
                if k < i {
                    assert(session_ids@[k] != session_ids@[i as int]);
                    assert(before.contains_key(session_ids@[k]) == sessions@.contains_key(session_ids@[k]));
                }
            }
        }
        i = i + 1;
    }
    proof {
        assert forall|s: u128|
            #[trigger] sessions@.contains_key(s) == (old(sessions)@.contains_key(s) && session_kept(
                connections.0@,
                old(sessions)@[s],
                local_peer,
            )) by {
            if old(sessions)@.contains_key(s) {
                assert(session_ids@.to_set().contains(s));
                let j = choose|j: int| 0 <= j < session_ids@.len() && session_ids@[j] == s;
                assert(sessions@.contains_key(session_ids@[j]) == session_kept(
                    connections.0@,
                    old(sessions)@[session_ids@[j]],
                    local_peer,
                ));
            }
        }
    }
}

/// The server confirmed port `port_id` of client connection
/// `connection_id`: the process takes the session and peer ids it was
/// given, and the port, if it was not authenticated yet, is asked to
/// authenticate. Returns the event to report when it was asked.
pub fn confirm_port_authentication<P: ClientPortTrait<I>, I>(
    connections: &mut NetworkConnection<ClientConnection<P, I>>,
    local_peer: &mut LocalPeerUUID,
    local_session: &mut LocalSeasonUUID,
    connection_id: u32,
    port_id: u32,
    message: &AuthenticatedFromServer,
) -> (r: Option<ClientPortAuthenticated>)
    ensures
        final(local_peer).0 == Some(message.peer_uuid),
        final(local_session).0 == Some(message.session_uuid),
        others_unchanged(final(connections).0@, old(connections).0@, connection_id),
        old(connections).0@.contains_key(connection_id) ==> ({
            let o = old(connections).0@[connection_id];
            let c = final(connections).0@[connection_id];
            &&& c.ports().dom() == o.ports().dom()
            &&& c.same_settings(&o)
        }),
        r is Some == (old(connections).0@.contains_key(connection_id) && old(connections).0@[connection_id].ports().contains_key(
            port_id,
        ) && !old(connections).0@[connection_id].ports()[port_id].port_authenticated()),
        match r {
            Some(e) => {
                let o = old(connections).0@[connection_id];
                let c = final(connections).0@[connection_id];
                &&& e.connection_id == connection_id && e.port_id == port_id
                &&& c.ports()[port_id].port_authenticated()
                &&& c.ports() == o.ports().insert(port_id, c.ports()[port_id])
            },
            None => old(connections).0@.contains_key(connection_id) ==> final(connections).0@[connection_id].ports()
                == old(connections).0@[connection_id].ports(),
        },
{
    local_peer.0 = Some(message.peer_uuid);
    local_session.0 = Some(message.session_uuid);
    if let Some(connection) = get_mut_u32(&mut connections.0, connection_id) {
        if let Some(port) = connection.get_port(port_id) {
            if !port.is_port_authenticated() {
                port.authenticate_port();
                return Some(ClientPortAuthenticated { port_id, connection_id });
            }
        }
        assert(connection.ports() =~= old(connections).0@[connection_id].ports());
    }
    None
}

/// Every connection is still there, with the same port ids and settings.
pub open spec fn same_server_shape<P, I>(
    new: Map<u32, ServerConnection<P, I>>,
    old: Map<u32, ServerConnection<P, I>>,
) -> bool {
    &&& forall|c: u32| #[trigger] new.contains_key(c) == old.contains_key(c)
    &&& forall|c: u32|
        #[trigger] old.contains_key(c) ==> new[c].ports().dom() == old[c].ports().dom()
            && new[c].secondary().dom() == old[c].secondary().dom() && new[c].same_settings(&old[c])
}

/// Every connection is still there, with the same port ids and settings.
pub open spec fn same_client_shape<P, I>(
    new: Map<u32, ClientConnection<P, I>>,
    old: Map<u32, ClientConnection<P, I>>,
) -> bool {
    &&& forall|c: u32| #[trigger] new.contains_key(c) == old.contains_key(c)
    &&& forall|c: u32|
        #[trigger] old.contains_key(c) ==> new[c].ports().dom() == old[c].ports().dom()
            && new[c].secondary().dom() == old[c].secondary().dom() && new[c].same_settings(&old[c])
}

/// A visited port's answer to whether it is (or knows the session as)
/// authenticated.
pub struct PortAnswer {
    pub port_id: u32,
    pub answer: bool,
}

/// The answers of one connection: one for every port visited (present, id
/// at most the number of secondary ports), in increasing port order.
pub open spec fn answers_ok(log: Seq<PortAnswer>, ports: Set<u32>, secondary_len: nat) -> bool {
    &&& forall|k: int| 0 <= k < log.len() ==> visited(ports, secondary_len, (#[trigger] log[k]).port_id)
    &&& forall|a: int, b: int| 0 <= a < b < log.len() ==> (#[trigger] log[a]).port_id < (#[trigger] log[b]).port_id
    &&& forall|p: u32| #[trigger] visited(ports, secondary_len, p) ==> exists|k: int| 0 <= k < log.len() && (#[trigger] log[k]).port_id == p
}

/// The ports that answered no, in order.
pub open spec fn refused_ports(log: Seq<PortAnswer>) -> Seq<u32>
    decreases log.len(),
{
    if log.len() == 0 {
        Seq::empty()
    } else {
        refused_ports(log.drop_last()) + if log.last().answer {
            Seq::empty()
        } else {
            seq![log.last().port_id]
        }
    }
}

/// Has every visited port of a server connection that does not know the
/// local session authenticate it, as the local peer; returns every visited
/// port's answer to whether it knew the session (those that answered no
/// were asked to authenticate it).
/// What authenticating the local session `session` as `peer` did to the
/// visited ports of a server connection, by their answers: a port that knew
/// the session answered whether it had a peer for it; a port that answered
/// yes was left as it was; one that answered no and knew the session now
/// has it as `peer`.
pub open spec fn server_answers_applied<P: ServerPortTrait<I>, I>(
    answers: Seq<PortAnswer>,
    before: ServerConnection<P, I>,
    after: ServerConnection<P, I>,
    session: u128,
    peer: u128,
) -> bool {
    forall|k: int| 0 <= k < answers.len() ==> ({
        let p = (#[trigger] answers[k]).port_id;
        let o = before.ports()[p];
        let f = after.ports()[p];
        &&& o.session_known(session) ==> answers[k].answer == (o.peer_of(session) is Some)
        &&& answers[k].answer ==> f == o
        &&& !answers[k].answer && o.session_known(session) ==> f.session_known(session) && f.peer_of(session) == Some(peer)
    })
}

/// What authenticating the local peer did to the visited ports of a client
/// connection, by their answers: each answered whether it was
/// authenticated; those that answered yes were left as they were, and all
/// are authenticated now.
pub open spec fn client_answers_applied<P: ClientPortTrait<I>, I>(
    answers: Seq<PortAnswer>,
    before: ClientConnection<P, I>,
    after: ClientConnection<P, I>,
) -> bool {
    forall|k: int| 0 <= k < answers.len() ==> ({
        let p = (#[trigger] answers[k]).port_id;
        let o = before.ports()[p];
        let f = after.ports()[p];
        &&& answers[k].answer == o.port_authenticated()
        &&& answers[k].answer ==> f == o
        &&& f.port_authenticated()
    })
}

fn authenticate_local_on_server<P: ServerPortTrait<I>, I>(connection: &mut ServerConnection<P, I>, session: u128, peer: u128) -> (r: Vec<PortAnswer>)
    ensures
        final(connection).ports().dom() == old(connection).ports().dom(),
        final(connection).secondary().dom() == old(connection).secondary().dom(),
        final(connection).same_settings(old(connection)),
        answers_ok(r@, old(connection).ports().dom(), old(connection).secondary().dom().len()),
        server_answers_applied(r@, *old(connection), *final(connection), session, peer),
{
    let ports_amount = connection.get_ports_amount();
    let ghost ports = old(connection).ports().dom();
    let ghost len = old(connection).secondary().dom().len();
    let mut log: Vec<PortAnswer> = Vec::new();
    
    let mut port_id: u64 = 0;
    while port_id <= ports_amount as u64
        invariant
            connection.ports().dom() == ports,
            connection.secondary().dom() == old(connection).secondary().dom(),
            connection.same_settings(old(connection)),
            len == old(connection).secondary().dom().len(),
            ports_amount == len as u32,
            port_id <= ports_amount as u64 + 1,
            forall|k: int| 0 <= k < log@.len() ==> visited(ports, len, (#[trigger] log@[k]).port_id) && log@[k].port_id < port_id,
            forall|a: int, b: int| 0 <= a < b < log@.len() ==> (#[trigger] log@[a]).port_id < (#[trigger] log@[b]).port_id,
            forall|p: u32| #[trigger] visited(ports, len, p) && p < port_id ==> exists|k: int| 0 <= k < log@.len() && (#[trigger] log@[k]).port_id == p,
            forall|k: int| 0 <= k < log@.len() ==> ({
                let p = (#[trigger] log@[k]).port_id;
                let o = old(connection).ports()[p];
                let f = connection.ports()[p];
                &&& o.session_known(session) ==> log@[k].answer == (o.peer_of(session) is Some)
                &&& log@[k].answer ==> f == o
                &&& !log@[k].answer && o.session_known(session) ==> f.session_known(session) && f.peer_of(session) == Some(peer)
            }),
            forall|p: u32| #[trigger] ports.contains(p) && (p as int) >= port_id ==> connection.ports()[p] == old(connection).ports()[p],
        decreases ports_amount as u64 + 1 - port_id,
    {
        let id = port_id as u32;
        let ghost before = log@;
        if let Some(port) = connection.get_port(id) {
            let answer = port.is_season_authenticated(session);
            log.push(PortAnswer { port_id: id, answer });
            if !answer {
                port.authenticate_peer(session, peer, Some(session));
            }
            proof {
                assert(log@.drop_last() =~= before);
                assert forall|p: u32| #[trigger] visited(ports, len, p) && p < port_id + 1 implies exists|k: int|
                    0 <= k < log@.len() && (#[trigger] log@[k]).port_id == p by {
                    if p < port_id {
                        let k = choose|k: int| 0 <= k < before.len() && (#[trigger] before[k]).port_id == p;
                        assert(log@[k] == before[k]);
                    } else {
                        assert(log@[before.len() as int].port_id == p);
                    }
                }
            }
        }
        assert(connection.ports().dom() =~= ports);
        port_id = port_id + 1;
    }
    log
}

/// Has every visited port of a client connection authenticate, where it has
/// not yet; returns every visited port's answer to whether it was
/// authenticated (those that answered no were asked to authenticate).
fn authenticate_local_on_client<P: ClientPortTrait<I>, I>(connection: &mut ClientConnection<P, I>) -> (r: Vec<PortAnswer>)
    ensures
        final(connection).ports().dom() == old(connection).ports().dom(),
        final(connection).secondary().dom() == old(connection).secondary().dom(),
        final(connection).same_settings(old(connection)),
        answers_ok(r@, old(connection).ports().dom(), old(connection).secondary().dom().len()),
        client_answers_applied(r@, *old(connection), *final(connection)),
{
    let ports_amount = connection.get_ports_amount();
    let ghost ports = old(connection).ports().dom();
    let ghost len = old(connection).secondary().dom().len();
    let mut log: Vec<PortAnswer> = Vec::new();
    
    let mut port_id: u64 = 0;
    while port_id <= ports_amount as u64
        invariant
            connection.ports().dom() == ports,
            connection.secondary().dom() == old(connection).secondary().dom(),
            connection.same_settings(old(connection)),
            len == old(connection).secondary().dom().len(),
            ports_amount == len as u32,
            port_id <= ports_amount as u64 + 1,
            forall|k: int| 0 <= k < log@.len() ==> visited(ports, len, (#[trigger] log@[k]).port_id) && log@[k].port_id < port_id,
            forall|a: int, b: int| 0 <= a < b < log@.len() ==> (#[trigger] log@[a]).port_id < (#[trigger] log@[b]).port_id,
            forall|p: u32| #[trigger] visited(ports, len, p) && p < port_id ==> exists|k: int| 0 <= k < log@.len() && (#[trigger] log@[k]).port_id == p,
            forall|k: int| 0 <= k < log@.len() ==> ({
                let p = (#[trigger] log@[k]).port_id;
                let o = old(connection).ports()[p];
                let f = connection.ports()[p];
                &&& log@[k].answer == o.port_authenticated()
                &&& log@[k].answer ==> f == o
                &&& f.port_authenticated()
            }),
            forall|p: u32| #[trigger] ports.contains(p) && (p as int) >= port_id ==> connection.ports()[p] == old(connection).ports()[p],
        decreases ports_amount as u64 + 1 - port_id,
    {
        let id = port_id as u32;
        let ghost before = log@;
        if let Some(port) = connection.get_port(id) {
            let answer = port.is_port_authenticated();
            log.push(PortAnswer { port_id: id, answer });
            if !answer {
                port.authenticate_port();
            }
            proof {
                assert(log@.drop_last() =~= before);
                assert forall|p: u32| #[trigger] visited(ports, len, p) && p < port_id + 1 implies exists|k: int|
                    0 <= k < log@.len() && (#[trigger] log@[k]).port_id == p by {
                    if p < port_id {
                        let k = choose|k: int| 0 <= k < before.len() && (#[trigger] before[k]).port_id == p;
                        assert(log@[k] == before[k]);
                    } else {
                        assert(log@[before.len() as int].port_id == p);
                    }
                }
            }
        }
        assert(connection.ports().dom() =~= ports);
        port_id = port_id + 1;
    }
    log
}

/// On a local server, the local peer authenticates itself: the first time,
/// it takes `fresh_peer` and `fresh_session` as its ids and records the
/// session; then every server port that does not know the local session
/// yet authenticates it, and every client port that is not authenticated
/// becomes so. Returns, for every server connection and then for every
/// client connection, each once, the answers of its visited ports (the
/// ports that answered no were asked to authenticate).
pub fn authenticate_local_peer<SP: ServerPortTrait<I>, I, CP: ClientPortTrait<J>, J>(
    local_peer: &mut LocalPeerUUID,
    local_session: &mut LocalSeasonUUID,
    sessions: &mut AuthenticatedSessions,
    server_connections: &mut NetworkConnection<ServerConnection<SP, I>>,
    client_connections: &mut NetworkConnection<ClientConnection<CP, J>>,
    fresh_peer: u128,
    fresh_session: u128,
) -> (r: (Vec<(u32, Vec<PortAnswer>)>, Vec<(u32, Vec<PortAnswer>)>))
    requires
        old(local_peer).0 is Some ==> old(local_session).0 is Some,
    ensures
        old(local_peer).0 is None ==> final(local_peer).0 == Some(fresh_peer) && final(local_session).0
            == Some(fresh_session) && final(sessions)@ == old(sessions)@.insert(fresh_session, fresh_peer),
        old(local_peer).0 is Some ==> final(local_peer).0 == old(local_peer).0 && final(local_session).0
            == old(local_session).0 && final(sessions)@ == old(sessions)@,
        same_server_shape(final(server_connections).0@, old(server_connections).0@),
        same_client_shape(final(client_connections).0@, old(client_connections).0@),
        forall|k: int|
            0 <= k < r.0@.len() ==> old(server_connections).0@.contains_key((#[trigger] r.0@[k]).0) && answers_ok(
                r.0@[k].1@,
                old(server_connections).0@[r.0@[k].0].ports().dom(),
                old(server_connections).0@[r.0@[k].0].secondary().dom().len(),
            ),
        forall|a: int, b: int| 0 <= a < b < r.0@.len() ==> (#[trigger] r.0@[a]).0 != (#[trigger] r.0@[b]).0,
        forall|c: u32| #[trigger] old(server_connections).0@.contains_key(c) ==> exists|k: int| 0 <= k < r.0@.len() && (#[trigger] r.0@[k]).0 == c,
        forall|k: int|
            0 <= k < r.1@.len() ==> old(client_connections).0@.contains_key((#[trigger] r.1@[k]).0) && answers_ok(
                r.1@[k].1@,
                old(client_connections).0@[r.1@[k].0].ports().dom(),
                old(client_connections).0@[r.1@[k].0].secondary().dom().len(),
            ),
        forall|a: int, b: int| 0 <= a < b < r.1@.len() ==> (#[trigger] r.1@[a]).0 != (#[trigger] r.1@[b]).0,
        forall|c: u32| #[trigger] old(client_connections).0@.contains_key(c) ==> exists|k: int| 0 <= k < r.1@.len() && (#[trigger] r.1@[k]).0 == c,
        final(local_peer).0 is Some && final(local_session).0 is Some,
        forall|k: int|
            0 <= k < r.0@.len() ==> server_answers_applied(
                (#[trigger] r.0@[k]).1@,
                old(server_connections).0@[r.0@[k].0],
                final(server_connections).0@[r.0@[k].0],
                final(local_session).0->0,
                final(local_peer).0->0,
            ),
        forall|k: int|
            0 <= k < r.1@.len() ==> client_answers_applied(
                (#[trigger] r.1@[k]).1@,
                old(client_connections).0@[r.1@[k].0],
                final(client_connections).0@[r.1@[k].0],
            ),
{
    if local_peer.0.is_none() {
        local_peer.0 = Some(fresh_peer);
        local_session.0 = Some(fresh_session);
        sessions.insert(fresh_session, fresh_peer);
    }
    let session = match local_session.0 {
        Some(s) => s,
        None => fresh_session,
    };
    let peer = match local_peer.0 {
        Some(p) => p,
        None => fresh_peer,
    };
    let server_ids = keys_of(&server_connections.0);
    let mut server_answers: Vec<(u32, Vec<PortAnswer>)> = Vec::new();
    let mut i: usize = 0;
    while i < server_ids.len()
        invariant
            i <= server_ids@.len(),
            server_ids@.to_set() == old(server_connections).0@.dom(),
            server_ids@.no_duplicates(),
            same_server_shape(server_connections.0@, old(server_connections).0@),
            server_answers@.len() == i,
            forall|k: int| 0 <= k < i ==> (#[trigger] server_answers@[k]).0 == server_ids@[k] && answers_ok(
                server_answers@[k].1@,
                old(server_connections).0@[server_ids@[k]].ports().dom(),
                old(server_connections).0@[server_ids@[k]].secondary().dom().len(),
            ),
            forall|k: int|
                0 <= k < i ==> server_answers_applied(
                    (#[trigger] server_answers@[k]).1@,
                    old(server_connections).0@[server_ids@[k]],
                    server_connections.0@[server_ids@[k]],
                    session,
                    peer,
                ),
            forall|k: int| i <= k < server_ids@.len() ==> #[trigger] server_connections.0@[server_ids@[k]] == old(server_connections).0@[server_ids@[k]],
        decreases server_ids@.len() - i,
    {
        let c = server_ids[i];
        let ghost before = server_connections.0@;
        let ghost ab = server_answers@;
        assert(server_ids@.to_set().contains(server_ids@[i as int]));
        if let Some(connection) = get_mut_u32(&mut server_connections.0, c) {
            let answers = authenticate_local_on_server(connection, session, peer);
            server_answers.push((c, answers));
        }
        proof {
            assert forall|k: int| 0 <= k < i + 1 implies server_answers_applied(
                (#[trigger] server_answers@[k]).1@,
                old(server_connections).0@[server_ids@[k]],
                server_connections.0@[server_ids@[k]],
                session,
                peer,
            ) by {
                if k < i {
                    assert(server_ids@[k] != c);
                    assert(server_answers@[k] == ab[k]);
                }
            }
            assert forall|k: int| i + 1 <= k < server_ids@.len() implies #[trigger] server_connections.0@[server_ids@[k]]
                == old(server_connections).0@[server_ids@[k]] by {
                assert(server_ids@[k] != c);
            }
        }
        i = i + 1;
    }
    let client_ids = keys_of(&client_connections.0);
    let mut client_answers: Vec<(u32, Vec<PortAnswer>)> = Vec::new();
    let mut i: usize = 0;
    while i < client_ids.len()
        invariant
            i <= client_ids@.len(),
            client_ids@.to_set() == old(client_connections).0@.dom(),
            client_ids@.no_duplicates(),
            same_client_shape(client_connections.0@, old(client_connections).0@),
            client_answers@.len() == i,
            forall|k: int| 0 <= k < i ==> (#[trigger] client_answers@[k]).0 == client_ids@[k] && answers_ok(
                client_answers@[k].1@,
                old(client_connections).0@[client_ids@[k]].ports().dom(),
                old(client_connections).0@[client_ids@[k]].secondary().dom().len(),
            ),
            forall|k: int|
                0 <= k < i ==> client_answers_applied(
                    (#[trigger] client_answers@[k]).1@,
                    old(client_connections).0@[client_ids@[k]],
                    client_connections.0@[client_ids@[k]],
                ),
            forall|k: int| i <= k < client_ids@.len() ==> #[trigger] client_connections.0@[client_ids@[k]] == old(client_connections).0@[client_ids@[k]],
        decreases client_ids@.len() - i,
    {
        let c = client_ids[i];
        let ghost ab = client_answers@;
        assert(client_ids@.to_set().contains(client_ids@[i as int]));
        if let Some(connection) = get_mut_u32(&mut client_connections.0, c) {
            let answers = authenticate_local_on_client(connection);
            client_answers.push((c, answers));
        }
        proof {
            assert forall|k: int| 0 <= k < i + 1 implies client_answers_applied(
                (#[trigger] client_answers@[k]).1@,
                old(client_connections).0@[client_ids@[k]],
                client_connections.0@[client_ids@[k]],
            ) by {
                if k < i {
                    assert(client_ids@[k] != c);
                    assert(client_answers@[k] == ab[k]);
                }
            }
            assert forall|k: int| i + 1 <= k < client_ids@.len() implies #[trigger] client_connections.0@[client_ids@[k]]
                == old(client_connections).0@[client_ids@[k]] by {
                assert(client_ids@[k] != c);
            }
        }
        i = i + 1;
    }
    proof {
        assert forall|c: u32| #[trigger] old(server_connections).0@.contains_key(c) implies exists|k: int|
            0 <= k < server_answers@.len() && (#[trigger] server_answers@[k]).0 == c by {
            assert(server_ids@.to_set().contains(c));
            let j = choose|j: int| 0 <= j < server_ids@.len() && server_ids@[j] == c;
            assert(server_answers@[j].0 == c);
        }
        assert forall|c: u32| #[trigger] old(client_connections).0@.contains_key(c) implies exists|k: int|
            0 <= k < client_answers@.len() && (#[trigger] client_answers@[k]).0 == c by {
            assert(client_ids@.to_set().contains(c));
            let j = choose|j: int| 0 <= j < client_ids@.len() && client_ids@[j] == c;
            assert(client_answers@[j].0 == c);
        }
        assert forall|a: int, b: int| 0 <= a < b < server_answers@.len() implies (#[trigger] server_answers@[a]).0
            != (#[trigger] server_answers@[b]).0 by {
            assert(server_answers@[a].0 == server_ids@[a] && server_answers@[b].0 == server_ids@[b]);
        }
        assert forall|a: int, b: int| 0 <= a < b < client_answers@.len() implies (#[trigger] client_answers@[a]).0
            != (#[trigger] client_answers@[b]).0 by {
            assert(client_answers@[a].0 == client_ids@[a] && client_answers@[b].0 == client_ids@[b]);
        }
    }
    let result = (server_answers, client_answers);
    assert forall|c: u32| #[trigger] old(server_connections).0@.contains_key(c) implies exists|k: int|
        0 <= k < result.0@.len() && (#[trigger] result.0@[k]).0 == c by {
        let k = choose|k: int| 0 <= k < result.0@.len() && (#[trigger] server_answers@[k]).0 == c;
        assert(result.0@[k] == server_answers@[k]);
    }
    assert forall|c: u32| #[trigger] old(client_connections).0@.contains_key(c) implies exists|k: int|
        0 <= k < result.1@.len() && (#[trigger] result.1@[k]).0 == c by {
        let k = choose|k: int| 0 <= k < result.1@.len() && (#[trigger] client_answers@[k]).0 == c;
        assert(result.1@[k] == client_answers@[k]);
    }
    result
}

/// The ports of a client connection that still have to authenticate,
/// with every visited port's answer to whether it is authenticated: the
/// listed ports are exactly those that answered no, in order.
fn unauthenticated_ports<P: ClientPortTrait<I>, I>(connection: &mut ClientConnection<P, I>) -> (r: (Vec<u32>, Vec<PortAnswer>))
    ensures
        final(connection).ports().dom() == old(connection).ports().dom(),
        final(connection).secondary().dom() == old(connection).secondary().dom(),
        final(connection).same_settings(old(connection)),
        answers_ok(r.1@, old(connection).ports().dom(), old(connection).secondary().dom().len()),
        r.0@ == refused_ports(r.1@),
        final(connection).ports() == old(connection).ports(),
        forall|k: int| 0 <= k < r.1@.len() ==> (#[trigger] r.1@[k]).answer == old(connection).ports()[r.1@[k].port_id].port_authenticated(),
{
    let ports_amount = connection.get_ports_amount();
    let ghost ports = old(connection).ports().dom();
    let ghost len = old(connection).secondary().dom().len();
    let mut log: Vec<PortAnswer> = Vec::new();
    let mut listed: Vec<u32> = Vec::new();
    let mut port_id: u64 = 0;
    while port_id <= ports_amount as u64
        invariant
            connection.ports().dom() == ports,
            connection.secondary().dom() == old(connection).secondary().dom(),
            connection.same_settings(old(connection)),
            len == old(connection).secondary().dom().len(),
            ports_amount == len as u32,
            port_id <= ports_amount as u64 + 1,
            forall|k: int| 0 <= k < log@.len() ==> visited(ports, len, (#[trigger] log@[k]).port_id) && log@[k].port_id < port_id,
            forall|a: int, b: int| 0 <= a < b < log@.len() ==> (#[trigger] log@[a]).port_id < (#[trigger] log@[b]).port_id,
            forall|p: u32| #[trigger] visited(ports, len, p) && p < port_id ==> exists|k: int| 0 <= k < log@.len() && (#[trigger] log@[k]).port_id == p,
            listed@ == refused_ports(log@),
            connection.ports() == old(connection).ports(),
            forall|k: int| 0 <= k < log@.len() ==> (#[trigger] log@[k]).answer == old(connection).ports()[log@[k].port_id].port_authenticated(),
        decreases ports_amount as u64 + 1 - port_id,
    {
        let id = port_id as u32;
        let ghost before = log@;
        if let Some(port) = connection.get_port(id) {
            let answer = port.is_port_authenticated();
            log.push(PortAnswer { port_id: id, answer });
            if !answer {
                listed.push(id);
            }
            proof {
                assert(log@.drop_last() =~= before);
                assert forall|p: u32| #[trigger] visited(ports, len, p) && p < port_id + 1 implies exists|k: int|
                    0 <= k < log@.len() && (#[trigger] log@[k]).port_id == p by {
                    if p < port_id {
                        let k = choose|k: int| 0 <= k < before.len() && (#[trigger] before[k]).port_id == p;
                        assert(log@[k] == before[k]);
                    } else {
                        assert(log@[before.len() as int].port_id == p);
                    }
                }
            }
        }
        assert(connection.ports().dom() =~= ports);
        port_id = port_id + 1;
    }
    (listed, log)
}

/// The ports each client connection has to authenticate, each connection
/// at most once. Without a session yet, only the main port of every
/// authentication connection asks; with one, every connection is listed
/// with its visited ports that answered that they are not authenticated.
/// The second result holds, entry by entry, the answers the listed ports
/// were chosen by (none without a session).
#[verifier::rlimit(60)]
pub fn pending_authentications<P: ClientPortTrait<I>, I>(
    connections: &mut NetworkConnection<ClientConnection<P, I>>,
    local_session: Option<u128>,
) -> (r: (Vec<(u32, Vec<u32>)>, Vec<Vec<PortAnswer>>))
    ensures
        same_client_shape(final(connections).0@, old(connections).0@),
        r.0@.len() == r.1@.len(),
        forall|k: int| 0 <= k < r.0@.len() ==> #[trigger] old(connections).0@.contains_key(r.0@[k].0),
        forall|a: int, b: int| 0 <= a < b < r.0@.len() ==> (#[trigger] r.0@[a]).0 != (#[trigger] r.0@[b]).0,
        local_session is None ==> forall|k: int|
            0 <= k < r.0@.len() ==> (#[trigger] r.0@[k]).1@ == seq![0u32] && old(connections).0@[r.0@[k].0].authentication_spec()
                && r.1@[k]@ == Seq::<PortAnswer>::empty(),
        local_session is None ==> forall|c: u32|
            #[trigger] old(connections).0@.contains_key(c) && old(connections).0@[c].authentication_spec()
                ==> exists|k: int| 0 <= k < r.0@.len() && r.0@[k].0 == c,
        local_session is Some ==> forall|c: u32|
            #[trigger] old(connections).0@.contains_key(c) ==> exists|k: int| 0 <= k < r.0@.len() && r.0@[k].0 == c,
        local_session is Some ==> forall|k: int|
            0 <= k < r.0@.len() ==> answers_ok(
                #[trigger] r.1@[k]@,
                old(connections).0@[r.0@[k].0].ports().dom(),
                old(connections).0@[r.0@[k].0].secondary().dom().len(),
            ) && r.0@[k].1@ == refused_ports(r.1@[k]@),
        local_session is Some ==> forall|k: int, j: int|
            0 <= k < r.1@.len() && 0 <= j < r.1@[k]@.len() ==> (#[trigger] r.1@[k]@[j]).answer == old(connections).0@[r.0@[k].0].ports()[r.1@[k]@[j].port_id].port_authenticated(),
        forall|c: u32| #[trigger] old(connections).0@.contains_key(c) ==> final(connections).0@[c].ports() == old(connections).0@[c].ports(),
{
    let ids = keys_of(&connections.0);
    let mut pending: Vec<(u32, Vec<u32>)> = Vec::new();
    let mut answers: Vec<Vec<PortAnswer>> = Vec::new();
    let mut i: usize = 0;
    while i < ids.len()
        invariant
            ids@.to_set() == old(connections).0@.dom(),
            ids@.no_duplicates(),
            i <= ids@.len(),
            same_client_shape(connections.0@, old(connections).0@),
            pending@.len() == answers@.len(),
            forall|k: int| 0 <= k < pending@.len() ==> exists|j: int| 0 <= j < i && ids@[j] == (#[trigger] pending@[k]).0,
            forall|k: int| 0 <= k < pending@.len() ==> #[trigger] old(connections).0@.contains_key(pending@[k].0),
            forall|a: int, b: int| 0 <= a < b < pending@.len() ==> (#[trigger] pending@[a]).0 != (#[trigger] pending@[b]).0,
            local_session is None ==> forall|k: int|
                0 <= k < pending@.len() ==> (#[trigger] pending@[k]).1@ == seq![0u32] && old(connections).0@[pending@[k].0].authentication_spec()
                    && answers@[k]@ == Seq::<PortAnswer>::empty(),
            local_session is Some ==> forall|k: int|
                0 <= k < pending@.len() ==> answers_ok(
                    #[trigger] answers@[k]@,
                    old(connections).0@[pending@[k].0].ports().dom(),
                    old(connections).0@[pending@[k].0].secondary().dom().len(),
                ) && pending@[k].1@ == refused_ports(answers@[k]@),
            local_session is None ==> forall|j: int|
                0 <= j < i && old(connections).0@[#[trigger] ids@[j]].authentication_spec()
                    ==> exists|k: int| 0 <= k < pending@.len() && pending@[k].0 == ids@[j],
            local_session is Some ==> forall|j: int|
                0 <= j < i ==> exists|k: int| 0 <= k < pending@.len() && pending@[k].0 == #[trigger] ids@[j],
            local_session is Some ==> forall|k: int, j: int|
                0 <= k < answers@.len() && 0 <= j < answers@[k]@.len() ==> (#[trigger] answers@[k]@[j]).answer == old(connections).0@[pending@[k].0].ports()[answers@[k]@[j].port_id].port_authenticated(),
            forall|c: u32| #[trigger] old(connections).0@.contains_key(c) ==> connections.0@[c].ports() == old(connections).0@[c].ports(),
        decreases ids@.len() - i,
    {
        let c = ids[i];
        assert(ids@.to_set().contains(ids@[i as int]));
        let ghost before = pending@;
        let ghost answers_before = answers@;
        if let Some(connection) = get_mut_u32(&mut connections.0, c) {
            if local_session.is_none() {
                if connection.is_authentication_connection() {
                    let mut main: Vec<u32> = Vec::new();
                    main.push(0);
                    assert(main@ =~= seq![0u32]);
                    pending.push((c, main));
                    let none: Vec<PortAnswer> = Vec::new();
                    answers.push(none);
                }
            } else {
                let (ports, log) = unauthenticated_ports(connection);
                pending.push((c, ports));
                answers.push(log);
            }
        }
        proof {
            if local_session is Some {
                assert forall|k: int, j: int|
                    0 <= k < answers@.len() && 0 <= j < answers@[k]@.len() implies (#[trigger] answers@[k]@[j]).answer == old(connections).0@[pending@[k].0].ports()[answers@[k]@[j].port_id].port_authenticated() by {
                    if k < answers_before.len() {
                        assert(answers@[k] == answers_before[k]);
                        assert(pending@[k] == before[k]);
                    }
                }
            }
            assert forall|k: int| 0 <= k < pending@.len() implies exists|j: int| 0 <= j < i + 1 && ids@[j] == (#[trigger] pending@[k]).0 by {
                if k < before.len() {
                    let j = choose|j: int| 0 <= j < i && ids@[j] == before[k].0;
                    assert(ids@[j] == pending@[k].0);
                } else {
                    assert(ids@[i as int] == pending@[k].0);
                }
            }
            assert forall|a: int, b: int| 0 <= a < b < pending@.len() implies (#[trigger] pending@[a]).0 != (#[trigger] pending@[b]).0 by {
                if b >= before.len() && a < before.len() {
                    let j = choose|j: int| 0 <= j < i && ids@[j] == before[a].0;
                    assert(ids@[j] != ids@[i as int]);
                } else if a < before.len() {
                    assert(pending@[a] == before[a] && pending@[b] == before[b]);
                }
            }
            if local_session is None {
                assert forall|j: int|
                    0 <= j <= i && old(connections).0@[#[trigger] ids@[j]].authentication_spec()
                        implies exists|k: int| 0 <= k < pending@.len() && pending@[k].0 == ids@[j] by {
                    if j < i {
                        let k = choose|k: int| 0 <= k < before.len() && before[k].0 == ids@[j];
                        assert(pending@[k] == before[k]);
                    } else {
                        assert(pending@[before.len() as int].0 == ids@[j]);
                    }
                }
            } else {
                assert forall|j: int| 0 <= j <= i implies exists|k: int| 0 <= k < pending@.len() && pending@[k].0 == #[trigger] ids@[j] by {
                    if j < i {
                        let k = choose|k: int| 0 <= k < before.len() && before[k].0 == ids@[j];
                        assert(pending@[k] == before[k]);
                    } else {
                        assert(pending@[before.len() as int].0 == ids@[j]);
                    }
                }
            }
        }
        i = i + 1;
    }
    let result = (pending, answers);
    proof {
        assert forall|c: u32| #[trigger] old(connections).0@.contains_key(c) implies exists|j: int| 0 <= j < ids@.len() && ids@[j] == c by {
            assert(ids@.to_set().contains(c));
        }
        if local_session is Some {
            assert forall|c: u32| #[trigger] old(connections).0@.contains_key(c) implies exists|k: int|
                0 <= k < result.0@.len() && result.0@[k].0 == c by {
                let j = choose|j: int| 0 <= j < ids@.len() && ids@[j] == c;
                let k = choose|k: int| 0 <= k < pending@.len() && pending@[k].0 == #[trigger] ids@[j];
                assert(result.0@[k] == pending@[k]);
            }
        } else {
            assert forall|c: u32| #[trigger] old(connections).0@.contains_key(c) && old(connections).0@[c].authentication_spec()
                implies exists|k: int| 0 <= k < result.0@.len() && result.0@[k].0 == c by {
                let j = choose|j: int| 0 <= j < ids@.len() && ids@[j] == c;
                assert(old(connections).0@[ids@[j]].authentication_spec());
                let k = choose|k: int| 0 <= k < pending@.len() && pending@[k].0 == ids@[j];
                assert(result.0@[k] == pending@[k]);
            }
        }
    }
    result
}

} // verus!
