//! Connections and their ports. A connection owns a main port (id 0) and
//! secondary ports (ids from 1); a process keeps its connections by id.

use std::collections::HashMap;
use vstd::prelude::*;
use crate::maps::keys_of;
use crate::messages::{postcard_decode_message_infos, MessageInfos};
use crate::sides::PortReliability;

verus! {

broadcast use vstd::std_specs::hash::group_hash_axioms;

/// `HashMap::get_mut` on a map keyed by `u32`.
/// Trusted: the reference handed out is to the value stored under `k`, and
/// the map afterwards holds under `k` whatever was written through it.
#[verifier::external_body]
pub(crate) fn get_mut_u32<'a, V>(m: &'a mut HashMap<u32, V>, k: u32) -> (r: Option<&'a mut V>)
    ensures
        match r {
            Some(v) => old(m)@.contains_key(k) && *v == old(m)@[k] && final(m)@ == old(m)@.insert(
                k,
                *final(v),
            ),
            None => !old(m)@.contains_key(k) && final(m)@ == old(m)@,
        },
{
    m.get_mut(&k)
}

/// A port of a server connection: it listens for peers, reads and writes
/// their messages and keeps their sessions. `I` is what every port of the
/// connection shares (a runtime, a limit on peers, ...).
///
/// The spec functions describe what the library relies on of a port's
/// state; each implementation says what they are for it.
pub trait ServerPortTrait<I> {
    /// What a port reports when it or one of its peers goes down.
    type Error;

    /// Whether the port was asked to start and has not gone down since.
    spec fn start_requested(&self) -> bool;

    /// Whether the port is closed.
    spec fn is_closed(&self) -> bool;

    /// Whether the port can serve as a main port.
    spec fn main_role_allowed(&self) -> bool;

    /// Whether the port serves as a main port.
    spec fn serves_as_main(&self) -> bool;

    /// The last message the port was handed to send: type id, peer, bytes.
    spec fn last_sent(&self) -> Option<(u32, u128, Vec<u8>)>;

    /// Whether the port has the session `session`.
    spec fn session_known(&self, session: u128) -> bool;

    /// The peer the session `session` of the port is authenticated as.
    spec fn peer_of(&self, session: u128) -> Option<u128>;

    /// Whether the port holds the session `uuid`, or the session of the
    /// authenticated peer `uuid`.
    spec fn holds(&self, uuid: u128) -> bool;

    /// Whether the peer `peer` is authenticated on the port.
    spec fn peer_connected(&self, peer: u128) -> bool;

    /// Whether the implementation describes what the port answers when
    /// polled through `down_answer` and `pending_messages`. One that does
    /// not (the default) promises nothing of those answers.
    open spec fn answers_described() -> bool {
        false
    }

    /// What `disconnected` answers now: whether the port went down, why,
    /// and whether it had been up before.
    open spec fn down_answer(&self) -> (bool, Option<Self::Error>, bool) {
        (false, None, false)
    }

    /// The messages received and not yet picked up, by session, with the
    /// peer each session was authenticated as.
    open spec fn pending_messages(&self) -> Map<u128, (Vec<Vec<u8>>, Option<u128>)> {
        Map::empty()
    }

    fn start(&mut self, shared: &I)
        ensures
            final(self).start_requested(),
    ;

    fn close(&mut self)
        ensures
            final(self).is_closed(),
    ;

    /// Whether the port is up, and whether it came up during this call.
    fn started(&mut self) -> (bool, bool);

    /// Whether the port went down, why, and whether it had been up before.
    fn disconnected(&mut self) -> (r: (bool, Option<Self::Error>, bool))
        ensures
            Self::answers_described() ==> r == old(self).down_answer(),
    ;

    /// The messages received since the last call, by session, with the peer
    /// each session was authenticated as.
    fn get_peers_messages(&mut self) -> (r: HashMap<u128, (Vec<Vec<u8>>, Option<u128>)>)
        ensures
            Self::answers_described() ==> r@ == old(self).pending_messages(),
    ;

    fn get_port_reliability(&mut self) -> PortReliability;

    /// Asks the port to serve as a main port; `false` when it cannot.
    fn as_main_port(&mut self) -> (r: bool)
        ensures
            r == old(self).main_role_allowed(),
            r ==> final(self).serves_as_main(),
    ;

    /// Sends the (already serialized) `message` of type `message_id` to the
    /// authenticated peer `peer_id`.
    fn send_message_to_peer(&mut self, message_id: u32, peer_id: u128, shared: &I, message: &[u8])
        ensures
            match final(self).last_sent() {
                Some((id, peer, m)) => id == message_id && peer == peer_id && m@ == message@,
                None => false,
            },
    ;

    fn is_main_port(&self) -> (r: bool)
        ensures
            r == self.serves_as_main(),
    ;

    /// The envelope of a received message; `None` when the bytes are not one.
    /// Ports read envelopes as the library frames them (`MessageInfos`);
    /// an implementation may decode them its own way, but to the same result.
    fn deserialize_message_infos(&self, bytes: Vec<u8>) -> (r: Option<MessageInfos>)
        ensures
            match r {
                Some(m) => postcard_decode_message_infos(bytes@) == Some((m.message_id, m.message@)),
                None => postcard_decode_message_infos(bytes@) is None,
            },
    {
        MessageInfos::from_bytes(&bytes)
    }

    /// Sessions dropped since the last call, with their peer and the reason.
    fn get_peers_disconnected(&mut self) -> (r: HashMap<u128, (Option<u128>, Self::Error)>)
        default_ensures
            r@ == Map::<u128, (Option<u128>, Self::Error)>::empty(),
    {
        HashMap::new()
    }

    /// Sessions accepted since the last call.
    fn peers_connected(&mut self) -> (r: Vec<u128>)
        default_ensures
            r@ == Seq::<u128>::empty(),
    {
        Vec::new()
    }

    fn listen_peers(&mut self, shared: &I) {
    }

    /// Authenticates the session `current_season_uuid` as the peer
    /// `new_peer_id`, moving it to `new_season_uuid` when one is given.
    fn authenticate_peer(&mut self, current_season_uuid: u128, new_peer_id: u128, new_season_uuid: Option<u128>)
        ensures
            old(self).session_known(current_season_uuid) ==> ({
                let target = match new_season_uuid {
                    Some(n) => n,
                    None => current_season_uuid,
                };
                final(self).session_known(target) && final(self).peer_of(target) == Some(new_peer_id)
            }),
    ;

    fn is_season_authenticated(&self, season_uuid: u128) -> (r: bool)
        ensures
            self.session_known(season_uuid) ==> r == (self.peer_of(season_uuid) is Some),
    ;

    fn is_port_authenticate_able(&self) -> (r: bool)
        default_ensures
            r,
    {
        true
    }

    fn is_peer_connected(&self, peer_uuid: u128) -> (r: bool)
        ensures
            r == self.peer_connected(peer_uuid),
    ;

    /// Drops the session `uuid`, or the session of the authenticated peer
    /// `uuid`.
    fn disconnect_peer_or_season(&mut self, uuid: u128)
        ensures
            !final(self).holds(uuid),
    ;
}

/// A port of a client connection. As for server ports, the spec functions
/// describe what the library relies on of a port's state.
pub trait ClientPortTrait<I> {
    type Error;

    /// Whether the port was asked to start and has not gone down since.
    spec fn start_requested(&self) -> bool;

    /// Whether the port is closed.
    spec fn is_closed(&self) -> bool;

    /// Whether the port can serve as a main port.
    spec fn main_role_allowed(&self) -> bool;

    /// Whether the port serves as a main port.
    spec fn serves_as_main(&self) -> bool;

    /// The last message the port was handed to send: type id, bytes.
    spec fn last_sent(&self) -> Option<(u32, Vec<u8>)>;

    /// Whether the port is authenticated (a port that needs no
    /// authentication always is).
    spec fn port_authenticated(&self) -> bool;

    /// Whether the implementation describes what the port answers when
    /// polled through `down_answer` and `pending_messages`. One that does
    /// not (the default) promises nothing of those answers.
    open spec fn answers_described() -> bool {
        false
    }

    /// What `disconnected` answers now: whether the port went down, why,
    /// and whether it had been up before.
    open spec fn down_answer(&self) -> (bool, Option<Self::Error>, bool) {
        (false, None, false)
    }

    /// The messages received from the server and not yet picked up.
    open spec fn pending_messages(&self) -> Seq<Vec<u8>> {
        Seq::empty()
    }

    fn start(&mut self, shared: &I)
        ensures
            final(self).start_requested(),
    ;

    fn close(&mut self)
        ensures
            final(self).is_closed(),
    ;

    fn started(&mut self) -> (bool, bool);

    fn disconnected(&mut self) -> (r: (bool, Option<Self::Error>, bool))
        ensures
            Self::answers_described() ==> r == old(self).down_answer(),
    ;

    /// The messages received from the server since the last call.
    fn get_server_messages(&mut self) -> (r: Vec<Vec<u8>>)
        ensures
            Self::answers_described() ==> r@ == old(self).pending_messages(),
    ;

    fn get_port_reliability(&mut self) -> PortReliability;

    fn as_main_port(&mut self) -> (r: bool)
        ensures
            r == old(self).main_role_allowed(),
            r ==> final(self).serves_as_main(),
    ;

    /// Sends the (already serialized) `message` of type `message_id`.
    fn send_message_for_server(&mut self, message_id: u32, shared: &I, message: &[u8])
        ensures
            match final(self).last_sent() {
                Some((id, m)) => id == message_id && m@ == message@,
                None => false,
            },
    ;

    fn is_main_port(&self) -> (r: bool)
        ensures
            r == self.serves_as_main(),
    ;

    /// Ports read envelopes as the library frames them (`MessageInfos`);
    /// an implementation may decode them its own way, but to the same result.
    fn deserialize_message_infos(&self, bytes: Vec<u8>) -> (r: Option<MessageInfos>)
        ensures
            match r {
                Some(m) => postcard_decode_message_infos(bytes@) == Some((m.message_id, m.message@)),
                None => postcard_decode_message_infos(bytes@) is None,
            },
    {
        MessageInfos::from_bytes(&bytes)
    }

    fn listen_to_server(&mut self, shared: &I) {
    }

    fn authenticate_port(&mut self)
        ensures
            final(self).port_authenticated(),
    ;

    fn is_port_authenticated(&self) -> (r: bool)
        ensures
            r == self.port_authenticated(),
    ;

    fn is_port_authenticate_able(&self) -> (r: bool)
        default_ensures
            r,
    {
        true
    }
}

/// Builds a port from its settings.
pub trait ServerSettingsPort<P> {
    fn create_port(self) -> P;
}

pub trait ClientSettingsPort<P> {
    fn create_port(self) -> P;
}

/// Builds what the ports of a connection share, once the connection exists.
pub trait NetworkPortSharedInfos<P, I> {
    fn create_infos_server(server_connection: &ServerConnection<P, I>) -> I;

    fn create_infos_client(client_connection: &ClientConnection<P, I>) -> I;
}

/// The ports a connection answers to: its main port under id 0 (when it has
/// one) and its secondary ports under their own ids.
pub open spec fn port_map<P>(main: Option<P>, secondary: Map<u32, P>) -> Map<u32, P> {
    match main {
        Some(m) => secondary.remove(0).insert(0, m),
        None => secondary.remove(0),
    }
}

pub struct ServerConnection<P, I> {
    main_port: Option<P>,
    secondary_ports: HashMap<u32, P>,
    network_port_shared_infos: Option<I>,
    max_connections: u32,
    authentication_connection: bool,
}

pub struct ClientConnection<P, I> {
    main_port: Option<P>,
    secondary_ports: HashMap<u32, P>,
    network_port_shared_infos: Option<I>,
    authentication_connection: bool,
}

impl<P, I> ServerConnection<P, I> {
    pub closed spec fn main_slot(&self) -> Option<P> {
        self.main_port
    }

    pub closed spec fn secondary(&self) -> Map<u32, P> {
        self.secondary_ports@
    }

    pub open spec fn ports(&self) -> Map<u32, P> {
        port_map(self.main_slot(), self.secondary())
    }

    pub closed spec fn shared_infos(&self) -> Option<I> {
        self.network_port_shared_infos
    }

    pub closed spec fn max_connections_spec(&self) -> u32 {
        self.max_connections
    }

    pub closed spec fn authentication_spec(&self) -> bool {
        self.authentication_connection
    }

    /// Everything but the ports is as in `other`.
    pub open spec fn same_settings(&self, other: &Self) -> bool {
        &&& self.shared_infos() == other.shared_infos()
        &&& self.max_connections_spec() == other.max_connections_spec()
        &&& self.authentication_spec() == other.authentication_spec()
    }

    /// Asks `port` to serve as the main port of a new connection; `None`
    /// (and the port dropped) when it cannot.
    pub fn with_main_port(port: P, max_connections: u32, authentication_connection: bool) -> (r: Option<Self>) where
        P: ServerPortTrait<I>,
        ensures
            r is Some == port.main_role_allowed(),
            match r {
                Some(c) => {
                    &&& c.main_slot() is Some
                    &&& c.main_slot()->0.serves_as_main()
                    &&& c.secondary() == Map::<u32, P>::empty()
                    &&& c.shared_infos() is None
                    &&& c.max_connections_spec() == max_connections
                    &&& c.authentication_spec() == authentication_connection
                },
                None => true,
            },
    {
        let mut port = port;
        if !port.as_main_port() {
            return None;
        }
        Some(
            ServerConnection {
                main_port: Some(port),
                secondary_ports: HashMap::new(),
                network_port_shared_infos: None,
                max_connections,
                authentication_connection,
            },
        )
    }

    /// Creates the port from `settings` and makes it the main port of a new
    /// connection (`with_main_port`); `None` when the port cannot serve as a
    /// main port.
    pub fn create_connection<S: ServerSettingsPort<P>>(
        max_connections: u32,
        settings: S,
        authentication_connection: bool,
    ) -> (r: Option<Self>) where P: ServerPortTrait<I>
        ensures
            match r {
                Some(c) => {
                    &&& c.main_slot() is Some
                    &&& c.main_slot()->0.serves_as_main()
                    &&& c.secondary() == Map::<u32, P>::empty()
                    &&& c.shared_infos() is None
                    &&& c.max_connections_spec() == max_connections
                    &&& c.authentication_spec() == authentication_connection
                },
                None => true,
            },
    {
        let port = settings.create_port();
        Self::with_main_port(port, max_connections, authentication_connection)
    }

    /// Sets what the ports share.
    pub fn set_shared_infos(&mut self, infos: I)
        ensures
            final(self).shared_infos() == Some(infos),
            final(self).main_slot() == old(self).main_slot(),
            final(self).secondary() == old(self).secondary(),
            final(self).max_connections_spec() == old(self).max_connections_spec(),
            final(self).authentication_spec() == old(self).authentication_spec(),
    {
        self.network_port_shared_infos = Some(infos);
    }

    /// Closes port `port_id`; closing the main port (id 0) closes the whole
    /// connection. Returns the ports closed, as they were left, by id.
    pub fn close_port(&mut self, port_id: u32) -> (closed: Ghost<Map<u32, P>>) where P: ServerPortTrait<I>
        ensures
            forall|p: u32| #[trigger] closed@.contains_key(p) == (old(self).ports().contains_key(p) && (port_id == 0 || p == port_id)),
            forall|p: u32| #[trigger] closed@.contains_key(p) ==> closed@[p].is_closed(),
            port_id == 0 ==> final(self).main_slot() is None && final(self).secondary() == Map::<
                u32,
                P,
            >::empty(),
            port_id != 0 ==> final(self).main_slot() == old(self).main_slot() && final(self).secondary()
                == old(self).secondary().remove(port_id),
            final(self).same_settings(old(self)),
    {
        if port_id == 0 {
            self.close()
        } else if let Some(mut port) = self.secondary_ports.remove(&port_id) {
            port.close();
            Ghost(Map::<u32, P>::empty().insert(port_id, port))
        } else {
            Ghost(Map::<u32, P>::empty())
        }
    }

    /// Closes the main port and every secondary port, and drops them.
    /// Returns the ports closed, as they were left, by id.
    pub fn close(&mut self) -> (closed: Ghost<Map<u32, P>>) where P: ServerPortTrait<I>
        ensures
            closed@.dom() == old(self).ports().dom(),
            forall|p: u32| #[trigger] closed@.contains_key(p) ==> closed@[p].is_closed(),
            final(self).main_slot() is None,
            final(self).secondary() == Map::<u32, P>::empty(),
            final(self).same_settings(old(self)),
    {
        let mut main: Option<P> = None;
        std::mem::swap(&mut main, &mut self.main_port);
        let ghost mut main_closed: Option<P> = None;
        if let Some(mut main_port) = main {
            main_port.close();
            proof {
                main_closed = Some(main_port);
            }
        }
        let mut ports: HashMap<u32, P> = HashMap::new();
        std::mem::swap(&mut ports, &mut self.secondary_ports);
        let secondary_closed = close_all_server_ports(ports);
        assert(port_map(main_closed, secondary_closed@).dom() =~= old(self).ports().dom());
        Ghost(port_map(main_closed, secondary_closed@))
    }

    /// The port `port_id` and what the ports share.
    pub fn get_port_split(&mut self, port_id: u32) -> (r: (Option<&mut P>, Option<&I>))
        ensures
            match r.0 {
                Some(p) => old(self).ports().contains_key(port_id) && *p == old(self).ports()[port_id]
                    && final(self).ports() == old(self).ports().insert(port_id, *final(p)),
                None => !old(self).ports().contains_key(port_id) && final(self).ports() == old(
                    self,
                ).ports(),
            },
            final(self).secondary().dom() == old(self).secondary().dom(),
            final(self).main_slot() is Some == old(self).main_slot() is Some,
            match r.1 {
                Some(i) => old(self).shared_infos() == Some(*i),
                None => old(self).shared_infos() is None,
            },
            final(self).same_settings(old(self)),
    {
        let infos = match &self.network_port_shared_infos {
            Some(i) => Some(i),
            None => None,
        };
        let port = if port_id == 0 {
            match &mut self.main_port {
                Some(p) => Some(p),
                None => None,
            }
        } else {
            get_mut_u32(&mut self.secondary_ports, port_id)
        };
        (port, infos)
    }

    /// The ids of the secondary ports, each once.
    pub fn secondary_port_ids(&self) -> (r: Vec<u32>)
        ensures
            r@.to_set() == self.secondary().dom(),
            r@.no_duplicates(),
    {
        keys_of(&self.secondary_ports)
    }

    /// Whether the connection has a port `port_id`.
    pub fn has_port(&self, port_id: u32) -> (r: bool)
        ensures
            r == self.ports().contains_key(port_id),
    {
        if port_id == 0 {
            self.main_port.is_some()
        } else {
            self.secondary_ports.contains_key(&port_id)
        }
    }

    /// The main port, for reading.
    pub fn main_port(&self) -> (r: Option<&P>)
        ensures
            match r {
                Some(p) => self.main_slot() == Some(*p),
                None => self.main_slot() is None,
            },
    {
        match &self.main_port {
            Some(p) => Some(p),
            None => None,
        }
    }

    /// The port `port_id`.
    pub fn get_port(&mut self, port_id: u32) -> (r: Option<&mut P>)
        ensures
            match r {
                Some(p) => old(self).ports().contains_key(port_id) && *p == old(self).ports()[port_id]
                    && final(self).ports() == old(self).ports().insert(port_id, *final(p)),
                None => !old(self).ports().contains_key(port_id) && final(self).ports() == old(
                    self,
                ).ports(),
            },
            final(self).secondary().dom() == old(self).secondary().dom(),
            final(self).main_slot() is Some == old(self).main_slot() is Some,
            final(self).same_settings(old(self)),
    {
        if port_id == 0 {
            match &mut self.main_port {
                Some(p) => Some(p),
                None => None,
            }
        } else {
            get_mut_u32(&mut self.secondary_ports, port_id)
        }
    }

    pub fn get_secondary_ports(&mut self) -> (r: &mut HashMap<u32, P>)
        ensures
            r@ == old(self).secondary(),
            final(self).secondary() == final(r)@,
            final(self).main_slot() == old(self).main_slot(),
            final(self).same_settings(old(self)),
    {
        &mut self.secondary_ports
    }

    pub fn get_max_connections(&self) -> (r: u32)
        ensures
            r == self.max_connections_spec(),
    {
        self.max_connections
    }

    /// The number of secondary ports.
    pub fn get_ports_amount(&self) -> (r: u32)
        ensures
            r == self.secondary().len() as u32,
    {
        self.secondary_ports.len() as u32
    }

    pub fn is_authentication_connection(&self) -> (r: bool)
        ensures
            r == self.authentication_spec(),
    {
        self.authentication_connection
    }

    /// Creates a port from `settings` and adds it under the id one past the
    /// number of secondary ports, replacing any port that had that id.
    pub fn open_secondary_port<S: ServerSettingsPort<P>>(&mut self, settings: S)
        requires
            (old(self).secondary().len() as u32) < u32::MAX,
        ensures
            final(self).main_slot() == old(self).main_slot(),
            final(self).same_settings(old(self)),
            ({
                let id = ((old(self).secondary().len() as u32) + 1) as u32;
                &&& final(self).secondary().dom() == old(self).secondary().dom().insert(id)
                &&& forall|k: u32| k != id && old(self).secondary().contains_key(k) ==> #[trigger] final(self).secondary()[k] == old(self).secondary()[k]
            }),
    {
        let ports_amount = self.get_ports_amount();
        let port = settings.create_port();
        self.secondary_ports.insert(ports_amount + 1, port);
    }

    /// Asks every port with an id from 0 to the number of secondary ports
    /// to drop the peer or session `uuid`.
    /// Returns the ids of the ports asked, in increasing order.
    pub fn disconnect_peer_or_season(&mut self, uuid: u128) -> (r: Vec<u32>) where P: ServerPortTrait<I>
        ensures
            final(self).ports().dom() == old(self).ports().dom(),
            final(self).same_settings(old(self)),
            forall|p: u32|
                #[trigger] r@.contains(p) <==> (old(self).ports().contains_key(p) && p <= old(self).secondary().len() as u32),
            forall|a: int, b: int| 0 <= a < b < r@.len() ==> r@[a] < r@[b],
            forall|p: u32| #[trigger] r@.contains(p) ==> !final(self).ports()[p].holds(uuid),
    {
        let ports_amount = self.get_ports_amount();
        let mut asked: Vec<u32> = Vec::new();
        let mut port_id: u64 = 0;
        while port_id <= ports_amount as u64
            invariant
                self.ports().dom() == old(self).ports().dom(),
                self.same_settings(old(self)),
                ports_amount == old(self).secondary().len() as u32,
                port_id <= ports_amount as u64 + 1,
                forall|p: u32| #[trigger] asked@.contains(p) <==> (old(self).ports().contains_key(p) && p < port_id),
                forall|a: int, b: int| 0 <= a < b < asked@.len() ==> asked@[a] < asked@[b],
                forall|a: int| 0 <= a < asked@.len() ==> asked@[a] < port_id,
                forall|p: u32| #[trigger] asked@.contains(p) ==> !self.ports()[p].holds(uuid),
            decreases ports_amount as u64 + 1 - port_id,
        {
            let id = port_id as u32;
            let ghost before = asked@;
            if let Some(port) = self.get_port(id) {
                port.disconnect_peer_or_season(uuid);
                asked.push(id);
            }
            assert(self.ports().dom() =~= old(self).ports().dom());
            assert forall|p: u32| #[trigger] asked@.contains(p) <==> (old(self).ports().contains_key(p) && p < port_id + 1) by {
                vstd::seq_lib::lemma_seq_contains_after_push(before, id, p);
            }
            assert forall|p: u32| #[trigger] asked@.contains(p) implies !self.ports()[p].holds(uuid) by {
                vstd::seq_lib::lemma_seq_contains_after_push(before, id, p);
            }
            port_id = port_id + 1;
        }
        asked
    }
}

impl<P, I> ClientConnection<P, I> {
    pub closed spec fn main_slot(&self) -> Option<P> {
        self.main_port
    }

    pub closed spec fn secondary(&self) -> Map<u32, P> {
        self.secondary_ports@
    }

    pub open spec fn ports(&self) -> Map<u32, P> {
        port_map(self.main_slot(), self.secondary())
    }

    pub closed spec fn shared_infos(&self) -> Option<I> {
        self.network_port_shared_infos
    }

    pub closed spec fn authentication_spec(&self) -> bool {
        self.authentication_connection
    }

    /// Everything but the ports is as in `other`.
    pub open spec fn same_settings(&self, other: &Self) -> bool {
        &&& self.shared_infos() == other.shared_infos()
        &&& self.authentication_spec() == other.authentication_spec()
    }

    /// Creates the port from `settings` and makes it the main port of a new
    /// connection; `None` when the port cannot serve as a main port.
    pub fn create_connection<S: ClientSettingsPort<P>>(
        settings: S,
        authentication_connection: bool,
    ) -> (r: Option<Self>) where P: ClientPortTrait<I>
        ensures
            match r {
                Some(c) => {
                    &&& c.main_slot() is Some
                    &&& c.main_slot()->0.serves_as_main()
                    &&& c.secondary() == Map::<u32, P>::empty()
                    &&& c.shared_infos() is None
                    &&& c.authentication_spec() == authentication_connection
                },
                None => true,
            },
    {
        let port = settings.create_port();
        Self::with_main_port(port, authentication_connection)
    }

    /// Asks `port` to serve as the main port of a new connection; `None`
    /// (and the port dropped) when it cannot.
    pub fn with_main_port(port: P, authentication_connection: bool) -> (r: Option<Self>) where P: ClientPortTrait<I>
        ensures
            r is Some == port.main_role_allowed(),
            match r {
                Some(c) => {
                    &&& c.main_slot() is Some
                    &&& c.main_slot()->0.serves_as_main()
                    &&& c.secondary() == Map::<u32, P>::empty()
                    &&& c.shared_infos() is None
                    &&& c.authentication_spec() == authentication_connection
                },
                None => true,
            },
    {
        let mut port = port;
        if !port.as_main_port() {
            return None;
        }
        Some(
            ClientConnection {
                main_port: Some(port),
                secondary_ports: HashMap::new(),
                network_port_shared_infos: None,
                authentication_connection,
            },
        )
    }

    /// Sets what the ports share.
    pub fn set_shared_infos(&mut self, infos: I)
        ensures
            final(self).shared_infos() == Some(infos),
            final(self).main_slot() == old(self).main_slot(),
            final(self).secondary() == old(self).secondary(),
            final(self).authentication_spec() == old(self).authentication_spec(),
    {
        self.network_port_shared_infos = Some(infos);
    }

    /// Closes port `port_id`; closing the main port (id 0) closes the whole
    /// connection. Returns the ports closed, as they were left, by id.
    pub fn close_port(&mut self, port_id: u32) -> (closed: Ghost<Map<u32, P>>) where P: ClientPortTrait<I>
        ensures
            forall|p: u32| #[trigger] closed@.contains_key(p) == (old(self).ports().contains_key(p) && (port_id == 0 || p == port_id)),
            forall|p: u32| #[trigger] closed@.contains_key(p) ==> closed@[p].is_closed(),
            port_id == 0 ==> final(self).main_slot() is None && final(self).secondary() == Map::<
                u32,
                P,
            >::empty(),
            port_id != 0 ==> final(self).main_slot() == old(self).main_slot() && final(self).secondary()
                == old(self).secondary().remove(port_id),
            final(self).same_settings(old(self)),
    {
        if port_id == 0 {
            self.close()
        } else if let Some(mut port) = self.secondary_ports.remove(&port_id) {
            port.close();
            Ghost(Map::<u32, P>::empty().insert(port_id, port))
        } else {
            Ghost(Map::<u32, P>::empty())
        }
    }

    /// Closes the main port and every secondary port, and drops them.
    /// Returns the ports closed, as they were left, by id.
    pub fn close(&mut self) -> (closed: Ghost<Map<u32, P>>) where P: ClientPortTrait<I>
        ensures
            closed@.dom() == old(self).ports().dom(),
            forall|p: u32| #[trigger] closed@.contains_key(p) ==> closed@[p].is_closed(),
            final(self).main_slot() is None,
            final(self).secondary() == Map::<u32, P>::empty(),
            final(self).same_settings(old(self)),
    {
        let mut main: Option<P> = None;
        std::mem::swap(&mut main, &mut self.main_port);
        let ghost mut main_closed: Option<P> = None;
        if let Some(mut main_port) = main {
            main_port.close();
            proof {
                main_closed = Some(main_port);
            }
        }
        let mut ports: HashMap<u32, P> = HashMap::new();
        std::mem::swap(&mut ports, &mut self.secondary_ports);
        let secondary_closed = close_all_client_ports(ports);
        assert(port_map(main_closed, secondary_closed@).dom() =~= old(self).ports().dom());
        Ghost(port_map(main_closed, secondary_closed@))
    }

    /// The port `port_id` and what the ports share.
    pub fn get_port_split(&mut self, port_id: u32) -> (r: (Option<&mut P>, Option<&I>))
        ensures
            match r.0 {
                Some(p) => old(self).ports().contains_key(port_id) && *p == old(self).ports()[port_id]
                    && final(self).ports() == old(self).ports().insert(port_id, *final(p)),
                None => !old(self).ports().contains_key(port_id) && final(self).ports() == old(
                    self,
                ).ports(),
            },
            final(self).secondary().dom() == old(self).secondary().dom(),
            final(self).main_slot() is Some == old(self).main_slot() is Some,
            match r.1 {
                Some(i) => old(self).shared_infos() == Some(*i),
                None => old(self).shared_infos() is None,
            },
            final(self).same_settings(old(self)),
    {
        let infos = match &self.network_port_shared_infos {
            Some(i) => Some(i),
            None => None,
        };
        let port = if port_id == 0 {
            match &mut self.main_port {
                Some(p) => Some(p),
                None => None,
            }
        } else {
            get_mut_u32(&mut self.secondary_ports, port_id)
        };
        (port, infos)
    }

    /// The ids of the secondary ports, each once.
    pub fn secondary_port_ids(&self) -> (r: Vec<u32>)
        ensures
            r@.to_set() == self.secondary().dom(),
            r@.no_duplicates(),
    {
        keys_of(&self.secondary_ports)
    }

    /// Whether the connection has a port `port_id`.
    pub fn has_port(&self, port_id: u32) -> (r: bool)
        ensures
            r == self.ports().contains_key(port_id),
    {
        if port_id == 0 {
            self.main_port.is_some()
        } else {
            self.secondary_ports.contains_key(&port_id)
        }
    }

    /// The main port, for reading.
    pub fn main_port(&self) -> (r: Option<&P>)
        ensures
            match r {
                Some(p) => self.main_slot() == Some(*p),
                None => self.main_slot() is None,
            },
    {
        match &self.main_port {
            Some(p) => Some(p),
            None => None,
        }
    }

    /// The port `port_id`.
    pub fn get_port(&mut self, port_id: u32) -> (r: Option<&mut P>)
        ensures
            match r {
                Some(p) => old(self).ports().contains_key(port_id) && *p == old(self).ports()[port_id]
                    && final(self).ports() == old(self).ports().insert(port_id, *final(p)),
                None => !old(self).ports().contains_key(port_id) && final(self).ports() == old(
                    self,
                ).ports(),
            },
            final(self).secondary().dom() == old(self).secondary().dom(),
            final(self).main_slot() is Some == old(self).main_slot() is Some,
            final(self).same_settings(old(self)),
    {
        if port_id == 0 {
            match &mut self.main_port {
                Some(p) => Some(p),
                None => None,
            }
        } else {
            get_mut_u32(&mut self.secondary_ports, port_id)
        }
    }

    pub fn get_secondary_ports(&mut self) -> (r: &mut HashMap<u32, P>)
        ensures
            r@ == old(self).secondary(),
            final(self).secondary() == final(r)@,
            final(self).main_slot() == old(self).main_slot(),
            final(self).same_settings(old(self)),
    {
        &mut self.secondary_ports
    }

    /// The number of secondary ports.
    pub fn get_ports_amount(&self) -> (r: u32)
        ensures
            r == self.secondary().len() as u32,
    {
        self.secondary_ports.len() as u32
    }

    pub fn is_authentication_connection(&self) -> (r: bool)
        ensures
            r == self.authentication_spec(),
    {
        self.authentication_connection
    }

    /// Creates a port from `settings` and adds it under the id one past the
    /// number of secondary ports, replacing any port that had that id.
    pub fn open_secondary_port<S: ClientSettingsPort<P>>(&mut self, settings: S)
        requires
            (old(self).secondary().len() as u32) < u32::MAX,
        ensures
            final(self).main_slot() == old(self).main_slot(),
            final(self).same_settings(old(self)),
            ({
                let id = ((old(self).secondary().len() as u32) + 1) as u32;
                &&& final(self).secondary().dom() == old(self).secondary().dom().insert(id)
                &&& forall|k: u32| k != id && old(self).secondary().contains_key(k) ==> #[trigger] final(self).secondary()[k] == old(self).secondary()[k]
            }),
    {
        let ports_amount = self.get_ports_amount();
        let port = settings.create_port();
        self.secondary_ports.insert(ports_amount + 1, port);
    }
}

/// Closes and drops every port of `ports`; returns them, as they were left.
fn close_all_server_ports<P: ServerPortTrait<I>, I>(ports: HashMap<u32, P>) -> (closed: Ghost<Map<u32, P>>)
    ensures
        closed@.dom() == ports@.dom(),
        forall|p: u32| #[trigger] closed@.contains_key(p) ==> closed@[p].is_closed(),
{
    let mut ports = ports;
    let keys = keys_of(&ports);
    let ghost all = ports@.dom();
    let ghost mut closed: Map<u32, P> = Map::empty();
    let mut i: usize = 0;
    while i < keys.len()
        invariant
            i <= keys@.len(),
            keys@.to_set() == all,
            keys@.no_duplicates(),
            forall|j: int| i <= j < keys@.len() ==> #[trigger] ports@.contains_key(keys@[j]),
            forall|p: u32| #[trigger] closed.contains_key(p) == (exists|j: int| 0 <= j < i && keys@[j] == p),
            forall|p: u32| #[trigger] closed.contains_key(p) ==> closed[p].is_closed(),
        decreases keys.len() - i,
    {
        let k = keys[i];
        if let Some(mut port) = ports.remove(&k) {
            port.close();
            proof {
                closed = closed.insert(k, port);
            }
        }
        proof {
            assert forall|j: int| i < j < keys@.len() implies #[trigger] ports@.contains_key(keys@[j]) by {
                assert(keys@[j] != keys@[i as int]);
            }
            assert forall|p: u32| #[trigger] closed.contains_key(p) == (exists|j: int| 0 <= j < i + 1 && keys@[j] == p) by {
                if closed.contains_key(p) && p != k {
                    let j = choose|j: int| 0 <= j < i && keys@[j] == p;
                }
            }
        }
        i = i + 1;
    }
    proof {
        assert forall|p: u32| closed.contains_key(p) == all.contains(p) by {
            if all.contains(p) {
                assert(keys@.to_set().contains(p));
                let j = choose|j: int| 0 <= j < keys@.len() && keys@[j] == p;
            }
        }
        assert(closed.dom() =~= all);
    }
    Ghost(closed)
}

/// Closes and drops every port of `ports`; returns them, as they were left.
fn close_all_client_ports<P: ClientPortTrait<I>, I>(ports: HashMap<u32, P>) -> (closed: Ghost<Map<u32, P>>)
    ensures
        closed@.dom() == ports@.dom(),
        forall|p: u32| #[trigger] closed@.contains_key(p) ==> closed@[p].is_closed(),
{
    let mut ports = ports;
    let keys = keys_of(&ports);
    let ghost all = ports@.dom();
    let ghost mut closed: Map<u32, P> = Map::empty();
    let mut i: usize = 0;
    while i < keys.len()
        invariant
            i <= keys@.len(),
            keys@.to_set() == all,
            keys@.no_duplicates(),
            forall|j: int| i <= j < keys@.len() ==> #[trigger] ports@.contains_key(keys@[j]),
            forall|p: u32| #[trigger] closed.contains_key(p) == (exists|j: int| 0 <= j < i && keys@[j] == p),
            forall|p: u32| #[trigger] closed.contains_key(p) ==> closed[p].is_closed(),
        decreases keys.len() - i,
    {
        let k = keys[i];
        if let Some(mut port) = ports.remove(&k) {
            port.close();
            proof {
                closed = closed.insert(k, port);
            }
        }
        proof {
            assert forall|j: int| i < j < keys@.len() implies #[trigger] ports@.contains_key(keys@[j]) by {
                assert(keys@[j] != keys@[i as int]);
            }
            assert forall|p: u32| #[trigger] closed.contains_key(p) == (exists|j: int| 0 <= j < i + 1 && keys@[j] == p) by {
                if closed.contains_key(p) && p != k {
                    let j = choose|j: int| 0 <= j < i && keys@[j] == p;
                }
            }
        }
        i = i + 1;
    }
    proof {
        assert forall|p: u32| closed.contains_key(p) == all.contains(p) by {
            if all.contains(p) {
                assert(keys@.to_set().contains(p));
                let j = choose|j: int| 0 <= j < keys@.len() && keys@[j] == p;
            }
        }
        assert(closed.dom() =~= all);
    }
    Ghost(closed)
}

/// The connections of a process, by connection id.
pub struct NetworkConnection<T>(pub HashMap<u32, T>);

/// Every connection but `id` is as in `old`, and `id` is present in both or
/// in neither.
pub open spec fn others_unchanged<T>(new: Map<u32, T>, old: Map<u32, T>, id: u32) -> bool {
    &&& forall|k: u32| #[trigger] new.contains_key(k) == old.contains_key(k)
    &&& forall|k: u32| k != id && old.contains_key(k) ==> #[trigger] new[k] == old[k]
}

impl<P, I> NetworkConnection<ServerConnection<P, I>> {
    pub fn new() -> (r: Self)
        ensures
            r.0@ == Map::<u32, ServerConnection<P, I>>::empty(),
    {
        NetworkConnection(HashMap::new())
    }

    /// Opens connection `connection_id` with a main port built from
    /// `settings`, unless a connection with that id already exists. The new
    /// connection gets its shared infos from `T`. Nothing is added when the
    /// port cannot serve as a main port. Returns whether it was added.
    pub fn start_connection<T: NetworkPortSharedInfos<P, I>, S: ServerSettingsPort<P>>(
        &mut self,
        connection_id: u32,
        max_connections: u32,
        settings: S,
        authentication_connection: bool,
    ) -> (r: bool) where P: ServerPortTrait<I>
        ensures
            old(self).0@.contains_key(connection_id) ==> !r,
            !r ==> final(self).0@ == old(self).0@,
            r ==> ({
                let c = final(self).0@[connection_id];
                &&& final(self).0@ == old(self).0@.insert(connection_id, c)
                &&& c.main_slot() is Some
                &&& c.main_slot()->0.serves_as_main()
                &&& c.secondary() == Map::<u32, P>::empty()
                &&& c.shared_infos() is Some
                &&& c.max_connections_spec() == max_connections
                &&& c.authentication_spec() == authentication_connection
            }),
    {
        if self.0.contains_key(&connection_id) {
            return false;
        }
        let new_connection = ServerConnection::create_connection(
            max_connections,
            settings,
            authentication_connection,
        );
        if let Some(mut server_connection) = new_connection {
            let infos = T::create_infos_server(&server_connection);
            server_connection.set_shared_infos(infos);
            self.0.insert(connection_id, server_connection);
            return true;
        }
        false
    }

    /// Opens a secondary port built from `settings` on connection
    /// `connection_id`, when it exists.
    pub fn open_secondary_port<S: ServerSettingsPort<P>>(&mut self, connection_id: u32, settings: S)
        requires
            old(self).0@.contains_key(connection_id) ==> (old(self).0@[connection_id].secondary().len() as u32)
                < u32::MAX,
        ensures
            others_unchanged(final(self).0@, old(self).0@, connection_id),
            old(self).0@.contains_key(connection_id) ==> ({
                let o = old(self).0@[connection_id];
                let c = final(self).0@[connection_id];
                let id = ((o.secondary().len() as u32) + 1) as u32;
                &&& c.main_slot() == o.main_slot()
                &&& c.same_settings(&o)
                &&& c.secondary().dom() == o.secondary().dom().insert(id)
                &&& forall|k: u32| k != id && o.secondary().contains_key(k) ==> #[trigger] c.secondary()[k] == o.secondary()[k]
            }),
    {
        if let Some(connection) = get_mut_u32(&mut self.0, connection_id) {
            connection.open_secondary_port(settings);
        }
    }

    /// Hands the serialized `message` of type `message_id` to port `port_id`
    /// of connection `connection_id` for the peer `peer_id`, when the port
    /// exists and the connection has its shared infos. Returns whether it
    /// was handed over.
    pub fn send_message(&mut self, message_id: u32, connection_id: u32, port_id: u32, message: &[u8], peer_id: u128) -> (r:
        bool) where P: ServerPortTrait<I>
        ensures
            r == (old(self).0@.contains_key(connection_id) && old(self).0@[connection_id].ports().contains_key(port_id)
                && old(self).0@[connection_id].shared_infos() is Some),
            others_unchanged(final(self).0@, old(self).0@, connection_id),
            old(self).0@.contains_key(connection_id) ==> ({
                let o = old(self).0@[connection_id];
                let c = final(self).0@[connection_id];
                &&& c.ports().dom() == o.ports().dom()
                &&& c.same_settings(&o)
            }),
            r ==> match final(self).0@[connection_id].ports()[port_id].last_sent() {
                Some((id, peer, m)) => id == message_id && peer == peer_id && m@ == message@,
                None => false,
            },
            !r ==> final(self).0@[connection_id].ports() == old(self).0@[connection_id].ports(),
    {
        if let Some(server_connection) = get_mut_u32(&mut self.0, connection_id) {
            let (port, infos) = server_connection.get_port_split(port_id);
            if let (Some(port), Some(infos)) = (port, infos) {
                port.send_message_to_peer(message_id, peer_id, infos, message);
                return true;
            }
        }
        false
    }

    /// Closes port `port_id` of connection `connection_id`, when it exists.
    /// Returns the ports closed, as they were left, by id.
    pub fn close_port(&mut self, connection_id: u32, port_id: u32) -> (closed: Ghost<Map<u32, P>>) where P: ServerPortTrait<I>
        ensures
            forall|p: u32|
                #[trigger] closed@.contains_key(p) == (old(self).0@.contains_key(connection_id) && old(self).0@[connection_id].ports().contains_key(p)
                    && (port_id == 0 || p == port_id)),
            forall|p: u32| #[trigger] closed@.contains_key(p) ==> closed@[p].is_closed(),
            others_unchanged(final(self).0@, old(self).0@, connection_id),
            old(self).0@.contains_key(connection_id) ==> ({
                let o = old(self).0@[connection_id];
                let c = final(self).0@[connection_id];
                &&& c.same_settings(&o)
                &&& port_id == 0 ==> c.main_slot() is None && c.secondary() == Map::<u32, P>::empty()
                &&& port_id != 0 ==> c.main_slot() == o.main_slot() && c.secondary() == o.secondary().remove(port_id)
            }),
    {
        match get_mut_u32(&mut self.0, connection_id) {
            Some(connection) => connection.close_port(port_id),
            None => Ghost(Map::<u32, P>::empty()),
        }
    }

    /// Closes every port of connection `connection_id` and forgets it.
    /// Returns the ports closed, as they were left, by id.
    pub fn close_connection(&mut self, connection_id: u32) -> (closed: Ghost<Map<u32, P>>) where P: ServerPortTrait<I>
        ensures
            final(self).0@ == old(self).0@.remove(connection_id),
            forall|p: u32|
                #[trigger] closed@.contains_key(p) == (old(self).0@.contains_key(connection_id) && old(self).0@[connection_id].ports().contains_key(p)),
            forall|p: u32| #[trigger] closed@.contains_key(p) ==> closed@[p].is_closed(),
    {
        if let Some(mut server_connection) = self.0.remove(&connection_id) {
            server_connection.close()
        } else {
            Ghost(Map::<u32, P>::empty())
        }
    }

    /// Asks the ports of connection `connection_id` to drop the peer or
    /// session `uuid`.
    /// Returns the ids of the ports asked, in increasing order (none when
    /// there is no such connection).
    pub fn disconnect_peer_or_season(&mut self, connection_id: u32, uuid: u128) -> (r: Vec<u32>) where P: ServerPortTrait<I>
        ensures
            others_unchanged(final(self).0@, old(self).0@, connection_id),
            old(self).0@.contains_key(connection_id) ==> ({
                let o = old(self).0@[connection_id];
                let c = final(self).0@[connection_id];
                &&& c.ports().dom() == o.ports().dom()
                &&& c.same_settings(&o)
            }),
            forall|p: u32|
                #[trigger] r@.contains(p) <==> (old(self).0@.contains_key(connection_id) && old(self).0@[connection_id].ports().contains_key(p)
                    && p <= old(self).0@[connection_id].secondary().len() as u32),
            forall|p: u32| #[trigger] r@.contains(p) ==> !final(self).0@[connection_id].ports()[p].holds(uuid),
            forall|a: int, b: int| 0 <= a < b < r@.len() ==> r@[a] < r@[b],
    {
        match get_mut_u32(&mut self.0, connection_id) {
            Some(connection) => connection.disconnect_peer_or_season(uuid),
            None => Vec::new(),
        }
    }
}

impl<P, I> NetworkConnection<ClientConnection<P, I>> {
    pub fn new() -> (r: Self)
        ensures
            r.0@ == Map::<u32, ClientConnection<P, I>>::empty(),
    {
        NetworkConnection(HashMap::new())
    }

    /// Opens connection `connection_id` with a main port built from
    /// `settings`, unless a connection with that id already exists. The new
    /// connection gets its shared infos from `T`. Nothing is added when the
    /// port cannot serve as a main port. Returns whether it was added.
    pub fn start_connection<T: NetworkPortSharedInfos<P, I>, S: ClientSettingsPort<P>>(
        &mut self,
        connection_id: u32,
        settings: S,
        authentication_connection: bool,
    ) -> (r: bool) where P: ClientPortTrait<I>
        ensures
            old(self).0@.contains_key(connection_id) ==> !r,
            !r ==> final(self).0@ == old(self).0@,
            r ==> ({
                let c = final(self).0@[connection_id];
                &&& final(self).0@ == old(self).0@.insert(connection_id, c)
                &&& c.main_slot() is Some
                &&& c.main_slot()->0.serves_as_main()
                &&& c.secondary() == Map::<u32, P>::empty()
                &&& c.shared_infos() is Some
                &&& c.authentication_spec() == authentication_connection
            }),
    {
        if self.0.contains_key(&connection_id) {
            return false;
        }
        let new_connection = ClientConnection::create_connection(settings, authentication_connection);
        if let Some(mut client_connection) = new_connection {
            let infos = T::create_infos_client(&client_connection);
            client_connection.set_shared_infos(infos);
            self.0.insert(connection_id, client_connection);
            return true;
        }
        false
    }

    /// Opens a secondary port built from `settings` on connection
    /// `connection_id`, when it exists.
    pub fn open_secondary_port<S: ClientSettingsPort<P>>(&mut self, connection_id: u32, settings: S)
        requires
            old(self).0@.contains_key(connection_id) ==> (old(self).0@[connection_id].secondary().len() as u32)
                < u32::MAX,
        ensures
            others_unchanged(final(self).0@, old(self).0@, connection_id),
            old(self).0@.contains_key(connection_id) ==> ({
                let o = old(self).0@[connection_id];
                let c = final(self).0@[connection_id];
                let id = ((o.secondary().len() as u32) + 1) as u32;
                &&& c.main_slot() == o.main_slot()
                &&& c.same_settings(&o)
                &&& c.secondary().dom() == o.secondary().dom().insert(id)
                &&& forall|k: u32| k != id && o.secondary().contains_key(k) ==> #[trigger] c.secondary()[k] == o.secondary()[k]
            }),
    {
        if let Some(connection) = get_mut_u32(&mut self.0, connection_id) {
            connection.open_secondary_port(settings);
        }
    }

    /// Hands the serialized `message` of type `message_id` to port `port_id`
    /// of connection `connection_id`, when the port exists and the
    /// connection has its shared infos. Returns whether it was handed over.
    pub fn send_message_to_server(&mut self, message_id: u32, connection_id: u32, port_id: u32, message: &[u8]) -> (r:
        bool) where P: ClientPortTrait<I>
        ensures
            r == (old(self).0@.contains_key(connection_id) && old(self).0@[connection_id].ports().contains_key(port_id)
                && old(self).0@[connection_id].shared_infos() is Some),
            others_unchanged(final(self).0@, old(self).0@, connection_id),
            old(self).0@.contains_key(connection_id) ==> ({
                let o = old(self).0@[connection_id];
                let c = final(self).0@[connection_id];
                &&& c.ports().dom() == o.ports().dom()
                &&& c.same_settings(&o)
            }),
            r ==> match final(self).0@[connection_id].ports()[port_id].last_sent() {
                Some((id, m)) => id == message_id && m@ == message@,
                None => false,
            },
            !r ==> final(self).0@[connection_id].ports() == old(self).0@[connection_id].ports(),
    {
        if let Some(client_connection) = get_mut_u32(&mut self.0, connection_id) {
            let (port, infos) = client_connection.get_port_split(port_id);
            if let (Some(port), Some(infos)) = (port, infos) {
                port.send_message_for_server(message_id, infos, message);
                return true;
            }
        }
        false
    }

    /// Closes port `port_id` of connection `connection_id`, when it exists.
    /// Returns the ports closed, as they were left, by id.
    pub fn close_port(&mut self, connection_id: u32, port_id: u32) -> (closed: Ghost<Map<u32, P>>) where P: ClientPortTrait<I>
        ensures
            forall|p: u32|
                #[trigger] closed@.contains_key(p) == (old(self).0@.contains_key(connection_id) && old(self).0@[connection_id].ports().contains_key(p)
                    && (port_id == 0 || p == port_id)),
            forall|p: u32| #[trigger] closed@.contains_key(p) ==> closed@[p].is_closed(),
            others_unchanged(final(self).0@, old(self).0@, connection_id),
            old(self).0@.contains_key(connection_id) ==> ({
                let o = old(self).0@[connection_id];
                let c = final(self).0@[connection_id];
                &&& c.same_settings(&o)
                &&& port_id == 0 ==> c.main_slot() is None && c.secondary() == Map::<u32, P>::empty()
                &&& port_id != 0 ==> c.main_slot() == o.main_slot() && c.secondary() == o.secondary().remove(port_id)
            }),
    {
        match get_mut_u32(&mut self.0, connection_id) {
            Some(connection) => connection.close_port(port_id),
            None => Ghost(Map::<u32, P>::empty()),
        }
    }

    /// Closes every port of connection `connection_id` and forgets it.
    /// Returns the ports closed, as they were left, by id.
    pub fn close_connection(&mut self, connection_id: u32) -> (closed: Ghost<Map<u32, P>>) where P: ClientPortTrait<I>
        ensures
            final(self).0@ == old(self).0@.remove(connection_id),
            forall|p: u32|
                #[trigger] closed@.contains_key(p) == (old(self).0@.contains_key(connection_id) && old(self).0@[connection_id].ports().contains_key(p)),
            forall|p: u32| #[trigger] closed@.contains_key(p) ==> closed@[p].is_closed(),
    {
        if let Some(mut client_connection) = self.0.remove(&connection_id) {
            client_connection.close()
        } else {
            Ghost(Map::<u32, P>::empty())
        }
    }
}

/// Closing a connection that was just started leaves the process's
/// connections as they were before.
pub proof fn lemma_close_undoes_start<T>(before: Map<u32, T>, connection_id: u32, started: T)
    requires
        !before.contains_key(connection_id),
    ensures
        before.insert(connection_id, started).remove(connection_id) == before,
{
    assert(before.insert(connection_id, started).remove(connection_id) =~= before);
}

} // verus!
