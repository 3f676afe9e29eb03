//! The peers a server port knows: every session (one per accepted socket or
//! datagram sender), the peer a session was authenticated as, and for each
//! authenticated peer the session it currently uses.

use std::collections::HashMap;
use vstd::prelude::*;
use crate::framing::{extract_messages_from_buffer, split_frames, views, BytesOptions, OrderOptions};
use crate::maps::keys_of_u128;

verus! {

broadcast use vstd::std_specs::hash::group_hash_axioms;

/// One session of a port: the peer it was authenticated as (none while the
/// session is anonymous), the bytes received but not yet taken as messages,
/// and the port's own handle on it.
pub struct PeerConnection<C> {
    pub peer_id: Option<u128>,
    pub internal_buffer: Vec<u8>,
    pub connection: C,
}

/// Sessions by session id, and authenticated peers by peer id.
pub struct PeerSessions<C> {
    peers_connected: HashMap<u128, PeerConnection<C>>,
    peers_authenticated: HashMap<u128, u128>,
}

pub open spec fn authenticated_entry<C>(e: PeerConnection<C>, peer: u128) -> PeerConnection<C> {
    PeerConnection { peer_id: Some(peer), internal_buffer: e.internal_buffer, connection: e.connection }
}

/// The tables after `authenticate_peer(current, peer, new_session)`.
pub open spec fn authenticate_spec<C>(
    sessions: Map<u128, PeerConnection<C>>,
    authenticated: Map<u128, u128>,
    current: u128,
    peer: u128,
    new_session: Option<u128>,
) -> (Map<u128, PeerConnection<C>>, Map<u128, u128>) {
    if !sessions.contains_key(current) {
        (sessions, authenticated)
    } else {
        let e = authenticated_entry(sessions[current], peer);
        match new_session {
            Some(n) => (sessions.remove(current).insert(n, e), authenticated.insert(peer, n)),
            None => (sessions.insert(current, e), authenticated.insert(peer, current)),
        }
    }
}

/// The session that `disconnect_peer_or_session(uuid)` drops: the session of
/// the peer `uuid` if it is an authenticated peer, else the session `uuid`.
pub open spec fn disconnect_target(authenticated: Map<u128, u128>, uuid: u128) -> u128 {
    if authenticated.contains_key(uuid) {
        authenticated[uuid]
    } else {
        uuid
    }
}

impl<C> PeerSessions<C> {
    pub closed spec fn sessions(&self) -> Map<u128, PeerConnection<C>> {
        self.peers_connected@
    }

    pub closed spec fn authenticated(&self) -> Map<u128, u128> {
        self.peers_authenticated@
    }

    pub fn new() -> (r: Self)
        ensures
            r.sessions() == Map::<u128, PeerConnection<C>>::empty(),
            r.authenticated() == Map::<u128, u128>::empty(),
    {
        PeerSessions { peers_connected: HashMap::new(), peers_authenticated: HashMap::new() }
    }

    /// The sessions, for reading.
    pub fn connections(&self) -> (r: &HashMap<u128, PeerConnection<C>>)
        ensures
            r@ == self.sessions(),
    {
        &self.peers_connected
    }

    /// The sessions, for the port to read from and write to its sockets.
    pub fn connections_mut(&mut self) -> (r: &mut HashMap<u128, PeerConnection<C>>)
        ensures
            r@ == old(self).sessions(),
            final(self).sessions() == final(r)@,
            final(self).authenticated() == old(self).authenticated(),
    {
        &mut self.peers_connected
    }

    /// A newly accepted, not yet authenticated session.
    pub fn insert_anonymous(&mut self, session: u128, connection: C)
        ensures
            final(self).sessions().dom() == old(self).sessions().dom().insert(session),
            forall|s: u128| s != session && old(self).sessions().contains_key(s) ==> #[trigger] final(self).sessions()[s] == old(self).sessions()[s],
            final(self).sessions()[session].peer_id is None,
            final(self).sessions()[session].internal_buffer@ == Seq::<u8>::empty(),
            final(self).sessions()[session].connection == connection,
            final(self).authenticated() == old(self).authenticated(),
    {
        self.peers_connected.insert(
            session,
            PeerConnection { peer_id: None, internal_buffer: Vec::new(), connection },
        );
    }

    /// Marks the session `current` as the peer `peer`. With `new_session`,
    /// the session is moved to that id (a local peer keeps the id it chose).
    /// Nothing changes when `current` is not a session of this port.
    pub fn authenticate_peer(&mut self, current: u128, peer: u128, new_session: Option<u128>)
        ensures
            (final(self).sessions(), final(self).authenticated()) == authenticate_spec(
                old(self).sessions(),
                old(self).authenticated(),
                current,
                peer,
                new_session,
            ),
    {
        match self.peers_connected.remove(&current) {
            None => {},
            Some(entry) => {
                let e = PeerConnection {
                    peer_id: Some(peer),
                    internal_buffer: entry.internal_buffer,
                    connection: entry.connection,
                };
                match new_session {
                    Some(n) => {
                        self.peers_connected.insert(n, e);
                        self.peers_authenticated.insert(peer, n);
                    },
                    None => {
                        self.peers_connected.insert(current, e);
                        self.peers_authenticated.insert(peer, current);
                        assert(old(self).sessions().remove(current).insert(current, e) =~= old(
                            self,
                        ).sessions().insert(current, e));
                    },
                }
            },
        }
    }

    /// Whether `session` is a session of this port that has been authenticated.
    pub fn is_session_authenticated(&self, session: u128) -> (r: bool)
        ensures
            r == (self.sessions().contains_key(session) && self.sessions()[session].peer_id is Some),
    {
        match self.peers_connected.get(&session) {
            Some(e) => e.peer_id.is_some(),
            None => false,
        }
    }

    /// The sessions not authenticated yet, each once.
    pub fn anonymous_sessions(&self) -> (r: Vec<u128>)
        ensures
            r@.no_duplicates(),
            forall|s: u128|
                #[trigger] r@.contains(s) <==> (self.sessions().contains_key(s) && self.sessions()[s].peer_id is None),
    {
        let keys = keys_of_u128(&self.peers_connected);
        let mut out: Vec<u128> = Vec::new();
        let mut i: usize = 0;
        while i < keys.len()
            invariant
                i <= keys@.len(),
                keys@.to_set() == self.sessions().dom(),
                keys@.no_duplicates(),
                out@.no_duplicates(),
                forall|s: u128|
                    #[trigger] out@.contains(s) <==> (keys@.take(i as int).contains(s) && self.sessions()[s].peer_id is None),
            decreases keys@.len() - i,
        {
            let s = keys[i];
            let ghost seen = keys@.take(i as int);
            assert(keys@.take(i + 1) =~= seen.push(s));
            assert(!seen.contains(s)) by {
                if seen.contains(s) {
                    let j = choose|j: int| 0 <= j < i && seen[j] == s;
                    assert(keys@[j] == keys@[i as int]);
                }
            }
            assert(self.sessions().contains_key(s)) by {
                assert(keys@.to_set().contains(keys@[i as int]));
            }
            let anonymous = match self.peers_connected.get(&s) {
                Some(e) => e.peer_id.is_none(),
                None => false,
            };
            assert(anonymous == (self.sessions()[s].peer_id is None));
            let ghost before = out@;
            if anonymous {
                out.push(s);
                assert forall|a: int, b: int| 0 <= a < b < out@.len() implies out@[a] != out@[b] by {
                    if b == out@.len() - 1 {
                        assert(before.contains(out@[a]));
                    }
                }
            }
            assert forall|t: u128| #[trigger] out@.contains(t) <==> (keys@.take(i + 1).contains(t)
                && self.sessions()[t].peer_id is None) by {
                vstd::seq_lib::lemma_seq_contains_after_push(seen, s, t);
                vstd::seq_lib::lemma_seq_contains_after_push(before, s, t);
            }
            i = i + 1;
        }
        assert forall|s: u128| #[trigger] out@.contains(s) <==> (self.sessions().contains_key(s) && self.sessions()[s].peer_id is None) by {
            assert(keys@.take(keys@.len() as int) =~= keys@);
            if self.sessions().contains_key(s) {
                assert(keys@.to_set().contains(s));
            }
        }
        out
    }

    /// The authenticated sessions with their peer, each once.
    pub fn authenticated_sessions(&self) -> (r: Vec<(u128, u128)>)
        ensures
            r@.no_duplicates(),
            forall|s: u128, p: u128|
                #[trigger] r@.contains((s, p)) <==> (self.sessions().contains_key(s) && self.sessions()[s].peer_id
                    == Some(p)),
    {
        let keys = keys_of_u128(&self.peers_connected);
        let mut out: Vec<(u128, u128)> = Vec::new();
        let mut i: usize = 0;
        while i < keys.len()
            invariant
                i <= keys@.len(),
                keys@.to_set() == self.sessions().dom(),
                keys@.no_duplicates(),
                out@.no_duplicates(),
                forall|s: u128, p: u128|
                    #[trigger] out@.contains((s, p)) <==> (keys@.take(i as int).contains(s) && self.sessions()[s].peer_id
                        == Some(p)),
            decreases keys@.len() - i,
        {
            let s = keys[i];
            let ghost seen = keys@.take(i as int);
            assert(keys@.take(i + 1) =~= seen.push(s));
            assert(!seen.contains(s)) by {
                if seen.contains(s) {
                    let j = choose|j: int| 0 <= j < i && seen[j] == s;
                    assert(keys@[j] == keys@[i as int]);
                }
            }
            assert(self.sessions().contains_key(s)) by {
                assert(keys@.to_set().contains(keys@[i as int]));
            }
            let peer = match self.peers_connected.get(&s) {
                Some(e) => e.peer_id,
                None => None,
            };
            assert(peer == self.sessions()[s].peer_id);
            let ghost before = out@;
            if let Some(p) = peer {
                out.push((s, p));
                assert forall|a: int, b: int| 0 <= a < b < out@.len() implies out@[a] != out@[b] by {
                    if b == out@.len() - 1 {
                        assert(before.contains(out@[a]));
                    }
                }
            }
            assert forall|t: u128, q: u128| #[trigger] out@.contains((t, q)) <==> (keys@.take(i + 1).contains(t)
                && self.sessions()[t].peer_id == Some(q)) by {
                vstd::seq_lib::lemma_seq_contains_after_push(seen, s, t);
                if let Some(p) = peer {
                    vstd::seq_lib::lemma_seq_contains_after_push(before, (s, p), (t, q));
                }
            }
            i = i + 1;
        }
        assert forall|s: u128, p: u128| #[trigger] out@.contains((s, p)) <==> (self.sessions().contains_key(s)
            && self.sessions()[s].peer_id == Some(p)) by {
            assert(keys@.take(keys@.len() as int) =~= keys@);
            if self.sessions().contains_key(s) {
                assert(keys@.to_set().contains(s));
            }
        }
        out
    }

    /// Whether `peer` was authenticated on this port.
    pub fn is_peer_connected(&self, peer: u128) -> (r: bool)
        ensures
            r == self.authenticated().contains_key(peer),
    {
        self.peers_authenticated.contains_key(&peer)
    }

    /// The session that the authenticated peer `peer` uses, with its entry.
    pub fn peer_connection(&self, peer: u128) -> (r: Option<(u128, &PeerConnection<C>)>)
        ensures
            match r {
                Some((s, e)) => self.authenticated().contains_key(peer) && s == self.authenticated()[peer]
                    && self.sessions().contains_key(s) && *e == self.sessions()[s],
                None => !self.authenticated().contains_key(peer) || !self.sessions().contains_key(
                    self.authenticated()[peer],
                ),
            },
    {
        match self.peers_authenticated.get(&peer) {
            None => None,
            Some(s) => {
                let s = *s;
                match self.peers_connected.get(&s) {
                    None => None,
                    Some(e) => Some((s, e)),
                }
            },
        }
    }

    /// Drops a session: that of the peer `uuid` when `uuid` is an
    /// authenticated peer, else the session `uuid`. The peer stays listed as
    /// authenticated. Returns the dropped entry.
    pub fn disconnect_peer_or_session(&mut self, uuid: u128) -> (r: Option<PeerConnection<C>>)
        ensures
            ({
                let target = disconnect_target(old(self).authenticated(), uuid);
                &&& final(self).sessions() == old(self).sessions().remove(target)
                &&& final(self).authenticated() == old(self).authenticated()
                &&& match r {
                    Some(e) => old(self).sessions().contains_key(target) && e == old(
                        self,
                    ).sessions()[target],
                    None => !old(self).sessions().contains_key(target),
                }
            }),
    {
        let target = match self.peers_authenticated.get(&uuid) {
            Some(s) => *s,
            None => uuid,
        };
        self.peers_connected.remove(&target)
    }

    /// Forgets a session whose socket failed, and the peer it was
    /// authenticated as. Returns the dropped entry.
    pub fn remove_disconnected(&mut self, session: u128, peer_id: Option<u128>) -> (r: Option<
        PeerConnection<C>,
    >)
        ensures
            final(self).sessions() == old(self).sessions().remove(session),
            final(self).authenticated() == match peer_id {
                Some(p) => old(self).authenticated().remove(p),
                None => old(self).authenticated(),
            },
            match r {
                Some(e) => old(self).sessions().contains_key(session) && e == old(
                    self,
                ).sessions()[session],
                None => !old(self).sessions().contains_key(session),
            },
    {
        let removed = self.peers_connected.remove(&session);
        if let Some(p) = peer_id {
            self.peers_authenticated.remove(&p);
        }
        removed
    }

    /// A datagram arrived from `session`. An unknown session is added as an
    /// anonymous one with the handle `fresh`. The datagram becomes the
    /// session's entry in `inbox`, with the peer the session was
    /// authenticated as.
    pub fn receive_datagram(
        &mut self,
        session: u128,
        payload: Vec<u8>,
        fresh: C,
        inbox: &mut HashMap<u128, (Vec<Vec<u8>>, Option<u128>)>,
    )
        ensures
            final(self).authenticated() == old(self).authenticated(),
            old(self).sessions().contains_key(session) ==> final(self).sessions() == old(
                self,
            ).sessions(),
            !old(self).sessions().contains_key(session) ==> {
                &&& final(self).sessions().dom() == old(self).sessions().dom().insert(session)
                &&& final(self).sessions()[session].peer_id is None
                &&& final(self).sessions()[session].internal_buffer@ == Seq::<u8>::empty()
                &&& final(self).sessions()[session].connection == fresh
            },
            forall|s: u128| s != session && old(self).sessions().contains_key(s) ==> #[trigger] final(self).sessions()[s] == old(self).sessions()[s],
            final(inbox)@.dom() == old(inbox)@.dom().insert(session),
            forall|s: u128| s != session && old(inbox)@.contains_key(s) ==> #[trigger] final(inbox)@[s] == old(inbox)@[s],
            final(inbox)@[session].0@.len() == 1,
            final(inbox)@[session].0@[0]@ == payload@,
            final(inbox)@[session].1 == if old(self).sessions().contains_key(session) {
                old(self).sessions()[session].peer_id
            } else {
                None
            },
    {
        let peer_id = match self.peers_connected.get(&session) {
            Some(e) => e.peer_id,
            None => {
                self.peers_connected.insert(
                    session,
                    PeerConnection { peer_id: None, internal_buffer: Vec::new(), connection: fresh },
                );
                None
            },
        };
        let mut list: Vec<Vec<u8>> = Vec::new();
        list.push(payload);
        inbox.insert(session, (list, peer_id));
    }
    /// Bytes read from the socket of `session` join its buffer.
    pub fn append_received(&mut self, session: u128, bytes: &[u8])
        ensures
            final(self).authenticated() == old(self).authenticated(),
            final(self).sessions().dom() == old(self).sessions().dom(),
            forall|s: u128| s != session && old(self).sessions().contains_key(s) ==> #[trigger] final(self).sessions()[s] == old(self).sessions()[s],
            old(self).sessions().contains_key(session) ==> {
                &&& final(self).sessions()[session].internal_buffer@ == old(self).sessions()[session].internal_buffer@ + bytes@
                &&& final(self).sessions()[session].peer_id == old(self).sessions()[session].peer_id
                &&& final(self).sessions()[session].connection == old(self).sessions()[session].connection
            },
    {
        if let Some(mut entry) = self.peers_connected.remove(&session) {
            let ghost before = entry.internal_buffer@;
            let ghost e0 = entry;
            let mut i: usize = 0;
            while i < bytes.len()
                invariant
                    i <= bytes@.len(),
                    entry.peer_id == e0.peer_id,
                    entry.connection == e0.connection,
                    entry.internal_buffer@ == before + bytes@.take(i as int),
                decreases bytes@.len() - i,
            {
                entry.internal_buffer.push(bytes[i]);
                i = i + 1;
                assert(entry.internal_buffer@ =~= before + bytes@.take(i as int));
            }
            assert(bytes@.take(bytes@.len() as int) =~= bytes@);
            self.peers_connected.insert(session, entry);
            assert(self.sessions().dom() =~= old(self).sessions().dom());
        }
    }

    /// Takes the complete messages out of every session's buffer. Sessions
    /// with at least one message are listed with their messages, in order,
    /// and the peer they were authenticated as; what is left of a frame
    /// stays in the buffer.
    pub fn extract_peers_messages(&mut self, bytes: &BytesOptions, order: &OrderOptions) -> (r: HashMap<
        u128,
        (Vec<Vec<u8>>, Option<u128>),
    >)
        ensures
            final(self).authenticated() == old(self).authenticated(),
            final(self).sessions().dom() == old(self).sessions().dom(),
            forall|s: u128|
                #[trigger] old(self).sessions().contains_key(s) ==> {
                    let split = split_frames(old(self).sessions()[s].internal_buffer@, *bytes, *order);
                    &&& final(self).sessions()[s].internal_buffer@ == split.1
                    &&& final(self).sessions()[s].peer_id == old(self).sessions()[s].peer_id
                    &&& final(self).sessions()[s].connection == old(self).sessions()[s].connection
                    &&& r@.contains_key(s) == (split.0.len() > 0)
                    &&& r@.contains_key(s) ==> views(r@[s].0@) == split.0 && r@[s].1 == old(
                        self,
                    ).sessions()[s].peer_id
                },
            forall|s: u128| #[trigger] r@.contains_key(s) ==> old(self).sessions().contains_key(s),
    {
        let ids = keys_of_u128(&self.peers_connected);
        let mut out: HashMap<u128, (Vec<Vec<u8>>, Option<u128>)> = HashMap::new();
        let mut i: usize = 0;
        while i < ids.len()
            invariant
                i <= ids@.len(),
                ids@.to_set() == old(self).sessions().dom(),
                ids@.no_duplicates(),
                self.authenticated() == old(self).authenticated(),
                self.sessions().dom() == old(self).sessions().dom(),
                forall|j: int|
                    i <= j < ids@.len() ==> #[trigger] self.sessions()[ids@[j]] == old(self).sessions()[ids@[j]]
                        && !out@.contains_key(ids@[j]),
                forall|s: u128| #[trigger] out@.contains_key(s) ==> old(self).sessions().contains_key(s),
                forall|j: int|
                    0 <= j < i ==> {
                        let s = #[trigger] ids@[j];
                        let split = split_frames(old(self).sessions()[s].internal_buffer@, *bytes, *order);
                        &&& self.sessions()[s].internal_buffer@ == split.1
                        &&& self.sessions()[s].peer_id == old(self).sessions()[s].peer_id
                        &&& self.sessions()[s].connection == old(self).sessions()[s].connection
                        &&& out@.contains_key(s) == (split.0.len() > 0)
                        &&& out@.contains_key(s) ==> views(out@[s].0@) == split.0 && out@[s].1 == old(
                            self,
                        ).sessions()[s].peer_id
                    },
            decreases ids@.len() - i,
        {
            let s = ids[i];
            assert(ids@.to_set().contains(ids@[i as int]));
            assert(self.sessions()[ids@[i as int]] == old(self).sessions()[ids@[i as int]]);
            let ghost before = self.sessions();
            let ghost out_before = out@;
            if let Some(mut entry) = self.peers_connected.remove(&s) {
                let messages = extract_messages_from_buffer(&mut entry.internal_buffer, bytes, order);
                let peer_id = entry.peer_id;
                self.peers_connected.insert(s, entry);
                if messages.len() > 0 {
                    out.insert(s, (messages, peer_id));
                }
            }
            assert(self.sessions().dom() =~= old(self).sessions().dom());
            assert forall|j: int| i < j < ids@.len() implies #[trigger] self.sessions()[ids@[j]] == old(self).sessions()[ids@[j]]
                && !out@.contains_key(ids@[j]) by {
                assert(ids@[j] != ids@[i as int]);
                assert(self.sessions()[ids@[j]] == before[ids@[j]]);
            }
            assert forall|j: int| 0 <= j < i implies {
                let s2 = #[trigger] ids@[j];
                self.sessions()[s2] == before[s2] && out@.contains_key(s2) == out_before.contains_key(s2)
                    && (out_before.contains_key(s2) ==> out@[s2] == out_before[s2])
            } by {
                assert(ids@[j] != ids@[i as int]);
            }
            i = i + 1;
        }
        proof {
            assert forall|s: u128| #[trigger] old(self).sessions().contains_key(s) implies exists|j: int| 0 <= j < ids@.len() && ids@[j] == s by {
                assert(ids@.to_set().contains(s));
            }
        }
        out
    }
}

/// Once a session is authenticated as a peer, the port reports the session
/// as authenticated and the peer as connected, and finds the peer on that
/// session (the new id when one was given).
pub proof fn lemma_authenticate_then_query<C>(
    sessions: Map<u128, PeerConnection<C>>,
    authenticated: Map<u128, u128>,
    current: u128,
    peer: u128,
    new_session: Option<u128>,
)
    requires
        sessions.contains_key(current),
    ensures
        ({
            let (s2, a2) = authenticate_spec(sessions, authenticated, current, peer, new_session);
            let at = match new_session {
                Some(n) => n,
                None => current,
            };
            &&& s2.contains_key(at)
            &&& s2[at].peer_id == Some(peer)
            &&& s2[at].connection == sessions[current].connection
            &&& a2.contains_key(peer)
            &&& a2[peer] == at
            &&& disconnect_target(a2, peer) == at
        }),
{
}

/// Authenticating one session leaves every other session as it was, except
/// the one whose id the session moves to.
pub proof fn lemma_authenticate_frame<C>(
    sessions: Map<u128, PeerConnection<C>>,
    authenticated: Map<u128, u128>,
    current: u128,
    peer: u128,
    new_session: Option<u128>,
    other: u128,
)
    requires
        other != current,
        new_session != Some(other),
    ensures
        ({
            let (s2, a2) = authenticate_spec(sessions, authenticated, current, peer, new_session);
            &&& s2.contains_key(other) == sessions.contains_key(other)
            &&& sessions.contains_key(other) ==> s2[other] == sessions[other]
        }),
{
}

} // verus!
