//! What a server does every frame: bring ports up, take in new sessions,
//! read from sockets and notice what went down. Each step walks every
//! connection and, in each, the ports with ids from 0 to the number of
//! secondary ports.

use std::collections::HashMap;
use vstd::prelude::*;
use crate::auth::same_server_shape;
use crate::connection::{get_mut_u32, NetworkConnection, ServerConnection, ServerPortTrait};
use crate::maps::{keys_of, keys_of_u128};
use crate::messages::{
    AnonymousPeersAcceptedOnPort,
    PeersDroppedServer,
    ServerPortConnected,
    ServerPortDisconnected,
};

verus! {

broadcast use vstd::std_specs::hash::group_hash_axioms;

/// What a port polled for being up reports: an event only when it came up
/// during this poll (`answer` is whether it is up and whether it came up
/// now).
pub fn port_connected_event(connection_id: u32, port_id: u32, answer: (bool, bool)) -> (r: Option<
    ServerPortConnected,
>)
    ensures
        r == (if answer.0 && answer.1 {
            Some(ServerPortConnected { port_id, connection_id })
        } else {
            None
        }),
{
    if answer.0 && answer.1 {
        Some(ServerPortConnected { port_id, connection_id })
    } else {
        None
    }
}

/// One port visited by a per-frame polling step, and whether its answer
/// gave an event.
pub struct PortReport {
    pub connection_id: u32,
    pub port_id: u32,
    pub reported: bool,
}

/// One port visited by a per-frame step that asks for sessions: the
/// sessions its answer named, and whether it gave an event (exactly when
/// it named any).
pub struct SessionsReport {
    pub connection_id: u32,
    pub port_id: u32,
    pub reported: bool,
    pub sessions: Vec<u128>,
}

/// A copy of `ids`.
fn copy_ids(ids: &Vec<u128>) -> (r: Vec<u128>)
    ensures
        r@ == ids@,
{
    let r = ids.clone();
    assert(r@ =~= ids@);
    r
}

/// A port that a per-frame step visits: it is present, and its id is at
/// most the number of secondary ports.
pub open spec fn visited(ports: Set<u32>, secondary_len: nat, p: u32) -> bool {
    ports.contains(p) && p <= secondary_len as u32
}

/// One port polled by `start_ports`: its answer to being asked whether it
/// is up (up, came up now), and whether it was then asked to start.
pub struct PortPoll {
    pub connection_id: u32,
    pub port_id: u32,
    pub answer: (bool, bool),
    pub start_requested: bool,
}

/// What follows from a port's answer to being polled: the event to report
/// (only when it came up during this poll), and whether to ask it to start
/// (when it is not up and the connection has its shared infos).
pub fn port_start_step(connection_id: u32, port_id: u32, answer: (bool, bool), has_infos: bool) -> (r: (
    Option<ServerPortConnected>,
    bool,
))
    ensures
        r.0 == (if answer.0 && answer.1 {
            Some(ServerPortConnected { port_id, connection_id })
        } else {
            None
        }),
        r.1 == (!answer.0 && has_infos),
{
    (port_connected_event(connection_id, port_id, answer), !answer.0 && has_infos)
}

/// A poll of port `q.port_id` of a connection whose ports are `ports`, whose
/// number of secondary ports is `secondary_len` and which has its shared
/// infos when `has_infos`: the port was visited, and asked to start exactly
/// when it answered that it is not up and the infos are there.
pub open spec fn poll_ok(q: PortPoll, ports: Set<u32>, secondary_len: nat, has_infos: bool) -> bool {
    visited(ports, secondary_len, q.port_id) && q.start_requested == (!q.answer.0 && has_infos)
}

/// The event a poll reports: one exactly when the port answered that it
/// came up during this poll.
pub open spec fn poll_event(q: PortPoll) -> Seq<ServerPortConnected> {
    if q.answer.0 && q.answer.1 {
        seq![ServerPortConnected { port_id: q.port_id, connection_id: q.connection_id }]
    } else {
        Seq::empty()
    }
}

/// The events that the polls `polls` report, in their order.
pub open spec fn events_of(polls: Seq<PortPoll>) -> Seq<ServerPortConnected>
    decreases polls.len(),
{
    if polls.len() == 0 {
        Seq::empty()
    } else {
        events_of(polls.drop_last()) + poll_event(polls.last())
    }
}

proof fn lemma_events_of_concat(a: Seq<PortPoll>, b: Seq<PortPoll>)
    ensures
        events_of(a + b) == events_of(a) + events_of(b),
    decreases b.len(),
{
    if b.len() == 0 {
        assert(a + b =~= a);
        assert(events_of(a) + events_of(b) =~= events_of(a));
    } else {
        lemma_events_of_concat(a, b.drop_last());
        assert((a + b).drop_last() =~= a + b.drop_last());
        assert((a + b).last() == b.last());
        assert(events_of(a) + events_of(b) =~= events_of(a) + events_of(b.drop_last()) + poll_event(b.last()));
    }
}

/// Starts the ports of one connection that are not up, and reports those that came up.
#[verifier::rlimit(40)]
fn start_connection_ports<P: ServerPortTrait<I>, I>(
    connection_id: u32,
    connection: &mut ServerConnection<P, I>,
    events: &mut Vec<ServerPortConnected>,
    polls: &mut Vec<PortPoll>,
)
    ensures
        final(connection).ports().dom() == old(connection).ports().dom(),
        final(connection).secondary().dom() == old(connection).secondary().dom(),
        final(connection).same_settings(old(connection)),
        final(polls)@.len() >= old(polls)@.len(),
        final(polls)@.subrange(0, old(polls)@.len() as int) == old(polls)@,
        final(events)@ == old(events)@ + events_of(final(polls)@.subrange(old(polls)@.len() as int, final(polls)@.len() as int)),
        forall|k: int|
            old(polls)@.len() <= k < final(polls)@.len() ==> (#[trigger] final(polls)@[k]).connection_id == connection_id
                && poll_ok(
                final(polls)@[k],
                old(connection).ports().dom(),
                old(connection).secondary().dom().len(),
                old(connection).shared_infos() is Some,
            ),
        forall|a: int, b: int|
            old(polls)@.len() <= a < b < final(polls)@.len() ==> (#[trigger] final(polls)@[a]).port_id
                < (#[trigger] final(polls)@[b]).port_id,
        forall|p: u32|
            #[trigger] visited(old(connection).ports().dom(), old(connection).secondary().dom().len(), p) ==> exists|k: int|
                old(polls)@.len() <= k < final(polls)@.len() && (#[trigger] final(polls)@[k]).port_id == p,
        forall|k: int|
            old(polls)@.len() <= k < final(polls)@.len() && (#[trigger] final(polls)@[k]).start_requested
                ==> final(connection).ports()[final(polls)@[k].port_id].start_requested(),
{
    let ports_amount = connection.get_ports_amount();
    let ghost ports = old(connection).ports().dom();
    let ghost len = old(connection).secondary().dom().len();
    let ghost has_infos = old(connection).shared_infos() is Some;
    let ghost e0 = old(events)@;
    let ghost p0 = old(polls)@.len();
    let mut port_id: u64 = 0;
    while port_id <= ports_amount as u64
        invariant
            connection.ports().dom() == ports,
            connection.secondary().dom() == old(connection).secondary().dom(),
            connection.same_settings(old(connection)),
            has_infos == (connection.shared_infos() is Some),
            len == old(connection).secondary().dom().len(),
            ports_amount == len as u32,
            port_id <= ports_amount as u64 + 1,
            p0 == old(polls)@.len(),
            e0 == old(events)@,
            polls@.len() >= p0,
            polls@.subrange(0, p0 as int) == old(polls)@,
            events@ == e0 + events_of(polls@.subrange(p0 as int, polls@.len() as int)),
            forall|k: int|
                p0 <= k < polls@.len() ==> (#[trigger] polls@[k]).connection_id == connection_id && poll_ok(
                    polls@[k],
                    ports,
                    len,
                    has_infos,
                ) && polls@[k].port_id < port_id,
            forall|a: int, b: int| p0 <= a < b < polls@.len() ==> (#[trigger] polls@[a]).port_id < (#[trigger] polls@[b]).port_id,
            forall|p: u32|
                #[trigger] visited(ports, len, p) && p < port_id ==> exists|k: int|
                    p0 <= k < polls@.len() && (#[trigger] polls@[k]).port_id == p,
            forall|k: int|
                p0 <= k < polls@.len() && (#[trigger] polls@[k]).start_requested ==> connection.ports()[polls@[k].port_id].start_requested(),
        decreases ports_amount as u64 + 1 - port_id,
    {
        let id = port_id as u32;
        let ghost polls_before = polls@;
        let (port, infos) = connection.get_port_split(id);
        if let Some(port) = port {
            let answer = port.started();
            let (event, start) = port_start_step(connection_id, id, answer, infos.is_some());
            if start {
                if let Some(infos) = infos {
                    port.start(infos);
                }
            }
            let q = PortPoll { connection_id, port_id: id, answer, start_requested: start };
            polls.push(q);
            if let Some(e) = event {
                events.push(e);
            }
            proof {
                let n = polls_before.len() as int;
                let s = polls@.subrange(p0 as int, polls@.len() as int);
                assert(s.drop_last() =~= polls_before.subrange(p0 as int, n));
                assert(s.last() == q);
                assert(polls@.subrange(0, p0 as int) =~= polls_before.subrange(0, p0 as int));
                assert forall|p: u32|
                    #[trigger] visited(ports, len, p) && p < port_id + 1 implies exists|k: int|
                        p0 <= k < polls@.len() && (#[trigger] polls@[k]).port_id == p by {
                    if p < port_id {
                        let k = choose|k: int| p0 <= k < polls_before.len() && (#[trigger] polls_before[k]).port_id == p;
                        assert(polls@[k] == polls_before[k]);
                    } else {
                        assert(polls@[n].port_id == p);
                    }
                }
            }
        }
        assert(connection.ports().dom() =~= ports);
        port_id = port_id + 1;
    }
}

/// Starts every port that is not up yet (a port can start only once the
/// connection has its shared infos), and reports the ports that came up.
/// Also returns every poll: each port visited (present, id at most the
/// number of secondary ports) is polled once, with its answer and whether
/// it was asked to start; the events are exactly those of the polls, in
/// order.
pub fn start_ports<P: ServerPortTrait<I>, I>(
    network_connection: &mut NetworkConnection<ServerConnection<P, I>>,
) -> (r: (Vec<ServerPortConnected>, Vec<PortPoll>))
    ensures
        same_server_shape(final(network_connection).0@, old(network_connection).0@),
        r.0@ == events_of(r.1@),
        forall|k: int|
            0 <= k < r.1@.len() ==> old(network_connection).0@.contains_key((#[trigger] r.1@[k]).connection_id) && poll_ok(
                r.1@[k],
                old(network_connection).0@[r.1@[k].connection_id].ports().dom(),
                old(network_connection).0@[r.1@[k].connection_id].secondary().dom().len(),
                old(network_connection).0@[r.1@[k].connection_id].shared_infos() is Some,
            ),
        forall|a: int, b: int|
            0 <= a < b < r.1@.len() ==> (#[trigger] r.1@[a]).connection_id != (#[trigger] r.1@[b]).connection_id
                || r.1@[a].port_id != r.1@[b].port_id,
        forall|c: u32, p: u32|
            old(network_connection).0@.contains_key(c) && #[trigger] visited(
                old(network_connection).0@[c].ports().dom(),
                old(network_connection).0@[c].secondary().dom().len(),
                p,
            ) ==> exists|k: int| 0 <= k < r.1@.len() && (#[trigger] r.1@[k]).connection_id == c && r.1@[k].port_id == p,
        forall|k: int|
            0 <= k < r.1@.len() && (#[trigger] r.1@[k]).start_requested ==> final(network_connection).0@[r.1@[k].connection_id].ports()[r.1@[k].port_id].start_requested(),
{
    let ids = keys_of(&network_connection.0);
    let mut events: Vec<ServerPortConnected> = Vec::new();
    let mut polls: Vec<PortPoll> = Vec::new();
    let mut i: usize = 0;
    while i < ids.len()
        invariant
            i <= ids@.len(),
            ids@.no_duplicates(),
            ids@.to_set() == old(network_connection).0@.dom(),
            same_server_shape(network_connection.0@, old(network_connection).0@),
            events@ == events_of(polls@),
            forall|k: int|
                0 <= k < polls@.len() ==> exists|j: int| 0 <= j < i && ids@[j] == (#[trigger] polls@[k]).connection_id,
            forall|k: int|
                0 <= k < polls@.len() ==> old(network_connection).0@.contains_key((#[trigger] polls@[k]).connection_id)
                    && poll_ok(
                    polls@[k],
                    old(network_connection).0@[polls@[k].connection_id].ports().dom(),
                    old(network_connection).0@[polls@[k].connection_id].secondary().dom().len(),
                    old(network_connection).0@[polls@[k].connection_id].shared_infos() is Some,
                ),
            forall|a: int, b: int|
                0 <= a < b < polls@.len() ==> (#[trigger] polls@[a]).connection_id != (#[trigger] polls@[b]).connection_id
                    || polls@[a].port_id != polls@[b].port_id,
            forall|j: int, p: u32|
                0 <= j < i && #[trigger] visited(
                    old(network_connection).0@[ids@[j]].ports().dom(),
                    old(network_connection).0@[ids@[j]].secondary().dom().len(),
                    p,
                ) ==> exists|k: int| 0 <= k < polls@.len() && (#[trigger] polls@[k]).connection_id == ids@[j] && polls@[k].port_id == p,
            forall|k: int|
                0 <= k < polls@.len() && (#[trigger] polls@[k]).start_requested ==> network_connection.0@[polls@[k].connection_id].ports()[polls@[k].port_id].start_requested(),
        decreases ids@.len() - i,
    {
        let c = ids[i];
        let ghost polls_before = polls@;
        assert(ids@.to_set().contains(ids@[i as int]));
        if let Some(connection) = get_mut_u32(&mut network_connection.0, c) {
            start_connection_ports(c, connection, &mut events, &mut polls);
        }
        proof {
            let np = polls_before.len() as int;
            let o = old(network_connection).0@;
            assert(polls@ =~= polls_before + polls@.subrange(np, polls@.len() as int));
            lemma_events_of_concat(polls_before, polls@.subrange(np, polls@.len() as int));
            assert forall|k: int|
                0 <= k < polls@.len() && (#[trigger] polls@[k]).start_requested implies network_connection.0@[polls@[k].connection_id].ports()[polls@[k].port_id].start_requested() by {
                if k < np {
                    let j = choose|j: int| 0 <= j < i && ids@[j] == polls_before[k].connection_id;
                    assert(ids@[j] != ids@[i as int]);
                    assert(polls@[k] == polls_before[k]);
                }
            }
            assert forall|k: int| 0 <= k < polls@.len() implies exists|j: int| 0 <= j < i + 1 && ids@[j] == (#[trigger] polls@[k]).connection_id by {
                if k < np {
                    let j = choose|j: int| 0 <= j < i && ids@[j] == polls_before[k].connection_id;
                    assert(ids@[j] == polls@[k].connection_id);
                } else {
                    assert(ids@[i as int] == polls@[k].connection_id);
                }
            }
            assert forall|a: int, b: int|
                0 <= a < b < polls@.len() implies (#[trigger] polls@[a]).connection_id != (#[trigger] polls@[b]).connection_id
                    || polls@[a].port_id != polls@[b].port_id by {
                if b >= np && a < np {
                    let j = choose|j: int| 0 <= j < i && ids@[j] == polls_before[a].connection_id;
                    assert(ids@[j] != ids@[i as int]);
                }
            }
            assert forall|j: int, p: u32|
                0 <= j < i + 1 && #[trigger] visited(o[ids@[j]].ports().dom(), o[ids@[j]].secondary().dom().len(), p)
                    implies exists|k: int| 0 <= k < polls@.len() && (#[trigger] polls@[k]).connection_id == ids@[j] && polls@[k].port_id == p by {
                if j < i {
                    let k = choose|k: int| 0 <= k < polls_before.len() && (#[trigger] polls_before[k]).connection_id == ids@[j] && polls_before[k].port_id == p;
                    assert(polls@[k] == polls_before[k]);
                } else {
                    assert(visited(o[c].ports().dom(), o[c].secondary().dom().len(), p));
                    let k = choose|k: int| np <= k < polls@.len() && (#[trigger] polls@[k]).port_id == p;
                    assert(polls@[k].connection_id == c);
                }
            }
        }
        i = i + 1;
    }
    proof {
        assert forall|cc: u32, p: u32|
            old(network_connection).0@.contains_key(cc) && #[trigger] visited(
                old(network_connection).0@[cc].ports().dom(),
                old(network_connection).0@[cc].secondary().dom().len(),
                p,
            ) implies exists|k: int| 0 <= k < polls@.len() && (#[trigger] polls@[k]).connection_id == cc && polls@[k].port_id == p by {
            assert(ids@.to_set().contains(cc));
            let j = choose|j: int| 0 <= j < ids@.len() && ids@[j] == cc;
            assert(visited(
                old(network_connection).0@[ids@[j]].ports().dom(),
                old(network_connection).0@[ids@[j]].secondary().dom().len(),
                p,
            ));
        }
    }
    (events, polls)
}

/// What a port reports of the sessions it accepted since the last frame: an
/// event only when there are any.
pub fn peers_accepted_event(connection_id: u32, port_id: u32, sessions: Vec<u128>) -> (r: Option<
    AnonymousPeersAcceptedOnPort,
>)
    ensures
        r == (if sessions@.len() > 0 {
            Some(AnonymousPeersAcceptedOnPort { port_id, connection_id, seasons_uuids: sessions })
        } else {
            None
        }),
{
    if sessions.len() > 0 {
        Some(AnonymousPeersAcceptedOnPort { port_id, connection_id, seasons_uuids: sessions })
    } else {
        None
    }
}

/// The events `events` are those of the reports `log` that gave one, in
/// order, each naming the report's connection and port and carrying the
/// sessions the report names; a report gave one exactly when it names any.
pub open spec fn follows_accepted(events: Seq<AnonymousPeersAcceptedOnPort>, log: Seq<SessionsReport>) -> bool
    decreases log.len(),
{
    if log.len() == 0 {
        events.len() == 0
    } else if log.last().reported {
        &&& log.last().sessions@.len() > 0
        &&& events.len() > 0
        &&& events.last().connection_id == log.last().connection_id
        &&& events.last().port_id == log.last().port_id
        &&& events.last().seasons_uuids@ == log.last().sessions@
        &&& follows_accepted(events.drop_last(), log.drop_last())
    } else {
        &&& log.last().sessions@.len() == 0
        &&& follows_accepted(events, log.drop_last())
    }
}

proof fn lemma_events_follow_push_accepted(events: Seq<AnonymousPeersAcceptedOnPort>, log: Seq<SessionsReport>, event: Option<AnonymousPeersAcceptedOnPort>, q: SessionsReport)
    requires
        follows_accepted(events, log),
        (event is Some) == q.reported,
        q.reported == (q.sessions@.len() > 0),
        event is Some ==> event->0.connection_id == q.connection_id && event->0.port_id == q.port_id
            && event->0.seasons_uuids@ == q.sessions@,
    ensures
        follows_accepted(
            match event {
                Some(e) => events.push(e),
                None => events,
            },
            log.push(q),
        ),
{
    assert(log.push(q).drop_last() =~= log);
    if let Some(e) = event {
        assert(events.push(e).drop_last() =~= events);
    }
}

proof fn lemma_events_follow_concat_accepted(e1: Seq<AnonymousPeersAcceptedOnPort>, l1: Seq<SessionsReport>, e2: Seq<AnonymousPeersAcceptedOnPort>, l2: Seq<SessionsReport>)
    requires
        follows_accepted(e1, l1),
        follows_accepted(e2, l2),
    ensures
        follows_accepted(e1 + e2, l1 + l2),
    decreases l2.len(),
{
    if l2.len() == 0 {
        assert(e1 + e2 =~= e1);
        assert(l1 + l2 =~= l1);
    } else {
        assert((l1 + l2).drop_last() =~= l1 + l2.drop_last());
        assert((l1 + l2).last() == l2.last());
        if l2.last().reported {
            lemma_events_follow_concat_accepted(e1, l1, e2.drop_last(), l2.drop_last());
            assert((e1 + e2).drop_last() =~= e1 + e2.drop_last());
            assert((e1 + e2).last() == e2.last());
        } else {
            lemma_events_follow_concat_accepted(e1, l1, e2, l2.drop_last());
        }
    }
}

/// Takes in the sessions each port of one connection accepted.
fn accept_connection_peers<P: ServerPortTrait<I>, I>(
    connection_id: u32,
    connection: &mut ServerConnection<P, I>,
    events: &mut Vec<AnonymousPeersAcceptedOnPort>,
    log: &mut Vec<SessionsReport>,
)
    ensures
        final(connection).ports().dom() == old(connection).ports().dom(),
        final(connection).secondary().dom() == old(connection).secondary().dom(),
        final(connection).same_settings(old(connection)),
        final(log)@.len() >= old(log)@.len(),
        final(log)@.subrange(0, old(log)@.len() as int) == old(log)@,
        final(events)@.len() >= old(events)@.len(),
        final(events)@.subrange(0, old(events)@.len() as int) == old(events)@,
        forall|k: int|
            old(log)@.len() <= k < final(log)@.len() ==> (#[trigger] final(log)@[k]).connection_id == connection_id
                && visited(old(connection).ports().dom(), old(connection).secondary().dom().len(), final(log)@[k].port_id),
        forall|a: int, b: int|
            old(log)@.len() <= a < b < final(log)@.len() ==> (#[trigger] final(log)@[a]).port_id
                < (#[trigger] final(log)@[b]).port_id,
        forall|p: u32|
            #[trigger] visited(old(connection).ports().dom(), old(connection).secondary().dom().len(), p) ==> exists|k: int|
                old(log)@.len() <= k < final(log)@.len() && (#[trigger] final(log)@[k]).port_id == p,
        follows_accepted(
            final(events)@.subrange(old(events)@.len() as int, final(events)@.len() as int),
            final(log)@.subrange(old(log)@.len() as int, final(log)@.len() as int),
        ),
{
    let ports_amount = connection.get_ports_amount();
    let ghost ports = old(connection).ports().dom();
    let ghost len = old(connection).secondary().dom().len();
    let ghost l0 = old(log)@.len() as int;
    let ghost e0 = old(events)@.len() as int;
    let mut port_id: u64 = 0;
    while port_id <= ports_amount as u64
        invariant
            connection.ports().dom() == ports,
            connection.secondary().dom() == old(connection).secondary().dom(),
            connection.same_settings(old(connection)),
            len == old(connection).secondary().dom().len(),
            ports_amount == len as u32,
            port_id <= ports_amount as u64 + 1,
            l0 == old(log)@.len(),
            e0 == old(events)@.len(),
            log@.len() >= l0,
            log@.subrange(0, l0) == old(log)@,
            events@.len() >= e0,
            events@.subrange(0, e0) == old(events)@,
            forall|k: int|
                l0 <= k < log@.len() ==> (#[trigger] log@[k]).connection_id == connection_id && visited(ports, len, log@[k].port_id)
                    && log@[k].port_id < port_id,
            forall|a: int, b: int| l0 <= a < b < log@.len() ==> (#[trigger] log@[a]).port_id < (#[trigger] log@[b]).port_id,
            forall|p: u32|
                #[trigger] visited(ports, len, p) && p < port_id ==> exists|k: int|
                    l0 <= k < log@.len() && (#[trigger] log@[k]).port_id == p,
            follows_accepted(events@.subrange(e0, events@.len() as int), log@.subrange(l0, log@.len() as int)),
        decreases ports_amount as u64 + 1 - port_id,
    {
        let id = port_id as u32;
        let ghost lb = log@;
        let ghost eb = events@;
        if let Some(port) = connection.get_port(id) {
            let accepted = port.peers_connected();
            let sessions = copy_ids(&accepted);
            let event = peers_accepted_event(connection_id, id, accepted);
            let reported = event.is_some();
            if let Some(e) = event {
                events.push(e);
                proof {
                    assert(events@.subrange(e0, events@.len() as int) =~= eb.subrange(e0, eb.len() as int).push(e));
                }
            }
            log.push(SessionsReport { connection_id, port_id: id, reported, sessions });
            proof {
                assert(log@.subrange(0, l0) =~= lb.subrange(0, l0));
                assert(events@.subrange(0, e0) =~= eb.subrange(0, e0));
                lemma_events_follow_push_accepted(
                    eb.subrange(e0, eb.len() as int),
                    lb.subrange(l0, lb.len() as int),
                    event,
                    SessionsReport { connection_id, port_id: id, reported, sessions },
                );
                assert(log@.subrange(l0, log@.len() as int) =~= lb.subrange(l0, lb.len() as int).push(
                    SessionsReport { connection_id, port_id: id, reported, sessions },
                ));
                if !reported {
                    assert(events@ == eb);
                }
                assert forall|p: u32| #[trigger] visited(ports, len, p) && p < port_id + 1 implies exists|k: int|
                    l0 <= k < log@.len() && (#[trigger] log@[k]).port_id == p by {
                    if p < port_id {
                        let k = choose|k: int| l0 <= k < lb.len() && (#[trigger] lb[k]).port_id == p;
                        assert(log@[k] == lb[k]);
                    } else {
                        assert(log@[lb.len() as int].port_id == p);
                    }
                }
            }
        }
        assert(connection.ports().dom() =~= ports);
        port_id = port_id + 1;
    }
}

/// Reports, for every port that accepted sessions since the last frame, the
/// new sessions (the event `peers_accepted_event` builds from its answer). Also returns one report for every port visited (present, id at
/// most the number of secondary ports) of every connection, each once,
/// naming the sessions the port answered with and saying whether it gave
/// an event; the events are those of the reports, in order.
pub fn check_peers_connected<P: ServerPortTrait<I>, I>(
    network_connection: &mut NetworkConnection<ServerConnection<P, I>>,
) -> (r: (Vec<AnonymousPeersAcceptedOnPort>, Vec<SessionsReport>))
    ensures
        same_server_shape(final(network_connection).0@, old(network_connection).0@),
        follows_accepted(r.0@, r.1@),
        forall|k: int|
            0 <= k < r.1@.len() ==> old(network_connection).0@.contains_key((#[trigger] r.1@[k]).connection_id) && visited(
                old(network_connection).0@[r.1@[k].connection_id].ports().dom(),
                old(network_connection).0@[r.1@[k].connection_id].secondary().dom().len(),
                r.1@[k].port_id,
            ),
        forall|a: int, b: int|
            0 <= a < b < r.1@.len() ==> (#[trigger] r.1@[a]).connection_id != (#[trigger] r.1@[b]).connection_id
                || r.1@[a].port_id != r.1@[b].port_id,
        forall|c: u32, p: u32|
            old(network_connection).0@.contains_key(c) && #[trigger] visited(
                old(network_connection).0@[c].ports().dom(),
                old(network_connection).0@[c].secondary().dom().len(),
                p,
            ) ==> exists|k: int| 0 <= k < r.1@.len() && (#[trigger] r.1@[k]).connection_id == c && r.1@[k].port_id == p,
{
    let ids = keys_of(&network_connection.0);
    let mut events: Vec<AnonymousPeersAcceptedOnPort> = Vec::new();
    let mut log: Vec<SessionsReport> = Vec::new();
    let mut i: usize = 0;
    while i < ids.len()
        invariant
            i <= ids@.len(),
            ids@.no_duplicates(),
            ids@.to_set() == old(network_connection).0@.dom(),
            same_server_shape(network_connection.0@, old(network_connection).0@),
            follows_accepted(events@, log@),
            forall|k: int|
                0 <= k < log@.len() ==> exists|j: int| 0 <= j < i && ids@[j] == (#[trigger] log@[k]).connection_id,
            forall|k: int|
                0 <= k < log@.len() ==> old(network_connection).0@.contains_key((#[trigger] log@[k]).connection_id) && visited(
                    old(network_connection).0@[log@[k].connection_id].ports().dom(),
                    old(network_connection).0@[log@[k].connection_id].secondary().dom().len(),
                    log@[k].port_id,
                ),
            forall|a: int, b: int|
                0 <= a < b < log@.len() ==> (#[trigger] log@[a]).connection_id != (#[trigger] log@[b]).connection_id
                    || log@[a].port_id != log@[b].port_id,
            forall|j: int, p: u32|
                0 <= j < i && #[trigger] visited(
                    old(network_connection).0@[ids@[j]].ports().dom(),
                    old(network_connection).0@[ids@[j]].secondary().dom().len(),
                    p,
                ) ==> exists|k: int| 0 <= k < log@.len() && (#[trigger] log@[k]).connection_id == ids@[j] && log@[k].port_id == p,
        decreases ids@.len() - i,
    {
        let c = ids[i];
        let ghost lb = log@;
        let ghost eb = events@;
        assert(ids@.to_set().contains(ids@[i as int]));
        if let Some(connection) = get_mut_u32(&mut network_connection.0, c) {
            accept_connection_peers(c, connection, &mut events, &mut log);
        }
        proof {
            let nl = lb.len() as int;
            let ne = eb.len() as int;
            let o = old(network_connection).0@;
            assert(log@ =~= lb + log@.subrange(nl, log@.len() as int));
            assert(events@ =~= eb + events@.subrange(ne, events@.len() as int));
            lemma_events_follow_concat_accepted(eb, lb, events@.subrange(ne, events@.len() as int), log@.subrange(nl, log@.len() as int));
            assert forall|k: int| 0 <= k < log@.len() implies exists|j: int| 0 <= j < i + 1 && ids@[j] == (#[trigger] log@[k]).connection_id by {
                if k < nl {
                    let j = choose|j: int| 0 <= j < i && ids@[j] == lb[k].connection_id;
                    assert(ids@[j] == log@[k].connection_id);
                } else {
                    assert(ids@[i as int] == log@[k].connection_id);
                }
            }
            assert forall|a: int, b: int|
                0 <= a < b < log@.len() implies (#[trigger] log@[a]).connection_id != (#[trigger] log@[b]).connection_id
                    || log@[a].port_id != log@[b].port_id by {
                if b >= nl && a < nl {
                    let j = choose|j: int| 0 <= j < i && ids@[j] == lb[a].connection_id;
                    assert(ids@[j] != ids@[i as int]);
                }
            }
            assert forall|j: int, p: u32|
                0 <= j < i + 1 && #[trigger] visited(o[ids@[j]].ports().dom(), o[ids@[j]].secondary().dom().len(), p)
                    implies exists|k: int| 0 <= k < log@.len() && (#[trigger] log@[k]).connection_id == ids@[j] && log@[k].port_id == p by {
                if j < i {
                    let k = choose|k: int| 0 <= k < lb.len() && (#[trigger] lb[k]).connection_id == ids@[j] && lb[k].port_id == p;
                    assert(log@[k] == lb[k]);
                } else {
                    assert(visited(o[c].ports().dom(), o[c].secondary().dom().len(), p));
                    let k = choose|k: int| nl <= k < log@.len() && (#[trigger] log@[k]).port_id == p;
                    assert(log@[k].connection_id == c);
                }
            }
        }
        i = i + 1;
    }
    proof {
        assert forall|cc: u32, p: u32|
            old(network_connection).0@.contains_key(cc) && #[trigger] visited(
                old(network_connection).0@[cc].ports().dom(),
                old(network_connection).0@[cc].secondary().dom().len(),
                p,
            ) implies exists|k: int| 0 <= k < log@.len() && (#[trigger] log@[k]).connection_id == cc && log@[k].port_id == p by {
            assert(ids@.to_set().contains(cc));
            let j = choose|j: int| 0 <= j < ids@.len() && ids@[j] == cc;
            assert(visited(
                old(network_connection).0@[ids@[j]].ports().dom(),
                old(network_connection).0@[ids@[j]].secondary().dom().len(),
                p,
            ));
        }
    }
    (events, log)
}

/// Has each port of one connection read from its sessions; records the ports asked.
fn listen_connection_peers<P: ServerPortTrait<I>, I>(
    connection_id: u32,
    connection: &mut ServerConnection<P, I>,
    asked: &mut Vec<(u32, u32)>,
)
    ensures
        final(connection).ports().dom() == old(connection).ports().dom(),
        final(connection).secondary().dom() == old(connection).secondary().dom(),
        final(connection).same_settings(old(connection)),
        final(asked)@.len() >= old(asked)@.len(),
        final(asked)@.subrange(0, old(asked)@.len() as int) == old(asked)@,
        forall|x: (u32, u32)|
            #[trigger] final(asked)@.subrange(old(asked)@.len() as int, final(asked)@.len() as int).contains(x) <==> (x.0
                == connection_id && old(connection).shared_infos() is Some && visited(
                old(connection).ports().dom(),
                old(connection).secondary().dom().len(),
                x.1,
            )),
        forall|a: int, b: int|
            old(asked)@.len() <= a < b < final(asked)@.len() ==> (#[trigger] final(asked)@[a]).1
                < (#[trigger] final(asked)@[b]).1,
{
    let ports_amount = connection.get_ports_amount();
    let ghost ports = old(connection).ports().dom();
    let ghost len = old(connection).secondary().dom().len();
    let ghost has_infos = old(connection).shared_infos() is Some;
    let ghost n0 = old(asked)@.len() as int;
    let mut port_id: u64 = 0;
    while port_id <= ports_amount as u64
        invariant
            connection.ports().dom() == ports,
            connection.secondary().dom() == old(connection).secondary().dom(),
            connection.same_settings(old(connection)),
            has_infos == (connection.shared_infos() is Some),
            len == old(connection).secondary().dom().len(),
            ports_amount == len as u32,
            port_id <= ports_amount as u64 + 1,
            n0 == old(asked)@.len(),
            asked@.len() >= n0,
            asked@.subrange(0, n0) == old(asked)@,
            forall|x: (u32, u32)|
                #[trigger] asked@.subrange(n0, asked@.len() as int).contains(x) <==> (x.0 == connection_id && has_infos
                    && visited(ports, len, x.1) && x.1 < port_id),
            forall|k: int| n0 <= k < asked@.len() ==> (#[trigger] asked@[k]).1 < port_id,
            forall|a: int, b: int| n0 <= a < b < asked@.len() ==> (#[trigger] asked@[a]).1 < (#[trigger] asked@[b]).1,
        decreases ports_amount as u64 + 1 - port_id,
    {
        let id = port_id as u32;
        let ghost before = asked@;
        let (port, infos) = connection.get_port_split(id);
        if let (Some(port), Some(infos)) = (port, infos) {
            port.listen_peers(infos);
            asked.push((connection_id, id));
        }
        proof {
            let s_before = before.subrange(n0, before.len() as int);
            if asked@.len() > before.len() {
                assert(asked@.subrange(n0, asked@.len() as int) =~= s_before.push((connection_id, id)));
                assert(asked@.subrange(0, n0) =~= before.subrange(0, n0));
            } else {
                assert(asked@ == before);
            }
            assert forall|x: (u32, u32)|
                #[trigger] asked@.subrange(n0, asked@.len() as int).contains(x) <==> (x.0 == connection_id && has_infos
                    && visited(ports, len, x.1) && x.1 < port_id + 1) by {
                vstd::seq_lib::lemma_seq_contains_after_push(s_before, (connection_id, id), x);
            }
        }
        assert(connection.ports().dom() =~= ports);
        port_id = port_id + 1;
    }
}

/// Has every port read what its sessions sent, once the connection has its shared infos. Returns
/// the ports asked, as (connection id, port id), each once: exactly the
/// ports visited (present, id at most the number of secondary ports) of
/// the connections that have their shared infos.
pub fn listen_peers<P: ServerPortTrait<I>, I>(network_connection: &mut NetworkConnection<ServerConnection<P, I>>) -> (r: Vec<(u32, u32)>)
    ensures
        same_server_shape(final(network_connection).0@, old(network_connection).0@),
        r@.no_duplicates(),
        forall|c: u32, p: u32|
            #[trigger] r@.contains((c, p)) <==> (old(network_connection).0@.contains_key(c)
                && old(network_connection).0@[c].shared_infos() is Some && visited(
                old(network_connection).0@[c].ports().dom(),
                old(network_connection).0@[c].secondary().dom().len(),
                p,
            )),
{
    let ids = keys_of(&network_connection.0);
    let mut asked: Vec<(u32, u32)> = Vec::new();
    let mut i: usize = 0;
    while i < ids.len()
        invariant
            i <= ids@.len(),
            ids@.no_duplicates(),
            ids@.to_set() == old(network_connection).0@.dom(),
            same_server_shape(network_connection.0@, old(network_connection).0@),
            asked@.no_duplicates(),
            forall|c: u32, p: u32|
                #[trigger] asked@.contains((c, p)) <==> (ids@.take(i as int).contains(c)
                    && old(network_connection).0@[c].shared_infos() is Some && visited(
                    old(network_connection).0@[c].ports().dom(),
                    old(network_connection).0@[c].secondary().dom().len(),
                    p,
                )),
        decreases ids@.len() - i,
    {
        let c = ids[i];
        let ghost before = asked@;
        assert(ids@.to_set().contains(ids@[i as int]));
        if let Some(connection) = get_mut_u32(&mut network_connection.0, c) {
            listen_connection_peers(c, connection, &mut asked);
        }
        proof {
            let n = before.len() as int;
            let fresh = asked@.subrange(n, asked@.len() as int);
            assert(asked@ =~= before + fresh);
            assert(ids@.take(i + 1) =~= ids@.take(i as int).push(c));
            assert(!ids@.take(i as int).contains(c)) by {
                if ids@.take(i as int).contains(c) {
                    let j = choose|j: int| 0 <= j < i && ids@.take(i as int)[j] == c;
                    assert(ids@[j] == ids@[i as int]);
                }
            }
            assert forall|cc: u32, p: u32| #[trigger] asked@.contains((cc, p)) <==> (ids@.take(i + 1).contains(cc)
                && old(network_connection).0@[cc].shared_infos() is Some && visited(
                old(network_connection).0@[cc].ports().dom(),
                old(network_connection).0@[cc].secondary().dom().len(),
                p,
            )) by {
                vstd::seq_lib::lemma_seq_contains_after_push(ids@.take(i as int), c, cc);
                if asked@.contains((cc, p)) {
                    let k = choose|k: int| 0 <= k < asked@.len() && asked@[k] == (cc, p);
                    if k < n {
                        assert(before[k] == (cc, p));
                    } else {
                        assert(fresh[k - n] == (cc, p));
                        assert(fresh.contains((cc, p)));
                    }
                }
                if before.contains((cc, p)) {
                    let k = choose|k: int| 0 <= k < n && before[k] == (cc, p);
                    assert(asked@[k] == (cc, p));
                }
                if fresh.contains((cc, p)) {
                    let k = choose|k: int| 0 <= k < fresh.len() && fresh[k] == (cc, p);
                    assert(asked@[n + k] == (cc, p));
                }
            }
            assert forall|a: int, b: int| 0 <= a < b < asked@.len() implies asked@[a] != asked@[b] by {
                if b >= n && a < n {
                    assert(fresh.contains(asked@[b])) by {
                        assert(fresh[b - n] == asked@[b]);
                    }
                    assert(before.contains(asked@[a])) by {
                        assert(before[a] == asked@[a]);
                    }
                }
            }
        }
        i = i + 1;
    }
    proof {
        assert(ids@.take(ids@.len() as int) =~= ids@);
        assert forall|c: u32| #[trigger] ids@.contains(c) <==> old(network_connection).0@.contains_key(c) by {
            if old(network_connection).0@.contains_key(c) {
                assert(ids@.to_set().contains(c));
            }
        }
    }
    asked
}

/// What a port reports of the sessions it dropped since the last frame: an
/// event only when there are any.
pub fn peers_dropped_event<E>(connection_id: u32, port_id: u32, peers: HashMap<u128, (Option<u128>, E)>) -> (r:
    Option<PeersDroppedServer<E>>)
    ensures
        r == (if !peers@.is_empty() {
            Some(PeersDroppedServer { port_id, connection_id, peers })
        } else {
            None
        }),
{
    if !peers.is_empty() {
        Some(PeersDroppedServer { port_id, connection_id, peers })
    } else {
        None
    }
}

/// The events `events` are those of the reports `log` that gave one, in
/// order, each naming the report's connection and port and holding exactly
/// the sessions the report names; a report gave one exactly when it names
/// any.
pub open spec fn follows_dropped<E>(events: Seq<PeersDroppedServer<E>>, log: Seq<SessionsReport>) -> bool
    decreases log.len(),
{
    if log.len() == 0 {
        events.len() == 0
    } else if log.last().reported {
        &&& log.last().sessions@.len() > 0
        &&& events.len() > 0
        &&& events.last().connection_id == log.last().connection_id
        &&& events.last().port_id == log.last().port_id
        &&& events.last().peers@.dom() == log.last().sessions@.to_set()
        &&& follows_dropped(events.drop_last(), log.drop_last())
    } else {
        &&& log.last().sessions@.len() == 0
        &&& follows_dropped(events, log.drop_last())
    }
}

proof fn lemma_events_follow_push_dropped<E>(events: Seq<PeersDroppedServer<E>>, log: Seq<SessionsReport>, event: Option<PeersDroppedServer<E>>, q: SessionsReport)
    requires
        follows_dropped(events, log),
        (event is Some) == q.reported,
        q.reported == (q.sessions@.len() > 0),
        event is Some ==> event->0.connection_id == q.connection_id && event->0.port_id == q.port_id
            && event->0.peers@.dom() == q.sessions@.to_set(),
    ensures
        follows_dropped(
            match event {
                Some(e) => events.push(e),
                None => events,
            },
            log.push(q),
        ),
{
    assert(log.push(q).drop_last() =~= log);
    if let Some(e) = event {
        assert(events.push(e).drop_last() =~= events);
    }
}

proof fn lemma_events_follow_concat_dropped<E>(e1: Seq<PeersDroppedServer<E>>, l1: Seq<SessionsReport>, e2: Seq<PeersDroppedServer<E>>, l2: Seq<SessionsReport>)
    requires
        follows_dropped(e1, l1),
        follows_dropped(e2, l2),
    ensures
        follows_dropped(e1 + e2, l1 + l2),
    decreases l2.len(),
{
    if l2.len() == 0 {
        assert(e1 + e2 =~= e1);
        assert(l1 + l2 =~= l1);
    } else {
        assert((l1 + l2).drop_last() =~= l1 + l2.drop_last());
        assert((l1 + l2).last() == l2.last());
        if l2.last().reported {
            lemma_events_follow_concat_dropped(e1, l1, e2.drop_last(), l2.drop_last());
            assert((e1 + e2).drop_last() =~= e1 + e2.drop_last());
            assert((e1 + e2).last() == e2.last());
        } else {
            lemma_events_follow_concat_dropped(e1, l1, e2, l2.drop_last());
        }
    }
}

/// Collects the sessions each port of one connection dropped.
fn dropped_connection_peers<P: ServerPortTrait<I>, I>(
    connection_id: u32,
    connection: &mut ServerConnection<P, I>,
    events: &mut Vec<PeersDroppedServer<P::Error>>,
    log: &mut Vec<SessionsReport>,
)
    ensures
        final(connection).ports().dom() == old(connection).ports().dom(),
        final(connection).secondary().dom() == old(connection).secondary().dom(),
        final(connection).same_settings(old(connection)),
        final(log)@.len() >= old(log)@.len(),
        final(log)@.subrange(0, old(log)@.len() as int) == old(log)@,
        final(events)@.len() >= old(events)@.len(),
        final(events)@.subrange(0, old(events)@.len() as int) == old(events)@,
        forall|k: int|
            old(log)@.len() <= k < final(log)@.len() ==> (#[trigger] final(log)@[k]).connection_id == connection_id
                && visited(old(connection).ports().dom(), old(connection).secondary().dom().len(), final(log)@[k].port_id),
        forall|a: int, b: int|
            old(log)@.len() <= a < b < final(log)@.len() ==> (#[trigger] final(log)@[a]).port_id
                < (#[trigger] final(log)@[b]).port_id,
        forall|p: u32|
            #[trigger] visited(old(connection).ports().dom(), old(connection).secondary().dom().len(), p) ==> exists|k: int|
                old(log)@.len() <= k < final(log)@.len() && (#[trigger] final(log)@[k]).port_id == p,
        follows_dropped(
            final(events)@.subrange(old(events)@.len() as int, final(events)@.len() as int),
            final(log)@.subrange(old(log)@.len() as int, final(log)@.len() as int),
        ),
{
    let ports_amount = connection.get_ports_amount();
    let ghost ports = old(connection).ports().dom();
    let ghost len = old(connection).secondary().dom().len();
    let ghost l0 = old(log)@.len() as int;
    let ghost e0 = old(events)@.len() as int;
    let mut port_id: u64 = 0;
    while port_id <= ports_amount as u64
        invariant
            connection.ports().dom() == ports,
            connection.secondary().dom() == old(connection).secondary().dom(),
            connection.same_settings(old(connection)),
            len == old(connection).secondary().dom().len(),
            ports_amount == len as u32,
            port_id <= ports_amount as u64 + 1,
            l0 == old(log)@.len(),
            e0 == old(events)@.len(),
            log@.len() >= l0,
            log@.subrange(0, l0) == old(log)@,
            events@.len() >= e0,
            events@.subrange(0, e0) == old(events)@,
            forall|k: int|
                l0 <= k < log@.len() ==> (#[trigger] log@[k]).connection_id == connection_id && visited(ports, len, log@[k].port_id)
                    && log@[k].port_id < port_id,
            forall|a: int, b: int| l0 <= a < b < log@.len() ==> (#[trigger] log@[a]).port_id < (#[trigger] log@[b]).port_id,
            forall|p: u32|
                #[trigger] visited(ports, len, p) && p < port_id ==> exists|k: int|
                    l0 <= k < log@.len() && (#[trigger] log@[k]).port_id == p,
            follows_dropped(events@.subrange(e0, events@.len() as int), log@.subrange(l0, log@.len() as int)),
        decreases ports_amount as u64 + 1 - port_id,
    {
        let id = port_id as u32;
        let ghost lb = log@;
        let ghost eb = events@;
        if let Some(port) = connection.get_port(id) {
            let dropped = port.get_peers_disconnected();
            let sessions = keys_of_u128(&dropped);
            proof {
                if sessions@.len() == 0 {
                    assert(dropped@.dom().len() == 0);
                    assert(dropped@.dom() =~= Set::<u128>::empty());
                }
                if dropped@.is_empty() {
                    assert(dropped@.dom() =~= Set::<u128>::empty());
                }
            }
            let event = peers_dropped_event(connection_id, id, dropped);
            let reported = event.is_some();
            if let Some(e) = event {
                events.push(e);
                proof {
                    assert(events@.subrange(e0, events@.len() as int) =~= eb.subrange(e0, eb.len() as int).push(e));
                }
            }
            log.push(SessionsReport { connection_id, port_id: id, reported, sessions });
            proof {
                assert(log@.subrange(0, l0) =~= lb.subrange(0, l0));
                assert(events@.subrange(0, e0) =~= eb.subrange(0, e0));
                lemma_events_follow_push_dropped(
                    eb.subrange(e0, eb.len() as int),
                    lb.subrange(l0, lb.len() as int),
                    event,
                    SessionsReport { connection_id, port_id: id, reported, sessions },
                );
                assert(log@.subrange(l0, log@.len() as int) =~= lb.subrange(l0, lb.len() as int).push(
                    SessionsReport { connection_id, port_id: id, reported, sessions },
                ));
                if !reported {
                    assert(events@ == eb);
                }
                assert forall|p: u32| #[trigger] visited(ports, len, p) && p < port_id + 1 implies exists|k: int|
                    l0 <= k < log@.len() && (#[trigger] log@[k]).port_id == p by {
                    if p < port_id {
                        let k = choose|k: int| l0 <= k < lb.len() && (#[trigger] lb[k]).port_id == p;
                        assert(log@[k] == lb[k]);
                    } else {
                        assert(log@[lb.len() as int].port_id == p);
                    }
                }
            }
        }
        assert(connection.ports().dom() =~= ports);
        port_id = port_id + 1;
    }
}

/// Reports, for every port that dropped sessions since the last frame, those
/// sessions with their peer and the reason (the event `peers_dropped_event`
/// builds from its answer). Also returns one report for every port visited (present, id at
/// most the number of secondary ports) of every connection, each once,
/// naming the sessions the port answered with and saying whether it gave
/// an event; the events are those of the reports, in order.
pub fn check_peers_disconnected<P: ServerPortTrait<I>, I>(
    network_connection: &mut NetworkConnection<ServerConnection<P, I>>,
) -> (r: (Vec<PeersDroppedServer<P::Error>>, Vec<SessionsReport>))
    ensures
        same_server_shape(final(network_connection).0@, old(network_connection).0@),
        follows_dropped(r.0@, r.1@),
        forall|k: int|
            0 <= k < r.1@.len() ==> old(network_connection).0@.contains_key((#[trigger] r.1@[k]).connection_id) && visited(
                old(network_connection).0@[r.1@[k].connection_id].ports().dom(),
                old(network_connection).0@[r.1@[k].connection_id].secondary().dom().len(),
                r.1@[k].port_id,
            ),
        forall|a: int, b: int|
            0 <= a < b < r.1@.len() ==> (#[trigger] r.1@[a]).connection_id != (#[trigger] r.1@[b]).connection_id
                || r.1@[a].port_id != r.1@[b].port_id,
        forall|c: u32, p: u32|
            old(network_connection).0@.contains_key(c) && #[trigger] visited(
                old(network_connection).0@[c].ports().dom(),
                old(network_connection).0@[c].secondary().dom().len(),
                p,
            ) ==> exists|k: int| 0 <= k < r.1@.len() && (#[trigger] r.1@[k]).connection_id == c && r.1@[k].port_id == p,
{
    let ids = keys_of(&network_connection.0);
    let mut events: Vec<PeersDroppedServer<P::Error>> = Vec::new();
    let mut log: Vec<SessionsReport> = Vec::new();
    let mut i: usize = 0;
    while i < ids.len()
        invariant
            i <= ids@.len(),
            ids@.no_duplicates(),
            ids@.to_set() == old(network_connection).0@.dom(),
            same_server_shape(network_connection.0@, old(network_connection).0@),
            follows_dropped(events@, log@),
            forall|k: int|
                0 <= k < log@.len() ==> exists|j: int| 0 <= j < i && ids@[j] == (#[trigger] log@[k]).connection_id,
            forall|k: int|
                0 <= k < log@.len() ==> old(network_connection).0@.contains_key((#[trigger] log@[k]).connection_id) && visited(
                    old(network_connection).0@[log@[k].connection_id].ports().dom(),
                    old(network_connection).0@[log@[k].connection_id].secondary().dom().len(),
                    log@[k].port_id,
                ),
            forall|a: int, b: int|
                0 <= a < b < log@.len() ==> (#[trigger] log@[a]).connection_id != (#[trigger] log@[b]).connection_id
                    || log@[a].port_id != log@[b].port_id,
            forall|j: int, p: u32|
                0 <= j < i && #[trigger] visited(
                    old(network_connection).0@[ids@[j]].ports().dom(),
                    old(network_connection).0@[ids@[j]].secondary().dom().len(),
                    p,
                ) ==> exists|k: int| 0 <= k < log@.len() && (#[trigger] log@[k]).connection_id == ids@[j] && log@[k].port_id == p,
        decreases ids@.len() - i,
    {
        let c = ids[i];
        let ghost lb = log@;
        let ghost eb = events@;
        assert(ids@.to_set().contains(ids@[i as int]));
        if let Some(connection) = get_mut_u32(&mut network_connection.0, c) {
            dropped_connection_peers(c, connection, &mut events, &mut log);
        }
        proof {
            let nl = lb.len() as int;
            let ne = eb.len() as int;
            let o = old(network_connection).0@;
            assert(log@ =~= lb + log@.subrange(nl, log@.len() as int));
            assert(events@ =~= eb + events@.subrange(ne, events@.len() as int));
            lemma_events_follow_concat_dropped(eb, lb, events@.subrange(ne, events@.len() as int), log@.subrange(nl, log@.len() as int));
            assert forall|k: int| 0 <= k < log@.len() implies exists|j: int| 0 <= j < i + 1 && ids@[j] == (#[trigger] log@[k]).connection_id by {
                if k < nl {
                    let j = choose|j: int| 0 <= j < i && ids@[j] == lb[k].connection_id;
                    assert(ids@[j] == log@[k].connection_id);
                } else {
                    assert(ids@[i as int] == log@[k].connection_id);
                }
            }
            assert forall|a: int, b: int|
                0 <= a < b < log@.len() implies (#[trigger] log@[a]).connection_id != (#[trigger] log@[b]).connection_id
                    || log@[a].port_id != log@[b].port_id by {
                if b >= nl && a < nl {
                    let j = choose|j: int| 0 <= j < i && ids@[j] == lb[a].connection_id;
                    assert(ids@[j] != ids@[i as int]);
                }
            }
            assert forall|j: int, p: u32|
                0 <= j < i + 1 && #[trigger] visited(o[ids@[j]].ports().dom(), o[ids@[j]].secondary().dom().len(), p)
                    implies exists|k: int| 0 <= k < log@.len() && (#[trigger] log@[k]).connection_id == ids@[j] && log@[k].port_id == p by {
                if j < i {
                    let k = choose|k: int| 0 <= k < lb.len() && (#[trigger] lb[k]).connection_id == ids@[j] && lb[k].port_id == p;
                    assert(log@[k] == lb[k]);
                } else {
                    assert(visited(o[c].ports().dom(), o[c].secondary().dom().len(), p));
                    let k = choose|k: int| nl <= k < log@.len() && (#[trigger] log@[k]).port_id == p;
                    assert(log@[k].connection_id == c);
                }
            }
        }
        i = i + 1;
    }
    proof {
        assert forall|cc: u32, p: u32|
            old(network_connection).0@.contains_key(cc) && #[trigger] visited(
                old(network_connection).0@[cc].ports().dom(),
                old(network_connection).0@[cc].secondary().dom().len(),
                p,
            ) implies exists|k: int| 0 <= k < log@.len() && (#[trigger] log@[k]).connection_id == cc && log@[k].port_id == p by {
            assert(ids@.to_set().contains(cc));
            let j = choose|j: int| 0 <= j < ids@.len() && ids@[j] == cc;
            assert(visited(
                old(network_connection).0@[ids@[j]].ports().dom(),
                old(network_connection).0@[ids@[j]].secondary().dom().len(),
                p,
            ));
        }
    }
    (events, log)
}

/// What a port polled for going down reports (`answer` is whether it went
/// down, why, and whether it had been up): an event only when it went down.
pub fn port_disconnected_event<E>(connection_id: u32, port_id: u32, answer: (bool, Option<E>, bool)) -> (r: Option<
    ServerPortDisconnected<E>,
>)
    ensures
        r == (if answer.0 {
            Some(ServerPortDisconnected { port_id, connection_id, error: answer.1, was_connected: answer.2 })
        } else {
            None
        }),
{
    let (disconnected, error, was_connected) = answer;
    if disconnected {
        Some(ServerPortDisconnected { port_id, connection_id, error, was_connected })
    } else {
        None
    }
}

/// The events `events` are those of the reports `log` that gave one, in
/// order, each naming the report's connection and port.
pub open spec fn follows_server_down<E>(events: Seq<ServerPortDisconnected<E>>, log: Seq<PortReport>) -> bool
    decreases log.len(),
{
    if log.len() == 0 {
        events.len() == 0
    } else if log.last().reported {
        &&& events.len() > 0
        &&& events.last().connection_id == log.last().connection_id
        &&& events.last().port_id == log.last().port_id
        &&& follows_server_down(events.drop_last(), log.drop_last())
    } else {
        follows_server_down(events, log.drop_last())
    }
}

proof fn lemma_events_follow_push_server_down<E>(events: Seq<ServerPortDisconnected<E>>, log: Seq<PortReport>, event: Option<ServerPortDisconnected<E>>, q: PortReport)
    requires
        follows_server_down(events, log),
        (event is Some) == q.reported,
        event is Some ==> event->0.connection_id == q.connection_id && event->0.port_id == q.port_id,
    ensures
        follows_server_down(
            match event {
                Some(e) => events.push(e),
                None => events,
            },
            log.push(q),
        ),
{
    assert(log.push(q).drop_last() =~= log);
    if let Some(e) = event {
        assert(events.push(e).drop_last() =~= events);
    }
}

proof fn lemma_events_follow_concat_server_down<E>(e1: Seq<ServerPortDisconnected<E>>, l1: Seq<PortReport>, e2: Seq<ServerPortDisconnected<E>>, l2: Seq<PortReport>)
    requires
        follows_server_down(e1, l1),
        follows_server_down(e2, l2),
    ensures
        follows_server_down(e1 + e2, l1 + l2),
    decreases l2.len(),
{
    if l2.len() == 0 {
        assert(e1 + e2 =~= e1);
        assert(l1 + l2 =~= l1);
    } else {
        assert((l1 + l2).drop_last() =~= l1 + l2.drop_last());
        assert((l1 + l2).last() == l2.last());
        if l2.last().reported {
            lemma_events_follow_concat_server_down(e1, l1, e2.drop_last(), l2.drop_last());
            assert((e1 + e2).drop_last() =~= e1 + e2.drop_last());
            assert((e1 + e2).last() == e2.last());
        } else {
            lemma_events_follow_concat_server_down(e1, l1, e2, l2.drop_last());
        }
    }
}

/// The events that the ports of the reports `log` give when polled for
/// going down, in order: one for each port whose answer (in `conns`, before
/// the poll) is that it went down, carrying the answer's error and whether
/// the port had been up.
pub open spec fn server_down_events<P: ServerPortTrait<I>, I>(
    log: Seq<PortReport>,
    conns: Map<u32, ServerConnection<P, I>>,
) -> Seq<ServerPortDisconnected<P::Error>>
    decreases log.len(),
{
    if log.len() == 0 {
        Seq::empty()
    } else {
        let q = log.last();
        let a = conns[q.connection_id].ports()[q.port_id].down_answer();
        server_down_events(log.drop_last(), conns) + if a.0 {
            seq![ServerPortDisconnected { port_id: q.port_id, connection_id: q.connection_id, error: a.1, was_connected: a.2 }]
        } else {
            Seq::empty()
        }
    }
}

/// Every report says whether the port's answer (in `conns`, before the poll)
/// is that it went down.
pub open spec fn server_down_reported<P: ServerPortTrait<I>, I>(
    log: Seq<PortReport>,
    conns: Map<u32, ServerConnection<P, I>>,
) -> bool {
    forall|k: int|
        0 <= k < log.len() ==> (#[trigger] log[k]).reported == conns[log[k].connection_id].ports()[log[k].port_id].down_answer().0
}

proof fn lemma_server_down_events_concat<P: ServerPortTrait<I>, I>(
    a: Seq<PortReport>,
    b: Seq<PortReport>,
    conns: Map<u32, ServerConnection<P, I>>,
)
    ensures
        server_down_events(a + b, conns) == server_down_events(a, conns) + server_down_events(b, conns),
    decreases b.len(),
{
    if b.len() == 0 {
        assert(a + b =~= a);
        assert(server_down_events(a, conns) + server_down_events(b, conns) =~= server_down_events(a, conns));
    } else {
        lemma_server_down_events_concat(a, b.drop_last(), conns);
        assert((a + b).drop_last() =~= a + b.drop_last());
        assert((a + b).last() == b.last());
        let q = b.last();
        let a0 = conns[q.connection_id].ports()[q.port_id].down_answer();
        let tail = if a0.0 {
            seq![ServerPortDisconnected { port_id: q.port_id, connection_id: q.connection_id, error: a0.1, was_connected: a0.2 }]
        } else {
            Seq::empty()
        };
        assert(server_down_events(a, conns) + server_down_events(b, conns) =~= server_down_events(a, conns)
            + server_down_events(b.drop_last(), conns) + tail);
    }
}

/// Only the connections the reports name matter.
proof fn lemma_server_down_events_agree<P: ServerPortTrait<I>, I>(
    log: Seq<PortReport>,
    m1: Map<u32, ServerConnection<P, I>>,
    m2: Map<u32, ServerConnection<P, I>>,
)
    requires
        forall|k: int| 0 <= k < log.len() ==> m1[(#[trigger] log[k]).connection_id] == m2[log[k].connection_id],
    ensures
        server_down_events(log, m1) == server_down_events(log, m2),
        server_down_reported(log, m1) == server_down_reported(log, m2),
    decreases log.len(),
{
    if log.len() > 0 {
        assert(m1[log[log.len() - 1].connection_id] == m2[log[log.len() - 1].connection_id]);
        lemma_server_down_events_agree(log.drop_last(), m1, m2);
    }
}

/// Collects the ports of one connection that went down.
fn disconnected_connection_ports<P: ServerPortTrait<I>, I>(
    connection_id: u32,
    connection: &mut ServerConnection<P, I>,
    events: &mut Vec<ServerPortDisconnected<P::Error>>,
    log: &mut Vec<PortReport>,
)
    ensures
        final(connection).ports().dom() == old(connection).ports().dom(),
        final(connection).secondary().dom() == old(connection).secondary().dom(),
        final(connection).same_settings(old(connection)),
        final(log)@.len() >= old(log)@.len(),
        final(log)@.subrange(0, old(log)@.len() as int) == old(log)@,
        final(events)@.len() >= old(events)@.len(),
        final(events)@.subrange(0, old(events)@.len() as int) == old(events)@,
        forall|k: int|
            old(log)@.len() <= k < final(log)@.len() ==> (#[trigger] final(log)@[k]).connection_id == connection_id
                && visited(old(connection).ports().dom(), old(connection).secondary().dom().len(), final(log)@[k].port_id),
        forall|a: int, b: int|
            old(log)@.len() <= a < b < final(log)@.len() ==> (#[trigger] final(log)@[a]).port_id
                < (#[trigger] final(log)@[b]).port_id,
        forall|p: u32|
            #[trigger] visited(old(connection).ports().dom(), old(connection).secondary().dom().len(), p) ==> exists|k: int|
                old(log)@.len() <= k < final(log)@.len() && (#[trigger] final(log)@[k]).port_id == p,
        follows_server_down(
            final(events)@.subrange(old(events)@.len() as int, final(events)@.len() as int),
            final(log)@.subrange(old(log)@.len() as int, final(log)@.len() as int),
        ),
        P::answers_described() ==> ({
            let m = Map::<u32, ServerConnection<P, I>>::empty().insert(connection_id, *old(connection));
            let nl = final(log)@.subrange(old(log)@.len() as int, final(log)@.len() as int);
            &&& final(events)@.subrange(old(events)@.len() as int, final(events)@.len() as int) == server_down_events(nl, m)
            &&& server_down_reported(nl, m)
        }),
{
    let ghost m = Map::<u32, ServerConnection<P, I>>::empty().insert(connection_id, *old(connection));
    let ports_amount = connection.get_ports_amount();
    let ghost ports = old(connection).ports().dom();
    let ghost len = old(connection).secondary().dom().len();
    let ghost l0 = old(log)@.len() as int;
    let ghost e0 = old(events)@.len() as int;
    let mut port_id: u64 = 0;
    while port_id <= ports_amount as u64
        invariant
            connection.ports().dom() == ports,
            connection.secondary().dom() == old(connection).secondary().dom(),
            connection.same_settings(old(connection)),
            len == old(connection).secondary().dom().len(),
            ports_amount == len as u32,
            port_id <= ports_amount as u64 + 1,
            l0 == old(log)@.len(),
            e0 == old(events)@.len(),
            log@.len() >= l0,
            log@.subrange(0, l0) == old(log)@,
            events@.len() >= e0,
            events@.subrange(0, e0) == old(events)@,
            forall|k: int|
                l0 <= k < log@.len() ==> (#[trigger] log@[k]).connection_id == connection_id && visited(ports, len, log@[k].port_id)
                    && log@[k].port_id < port_id,
            forall|a: int, b: int| l0 <= a < b < log@.len() ==> (#[trigger] log@[a]).port_id < (#[trigger] log@[b]).port_id,
            forall|p: u32|
                #[trigger] visited(ports, len, p) && p < port_id ==> exists|k: int|
                    l0 <= k < log@.len() && (#[trigger] log@[k]).port_id == p,
            follows_server_down(events@.subrange(e0, events@.len() as int), log@.subrange(l0, log@.len() as int)),
            m == Map::<u32, ServerConnection<P, I>>::empty().insert(connection_id, *old(connection)),
            forall|q: u32| port_id <= q ==> #[trigger] connection.ports()[q] == old(connection).ports()[q],
            P::answers_described() ==> events@.subrange(e0, events@.len() as int) == server_down_events(
                log@.subrange(l0, log@.len() as int),
                m,
            ),
            P::answers_described() ==> server_down_reported(log@.subrange(l0, log@.len() as int), m),
        decreases ports_amount as u64 + 1 - port_id,
    {
        let id = port_id as u32;
        let ghost lb = log@;
        let ghost eb = events@;
        let ghost pb = connection.ports();
        assert(connection.ports()[id] == old(connection).ports()[id]);
        if let Some(port) = connection.get_port(id) {
            let ghost before = *port;
            let answer = port.disconnected();
            let ghost a = answer;
            let event = port_disconnected_event(connection_id, id, answer);
            let reported = event.is_some();
            if let Some(e) = event {
                events.push(e);
                proof {
                    assert(events@.subrange(e0, events@.len() as int) =~= eb.subrange(e0, eb.len() as int).push(e));
                }
            }
            log.push(PortReport { connection_id, port_id: id, reported });
            proof {
                assert(log@.subrange(0, l0) =~= lb.subrange(0, l0));
                assert(events@.subrange(0, e0) =~= eb.subrange(0, e0));
                lemma_events_follow_push_server_down(
                    eb.subrange(e0, eb.len() as int),
                    lb.subrange(l0, lb.len() as int),
                    event,
                    PortReport { connection_id, port_id: id, reported },
                );
                assert(log@.subrange(l0, log@.len() as int) =~= lb.subrange(l0, lb.len() as int).push(
                    PortReport { connection_id, port_id: id, reported },
                ));
                if !reported {
                    assert(events@ == eb);
                }
                assert forall|p: u32| #[trigger] visited(ports, len, p) && p < port_id + 1 implies exists|k: int|
                    l0 <= k < log@.len() && (#[trigger] log@[k]).port_id == p by {
                    if p < port_id {
                        let k = choose|k: int| l0 <= k < lb.len() && (#[trigger] lb[k]).port_id == p;
                        assert(log@[k] == lb[k]);
                    } else {
                        assert(log@[lb.len() as int].port_id == p);
                    }
                }
                if P::answers_described() {
                    let nl = log@.subrange(l0, log@.len() as int);
                    assert(m[connection_id] == *old(connection));
                    assert(a == before.down_answer());
                    assert(nl.drop_last() =~= lb.subrange(l0, lb.len() as int));
                    assert(nl.last() == PortReport { connection_id, port_id: id, reported });
                    assert(m[nl.last().connection_id].ports()[nl.last().port_id] == before);
                    if reported {
                        assert(events@.subrange(e0, events@.len() as int) =~= eb.subrange(e0, eb.len() as int) + seq![
                            event->0,
                        ]);
                    } else {
                        assert(events@.subrange(e0, events@.len() as int) =~= eb.subrange(e0, eb.len() as int) + Seq::<
                            ServerPortDisconnected<P::Error>,
                        >::empty());
                    }
                    assert forall|k: int| 0 <= k < nl.len() implies (#[trigger] nl[k]).reported == m[nl[k].connection_id].ports()[nl[k].port_id].down_answer().0 by {
                        if k < nl.len() - 1 {
                            assert(nl[k] == lb.subrange(l0, lb.len() as int)[k]);
                        }
                    }
                }
            }
        }
        assert(connection.ports().dom() =~= ports);
        proof {
            assert forall|q: u32| port_id + 1 <= q implies #[trigger] connection.ports()[q] == old(connection).ports()[q] by {
                assert(pb[q] == old(connection).ports()[q]);
            }
        }
        port_id = port_id + 1;
    }
}

/// Reports every port that went down, why, and whether it had been up (the
/// event `port_disconnected_event` builds from its answer). Also returns one report for every port visited (present, id at
/// most the number of secondary ports) of every connection, each once,
/// saying whether it gave an event; the events are those of the reports,
/// in order.
pub fn check_port_disconnected<P: ServerPortTrait<I>, I>(
    network_connection: &mut NetworkConnection<ServerConnection<P, I>>,
) -> (r: (Vec<ServerPortDisconnected<P::Error>>, Vec<PortReport>))
    ensures
        same_server_shape(final(network_connection).0@, old(network_connection).0@),
        follows_server_down(r.0@, r.1@),
        P::answers_described() ==> r.0@ == server_down_events(r.1@, old(network_connection).0@),
        P::answers_described() ==> server_down_reported(r.1@, old(network_connection).0@),
        forall|k: int|
            0 <= k < r.1@.len() ==> old(network_connection).0@.contains_key((#[trigger] r.1@[k]).connection_id) && visited(
                old(network_connection).0@[r.1@[k].connection_id].ports().dom(),
                old(network_connection).0@[r.1@[k].connection_id].secondary().dom().len(),
                r.1@[k].port_id,
            ),
        forall|a: int, b: int|
            0 <= a < b < r.1@.len() ==> (#[trigger] r.1@[a]).connection_id != (#[trigger] r.1@[b]).connection_id
                || r.1@[a].port_id != r.1@[b].port_id,
        forall|c: u32, p: u32|
            old(network_connection).0@.contains_key(c) && #[trigger] visited(
                old(network_connection).0@[c].ports().dom(),
                old(network_connection).0@[c].secondary().dom().len(),
                p,
            ) ==> exists|k: int| 0 <= k < r.1@.len() && (#[trigger] r.1@[k]).connection_id == c && r.1@[k].port_id == p,
{
    let ids = keys_of(&network_connection.0);
    let mut events: Vec<ServerPortDisconnected<P::Error>> = Vec::new();
    let mut log: Vec<PortReport> = Vec::new();
    let mut i: usize = 0;
    while i < ids.len()
        invariant
            i <= ids@.len(),
            ids@.no_duplicates(),
            ids@.to_set() == old(network_connection).0@.dom(),
            same_server_shape(network_connection.0@, old(network_connection).0@),
            follows_server_down(events@, log@),
            forall|j: int| i <= j < ids@.len() ==> #[trigger] network_connection.0@[ids@[j]] == old(network_connection).0@[ids@[j]],
            P::answers_described() ==> events@ == server_down_events(log@, old(network_connection).0@),
            P::answers_described() ==> server_down_reported(log@, old(network_connection).0@),
            forall|k: int|
                0 <= k < log@.len() ==> exists|j: int| 0 <= j < i && ids@[j] == (#[trigger] log@[k]).connection_id,
            forall|k: int|
                0 <= k < log@.len() ==> old(network_connection).0@.contains_key((#[trigger] log@[k]).connection_id) && visited(
                    old(network_connection).0@[log@[k].connection_id].ports().dom(),
                    old(network_connection).0@[log@[k].connection_id].secondary().dom().len(),
                    log@[k].port_id,
                ),
            forall|a: int, b: int|
                0 <= a < b < log@.len() ==> (#[trigger] log@[a]).connection_id != (#[trigger] log@[b]).connection_id
                    || log@[a].port_id != log@[b].port_id,
            forall|j: int, p: u32|
                0 <= j < i && #[trigger] visited(
                    old(network_connection).0@[ids@[j]].ports().dom(),
                    old(network_connection).0@[ids@[j]].secondary().dom().len(),
                    p,
                ) ==> exists|k: int| 0 <= k < log@.len() && (#[trigger] log@[k]).connection_id == ids@[j] && log@[k].port_id == p,
        decreases ids@.len() - i,
    {
        let c = ids[i];
        let ghost lb = log@;
        let ghost eb = events@;
        assert(ids@.to_set().contains(ids@[i as int]));
        proof {
            assert forall|j: int| i + 1 <= j < ids@.len() implies ids@[j] != c by {
                assert(ids@[j] != ids@[i as int]);
            }
        }
        if let Some(connection) = get_mut_u32(&mut network_connection.0, c) {
            disconnected_connection_ports(c, connection, &mut events, &mut log);
        }
        proof {
            let nl = lb.len() as int;
            let ne = eb.len() as int;
            let o = old(network_connection).0@;
            assert(log@ =~= lb + log@.subrange(nl, log@.len() as int));
            assert(events@ =~= eb + events@.subrange(ne, events@.len() as int));
            lemma_events_follow_concat_server_down(eb, lb, events@.subrange(ne, events@.len() as int), log@.subrange(nl, log@.len() as int));
            if P::answers_described() {
                let newlog = log@.subrange(nl, log@.len() as int);
                let m = Map::<u32, ServerConnection<P, I>>::empty().insert(c, o[c]);
                assert forall|k: int| 0 <= k < newlog.len() implies m[(#[trigger] newlog[k]).connection_id] == o[newlog[k].connection_id] by {
                    assert(newlog[k] == log@[nl + k]);
                }
                lemma_server_down_events_agree(newlog, m, o);
                lemma_server_down_events_concat(lb, newlog, o);
                assert forall|k: int| 0 <= k < log@.len() implies (#[trigger] log@[k]).reported
                    == o[log@[k].connection_id].ports()[log@[k].port_id].down_answer().0 by {
                    if k < nl {
                        assert(log@[k] == lb[k]);
                    } else {
                        assert(log@[k] == newlog[k - nl]);
                    }
                }
            }
            assert forall|k: int| 0 <= k < log@.len() implies exists|j: int| 0 <= j < i + 1 && ids@[j] == (#[trigger] log@[k]).connection_id by {
                if k < nl {
                    let j = choose|j: int| 0 <= j < i && ids@[j] == lb[k].connection_id;
                    assert(ids@[j] == log@[k].connection_id);
                } else {
                    assert(ids@[i as int] == log@[k].connection_id);
                }
            }
            assert forall|a: int, b: int|
                0 <= a < b < log@.len() implies (#[trigger] log@[a]).connection_id != (#[trigger] log@[b]).connection_id
                    || log@[a].port_id != log@[b].port_id by {
                if b >= nl && a < nl {
                    let j = choose|j: int| 0 <= j < i && ids@[j] == lb[a].connection_id;
                    assert(ids@[j] != ids@[i as int]);
                }
            }
            assert forall|j: int, p: u32|
                0 <= j < i + 1 && #[trigger] visited(o[ids@[j]].ports().dom(), o[ids@[j]].secondary().dom().len(), p)
                    implies exists|k: int| 0 <= k < log@.len() && (#[trigger] log@[k]).connection_id == ids@[j] && log@[k].port_id == p by {
                if j < i {
                    let k = choose|k: int| 0 <= k < lb.len() && (#[trigger] lb[k]).connection_id == ids@[j] && lb[k].port_id == p;
                    assert(log@[k] == lb[k]);
                } else {
                    assert(visited(o[c].ports().dom(), o[c].secondary().dom().len(), p));
                    let k = choose|k: int| nl <= k < log@.len() && (#[trigger] log@[k]).port_id == p;
                    assert(log@[k].connection_id == c);
                }
            }
        }
        i = i + 1;
    }
    proof {
        assert forall|cc: u32, p: u32|
            old(network_connection).0@.contains_key(cc) && #[trigger] visited(
                old(network_connection).0@[cc].ports().dom(),
                old(network_connection).0@[cc].secondary().dom().len(),
                p,
            ) implies exists|k: int| 0 <= k < log@.len() && (#[trigger] log@[k]).connection_id == cc && log@[k].port_id == p by {
            assert(ids@.to_set().contains(cc));
            let j = choose|j: int| 0 <= j < ids@.len() && ids@[j] == cc;
            assert(visited(
                old(network_connection).0@[ids@[j]].ports().dom(),
                old(network_connection).0@[ids@[j]].secondary().dom().len(),
                p,
            ));
        }
    }
    (events, log)
}

/// How many entries of `s` are true.
pub open spec fn count_true(s: Seq<bool>) -> nat
    decreases s.len(),
{
    if s.len() == 0 {
        0
    } else {
        count_true(s.drop_last()) + if s.last() {
            1nat
        } else {
            0nat
        }
    }
}

/// A true entry has fewer true entries before it than there are in all.
pub proof fn lemma_count_true_prefix(s: Seq<bool>, k: int)
    requires
        0 <= k < s.len(),
    ensures
        count_true(s.take(k)) <= count_true(s),
        s[k] ==> count_true(s.take(k)) < count_true(s),
    decreases s.len(),
{
    if k == s.len() - 1 {
        assert(s.take(k) =~= s.drop_last());
    } else {
        lemma_count_true_prefix(s.drop_last(), k);
        assert(s.drop_last().take(k) =~= s.take(k));
    }
}

/// Whether each report gave an event.
pub open spec fn report_flags(log: Seq<PortReport>) -> Seq<bool> {
    log.map_values(|q: PortReport| q.reported)
}

/// Whether each report gave an event.
pub open spec fn sessions_flags(log: Seq<SessionsReport>) -> Seq<bool> {
    log.map_values(|q: SessionsReport| q.reported)
}

/// What checking for accepted sessions gives: a report names the sessions a
/// port answered with and gave an event exactly when there were any; the
/// events are one for each such report, in order, each carrying exactly the
/// sessions of its port's answer.
pub proof fn law_accepted_events_carry_the_answers(events: Seq<AnonymousPeersAcceptedOnPort>, log: Seq<SessionsReport>)
    requires
        follows_accepted(events, log),
    ensures
        forall|k: int| 0 <= k < log.len() ==> (#[trigger] log[k]).reported == (log[k].sessions@.len() > 0),
        events.len() == count_true(sessions_flags(log)),
        forall|k: int|
            0 <= k < log.len() && (#[trigger] log[k]).reported ==> ({
                let e = events[count_true(sessions_flags(log.take(k))) as int];
                &&& e.connection_id == log[k].connection_id
                &&& e.port_id == log[k].port_id
                &&& e.seasons_uuids@ == log[k].sessions@
            }),
    decreases log.len(),
{
    if log.len() > 0 {
        let l2 = log.drop_last();
        let e2 = if log.last().reported { events.drop_last() } else { events };
        law_accepted_events_carry_the_answers(e2, l2);
        assert(sessions_flags(log).drop_last() =~= sessions_flags(l2));
        assert forall|k: int| 0 <= k < log.len() implies (#[trigger] log[k]).reported == (log[k].sessions@.len() > 0) by {
            if k < log.len() - 1 {
                assert(log[k] == l2[k]);
            }
        }
        assert forall|k: int|
            0 <= k < log.len() && (#[trigger] log[k]).reported implies ({
                let e = events[count_true(sessions_flags(log.take(k))) as int];
                &&& e.connection_id == log[k].connection_id
                &&& e.port_id == log[k].port_id
                &&& e.seasons_uuids@ == log[k].sessions@
            }) by {
            if k < log.len() - 1 {
                assert(log[k] == l2[k]);
                assert(log.take(k) =~= l2.take(k));
                assert(sessions_flags(l2).take(k) =~= sessions_flags(l2.take(k)));
                lemma_count_true_prefix(sessions_flags(l2), k);
            } else {
                assert(log.take(k) =~= l2);
            }
        }
    }
}

/// What checking for dropped sessions gives: a report names the sessions a
/// port answered with and gave an event exactly when there were any; the
/// events are one for each such report, in order, each carrying exactly the
/// sessions of its port's answer.
pub proof fn law_dropped_events_carry_the_answers<E>(events: Seq<PeersDroppedServer<E>>, log: Seq<SessionsReport>)
    requires
        follows_dropped(events, log),
    ensures
        forall|k: int| 0 <= k < log.len() ==> (#[trigger] log[k]).reported == (log[k].sessions@.len() > 0),
        events.len() == count_true(sessions_flags(log)),
        forall|k: int|
            0 <= k < log.len() && (#[trigger] log[k]).reported ==> ({
                let e = events[count_true(sessions_flags(log.take(k))) as int];
                &&& e.connection_id == log[k].connection_id
                &&& e.port_id == log[k].port_id
                &&& e.peers@.dom() == log[k].sessions@.to_set()
            }),
    decreases log.len(),
{
    if log.len() > 0 {
        let l2 = log.drop_last();
        let e2 = if log.last().reported { events.drop_last() } else { events };
        law_dropped_events_carry_the_answers(e2, l2);
        assert(sessions_flags(log).drop_last() =~= sessions_flags(l2));
        assert forall|k: int| 0 <= k < log.len() implies (#[trigger] log[k]).reported == (log[k].sessions@.len() > 0) by {
            if k < log.len() - 1 {
                assert(log[k] == l2[k]);
            }
        }
        assert forall|k: int|
            0 <= k < log.len() && (#[trigger] log[k]).reported implies ({
                let e = events[count_true(sessions_flags(log.take(k))) as int];
                &&& e.connection_id == log[k].connection_id
                &&& e.port_id == log[k].port_id
                &&& e.peers@.dom() == log[k].sessions@.to_set()
            }) by {
            if k < log.len() - 1 {
                assert(log[k] == l2[k]);
                assert(log.take(k) =~= l2.take(k));
                assert(sessions_flags(l2).take(k) =~= sessions_flags(l2.take(k)));
                lemma_count_true_prefix(sessions_flags(l2), k);
            } else {
                assert(log.take(k) =~= l2);
            }
        }
    }
}

/// What checking for ports that went down gives, when the ports describe
/// their answers: a report gave an event exactly when its port's answer was
/// that it went down; the events are one for each such report, in order,
/// each carrying the answer's error and whether the port had been up.
pub proof fn law_server_down_events_carry_the_answers<P: ServerPortTrait<I>, I>(
    log: Seq<PortReport>,
    conns: Map<u32, ServerConnection<P, I>>,
)
    requires
        server_down_reported(log, conns),
    ensures
        forall|k: int|
            0 <= k < log.len() ==> (#[trigger] log[k]).reported == conns[log[k].connection_id].ports()[log[k].port_id].down_answer().0,
        server_down_events(log, conns).len() == count_true(report_flags(log)),
        forall|k: int|
            0 <= k < log.len() && (#[trigger] log[k]).reported ==> ({
                let a = conns[log[k].connection_id].ports()[log[k].port_id].down_answer();
                server_down_events(log, conns)[count_true(report_flags(log.take(k))) as int] == ServerPortDisconnected {
                    port_id: log[k].port_id,
                    connection_id: log[k].connection_id,
                    error: a.1,
                    was_connected: a.2,
                }
            }),
    decreases log.len(),
{
    if log.len() > 0 {
        let l2 = log.drop_last();
        assert forall|k: int| 0 <= k < l2.len() implies (#[trigger] l2[k]).reported
            == conns[l2[k].connection_id].ports()[l2[k].port_id].down_answer().0 by {
            assert(l2[k] == log[k]);
        }
        law_server_down_events_carry_the_answers(l2, conns);
        assert(report_flags(log).drop_last() =~= report_flags(l2));
        let ev = server_down_events(log, conns);
        let ev2 = server_down_events(l2, conns);
        assert forall|k: int|
            0 <= k < log.len() && (#[trigger] log[k]).reported implies ({
                let a = conns[log[k].connection_id].ports()[log[k].port_id].down_answer();
                ev[count_true(report_flags(log.take(k))) as int] == ServerPortDisconnected {
                    port_id: log[k].port_id,
                    connection_id: log[k].connection_id,
                    error: a.1,
                    was_connected: a.2,
                }
            }) by {
            if k < log.len() - 1 {
                assert(log[k] == l2[k]);
                assert(log.take(k) =~= l2.take(k));
                assert(report_flags(l2).take(k) =~= report_flags(l2.take(k)));
                lemma_count_true_prefix(report_flags(l2), k);
                assert(ev[count_true(report_flags(log.take(k))) as int] == ev2[count_true(report_flags(l2.take(k))) as int]);
            } else {
                assert(log.take(k) =~= l2);
            }
        }
    }
}

} // verus!
