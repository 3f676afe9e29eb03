//! Picking up received messages: every envelope a port received is matched
//! against the registry by its type id, and those of a registered type are
//! handed on with the functions registered for it.

use std::any::TypeId;
use vstd::prelude::*;
use crate::auth::{same_client_shape, same_server_shape};
use crate::connection::{
    get_mut_u32,
    others_unchanged,
    ClientConnection,
    ClientPortTrait,
    NetworkConnection,
    ServerConnection,
    ServerPortTrait,
};
use crate::maps::{keys_of, keys_of_u128};
use crate::messages::{postcard_decode_message_infos, MessageInfos};
use crate::registry::MessagesRegistry;
use crate::server_network::{count_true, lemma_count_true_prefix};

verus! {

broadcast use vstd::std_specs::hash::group_hash_axioms;

/// A message from a peer to deliver, with the functions registered for its
/// type.
pub struct ServerDelivery<F> {
    pub functions: F,
    pub message: Vec<u8>,
    pub connection_id: u32,
    pub port_id: u32,
    pub peer_uuid: Option<u128>,
    pub session_uuid: u128,
}

/// A message from the server to deliver, with the functions registered for
/// its type.
pub struct ClientDelivery<F> {
    pub functions: F,
    pub message: Vec<u8>,
    pub connection_id: u32,
    pub port_id: u32,
}

/// A port received bytes that are not an envelope.
pub struct UndecodableEnvelope {
    pub connection_id: u32,
    pub port_id: u32,
}

/// Where the envelope `infos` from a peer goes: to the functions registered
/// for its type id, or nowhere when the type is not registered.
pub fn route_from_peer<F: Copy>(
    registry: &MessagesRegistry<F>,
    infos: MessageInfos,
    connection_id: u32,
    port_id: u32,
    peer_uuid: Option<u128>,
    session_uuid: u128,
) -> (r: Option<ServerDelivery<F>>)
    ensures
        match r {
            Some(d) => {
                &&& registry.functions().contains_key(infos.message_id)
                &&& d.functions == registry.functions()[infos.message_id]
                &&& d.message@ == infos.message@
                &&& d.connection_id == connection_id
                &&& d.port_id == port_id
                &&& d.peer_uuid == peer_uuid
                &&& d.session_uuid == session_uuid
            },
            None => !registry.functions().contains_key(infos.message_id),
        },
{
    match registry.functions_of(infos.message_id) {
        None => None,
        Some(f) => Some(
            ServerDelivery {
                functions: *f,
                message: infos.message,
                connection_id,
                port_id,
                peer_uuid,
                session_uuid,
            },
        ),
    }
}

/// Where the envelope `infos` from the server goes.
pub fn route_from_server<F: Copy>(
    registry: &MessagesRegistry<F>,
    infos: MessageInfos,
    connection_id: u32,
    port_id: u32,
) -> (r: Option<ClientDelivery<F>>)
    ensures
        match r {
            Some(d) => {
                &&& registry.functions().contains_key(infos.message_id)
                &&& d.functions == registry.functions()[infos.message_id]
                &&& d.message@ == infos.message@
                &&& d.connection_id == connection_id
                &&& d.port_id == port_id
            },
            None => !registry.functions().contains_key(infos.message_id),
        },
{
    match registry.functions_of(infos.message_id) {
        None => None,
        Some(f) => Some(ClientDelivery { functions: *f, message: infos.message, connection_id, port_id }),
    }
}

/// A delivery from a peer as plain values: the functions, the message, the
/// connection, the port, the peer and the session.
pub type ServerRoute<F> = (F, Seq<u8>, u32, u32, Option<u128>, u128);

/// A delivery from the server as plain values: the functions, the message,
/// the connection and the port.
pub type ClientRoute<F> = (F, Seq<u8>, u32, u32);

pub open spec fn server_delivery_view<F>(d: ServerDelivery<F>) -> ServerRoute<F> {
    (d.functions, d.message@, d.connection_id, d.port_id, d.peer_uuid, d.session_uuid)
}

pub open spec fn client_delivery_view<F>(d: ClientDelivery<F>) -> ClientRoute<F> {
    (d.functions, d.message@, d.connection_id, d.port_id)
}

pub open spec fn server_deliveries_view<F>(d: Seq<ServerDelivery<F>>) -> Seq<ServerRoute<F>> {
    d.map_values(|x: ServerDelivery<F>| server_delivery_view(x))
}

pub open spec fn client_deliveries_view<F>(d: Seq<ClientDelivery<F>>) -> Seq<ClientRoute<F>> {
    d.map_values(|x: ClientDelivery<F>| client_delivery_view(x))
}

/// Whether every bytes of `batch` are an envelope.
pub open spec fn batch_decodes(batch: Seq<Vec<u8>>) -> bool {
    forall|k: int| 0 <= k < batch.len() ==> (#[trigger] postcard_decode_message_infos(batch[k]@)) is Some
}

/// What a batch of bytes received from a peer gives, in order: one delivery
/// for each envelope of a registered type, none for the others.
pub open spec fn routes_from_peer<F>(
    registry: &MessagesRegistry<F>,
    batch: Seq<Vec<u8>>,
    connection_id: u32,
    port_id: u32,
    peer_uuid: Option<u128>,
    session_uuid: u128,
) -> Seq<ServerRoute<F>>
    decreases batch.len(),
{
    if batch.len() == 0 {
        Seq::empty()
    } else {
        let before = routes_from_peer(registry, batch.drop_last(), connection_id, port_id, peer_uuid, session_uuid);
        match postcard_decode_message_infos(batch.last()@) {
            Some((id, m)) => if registry.functions().contains_key(id) {
                before.push((registry.functions()[id], m, connection_id, port_id, peer_uuid, session_uuid))
            } else {
                before
            },
            None => before,
        }
    }
}

/// What a batch of bytes received from the server gives, in order.
pub open spec fn routes_from_server<F>(
    registry: &MessagesRegistry<F>,
    batch: Seq<Vec<u8>>,
    connection_id: u32,
    port_id: u32,
) -> Seq<ClientRoute<F>>
    decreases batch.len(),
{
    if batch.len() == 0 {
        Seq::empty()
    } else {
        let before = routes_from_server(registry, batch.drop_last(), connection_id, port_id);
        match postcard_decode_message_infos(batch.last()@) {
            Some((id, m)) => if registry.functions().contains_key(id) {
                before.push((registry.functions()[id], m, connection_id, port_id))
            } else {
                before
            },
            None => before,
        }
    }
}

/// The messages one session of a port received, and the peer the session
/// was authenticated as.
pub struct SessionBatch {
    pub session_uuid: u128,
    pub peer_uuid: Option<u128>,
    pub messages: Vec<Vec<u8>>,
}

/// What one port of a server connection received, session by session.
pub struct ServerPortBatches {
    pub connection_id: u32,
    pub port_id: u32,
    pub sessions: Vec<SessionBatch>,
}

/// What one port of a client connection received from the server.
pub struct ClientPortBatch {
    pub connection_id: u32,
    pub port_id: u32,
    pub messages: Vec<Vec<u8>>,
}

/// The deliveries the session batches of one port give, in order.
pub open spec fn routes_of_sessions<F>(
    registry: &MessagesRegistry<F>,
    connection_id: u32,
    port_id: u32,
    sessions: Seq<SessionBatch>,
) -> Seq<ServerRoute<F>>
    decreases sessions.len(),
{
    if sessions.len() == 0 {
        Seq::empty()
    } else {
        let b = sessions.last();
        routes_of_sessions(registry, connection_id, port_id, sessions.drop_last()) + routes_from_peer(
            registry,
            b.messages@,
            connection_id,
            port_id,
            b.peer_uuid,
            b.session_uuid,
        )
    }
}

/// The deliveries the batches of the ports in `log` give, in order.
pub open spec fn routes_of_server_ports<F>(registry: &MessagesRegistry<F>, log: Seq<ServerPortBatches>) -> Seq<
    ServerRoute<F>,
>
    decreases log.len(),
{
    if log.len() == 0 {
        Seq::empty()
    } else {
        let q = log.last();
        routes_of_server_ports(registry, log.drop_last()) + routes_of_sessions(
            registry,
            q.connection_id,
            q.port_id,
            q.sessions@,
        )
    }
}

/// The deliveries the batches of the ports in `log` give, in order.
pub open spec fn routes_of_client_ports<F>(registry: &MessagesRegistry<F>, log: Seq<ClientPortBatch>) -> Seq<
    ClientRoute<F>,
>
    decreases log.len(),
{
    if log.len() == 0 {
        Seq::empty()
    } else {
        let q = log.last();
        routes_of_client_ports(registry, log.drop_last()) + routes_from_server(
            registry,
            q.messages@,
            q.connection_id,
            q.port_id,
        )
    }
}

fn copy_bytes(bytes: &Vec<u8>) -> (r: Vec<u8>)
    ensures
        r@ == bytes@,
{
    let r = bytes.clone();
    assert(r@ =~= bytes@);
    r
}

/// Routes one session's batch of received bytes, in order: each envelope of
/// a registered type gives a delivery (`route_from_peer`), the others are
/// dropped. `None` when some bytes of the batch are not an envelope.
pub fn route_peer_batch<P: ServerPortTrait<I>, I, F: Copy>(
    port: &P,
    registry: &MessagesRegistry<F>,
    messages: &Vec<Vec<u8>>,
    connection_id: u32,
    port_id: u32,
    peer_uuid: Option<u128>,
    session_uuid: u128,
) -> (r: Option<Vec<ServerDelivery<F>>>)
    ensures
        r is Some == batch_decodes(messages@),
        r matches Some(d) ==> server_deliveries_view(d@) == routes_from_peer(
            registry,
            messages@,
            connection_id,
            port_id,
            peer_uuid,
            session_uuid,
        ),
{
    let mut out: Vec<ServerDelivery<F>> = Vec::new();
    let mut j: usize = 0;
    while j < messages.len()
        invariant
            j <= messages@.len(),
            batch_decodes(messages@.take(j as int)),
            server_deliveries_view(out@) == routes_from_peer(
                registry,
                messages@.take(j as int),
                connection_id,
                port_id,
                peer_uuid,
                session_uuid,
            ),
        decreases messages@.len() - j,
    {
        let ghost before = out@;
        proof {
            assert(messages@.take(j + 1).drop_last() =~= messages@.take(j as int));
            assert(messages@.take(j + 1).last() == messages@[j as int]);
        }
        let bytes = copy_bytes(&messages[j]);
        match port.deserialize_message_infos(bytes) {
            None => {
                assert(postcard_decode_message_infos(messages@[j as int]@) is None);
                return None;
            },
            Some(infos) => {
                let ghost id = infos.message_id;
                if let Some(d) = route_from_peer(registry, infos, connection_id, port_id, peer_uuid, session_uuid) {
                    let ghost dv = server_delivery_view(d);
                    out.push(d);
                    assert(server_deliveries_view(out@) =~= server_deliveries_view(before).push(dv));
                }
            },
        }
        assert forall|k: int| 0 <= k < j + 1 implies (#[trigger] postcard_decode_message_infos(
            messages@.take(j + 1)[k]@,
        )) is Some by {
            if k < j {
                assert(messages@.take(j + 1)[k] == messages@.take(j as int)[k]);
            }
        }
        j = j + 1;
    }
    assert(messages@.take(messages@.len() as int) =~= messages@);
    Some(out)
}

/// Routes one port's batch of bytes received from the server, in order:
/// each envelope of a registered type gives a delivery
/// (`route_from_server`), the others are dropped. `None` when some bytes of
/// the batch are not an envelope.
pub fn route_server_batch<P: ClientPortTrait<I>, I, F: Copy>(
    port: &P,
    registry: &MessagesRegistry<F>,
    messages: &Vec<Vec<u8>>,
    connection_id: u32,
    port_id: u32,
) -> (r: Option<Vec<ClientDelivery<F>>>)
    ensures
        r is Some == batch_decodes(messages@),
        r matches Some(d) ==> client_deliveries_view(d@) == routes_from_server(
            registry,
            messages@,
            connection_id,
            port_id,
        ),
{
    let mut out: Vec<ClientDelivery<F>> = Vec::new();
    let mut j: usize = 0;
    while j < messages.len()
        invariant
            j <= messages@.len(),
            batch_decodes(messages@.take(j as int)),
            client_deliveries_view(out@) == routes_from_server(registry, messages@.take(j as int), connection_id, port_id),
        decreases messages@.len() - j,
    {
        let ghost before = out@;
        proof {
            assert(messages@.take(j + 1).drop_last() =~= messages@.take(j as int));
            assert(messages@.take(j + 1).last() == messages@[j as int]);
        }
        let bytes = copy_bytes(&messages[j]);
        match port.deserialize_message_infos(bytes) {
            None => {
                assert(postcard_decode_message_infos(messages@[j as int]@) is None);
                return None;
            },
            Some(infos) => {
                let ghost id = infos.message_id;
                if let Some(d) = route_from_server(registry, infos, connection_id, port_id) {
                    let ghost dv = client_delivery_view(d);
                    out.push(d);
                    assert(client_deliveries_view(out@) =~= client_deliveries_view(before).push(dv));
                }
            },
        }
        assert forall|k: int| 0 <= k < j + 1 implies (#[trigger] postcard_decode_message_infos(
            messages@.take(j + 1)[k]@,
        )) is Some by {
            if k < j {
                assert(messages@.take(j + 1)[k] == messages@.take(j as int)[k]);
            }
        }
        j = j + 1;
    }
    assert(messages@.take(messages@.len() as int) =~= messages@);
    Some(out)
}

/// The session batches `sessions` are the messages of `pending`, one batch
/// for each session, with its peer and its messages unchanged and in order.
pub open spec fn batches_of(sessions: Seq<SessionBatch>, pending: Map<u128, (Vec<Vec<u8>>, Option<u128>)>) -> bool {
    &&& forall|k: int|
        0 <= k < sessions.len() ==> pending.contains_key((#[trigger] sessions[k]).session_uuid)
            && sessions[k].messages@ == pending[sessions[k].session_uuid].0@
            && sessions[k].peer_uuid == pending[sessions[k].session_uuid].1
    &&& forall|a: int, b: int|
        0 <= a < b < sessions.len() ==> (#[trigger] sessions[a]).session_uuid != (#[trigger] sessions[b]).session_uuid
    &&& forall|s: u128| #[trigger] pending.contains_key(s) ==> exists|k: int| 0 <= k < sessions.len() && sessions[k].session_uuid == s
}

/// Picks up the messages one port received, routes each session's batch and
/// records the batches as one more entry of `log`. `false` when some bytes
/// are not an envelope.
fn collect_from_server_port<P: ServerPortTrait<I>, I, F: Copy>(
    port: &mut P,
    registry: &MessagesRegistry<F>,
    connection_id: u32,
    port_id: u32,
    out: &mut Vec<ServerDelivery<F>>,
    log: &mut Vec<ServerPortBatches>,
) -> (ok: bool)
    requires
        server_deliveries_view(old(out)@) == routes_of_server_ports(registry, old(log)@),
    ensures
        ok ==> server_deliveries_view(final(out)@) == routes_of_server_ports(registry, final(log)@),
        ok ==> final(log)@.len() == old(log)@.len() + 1 && final(log)@.drop_last() == old(log)@,
        ok ==> final(log)@.last().connection_id == connection_id && final(log)@.last().port_id == port_id,
        ok && P::answers_described() ==> batches_of(final(log)@.last().sessions@, old(port).pending_messages()),
{
    let mut received = port.get_peers_messages();
    let ghost all = received@;
    let ids = keys_of_u128(&received);
    let mut sessions: Vec<SessionBatch> = Vec::new();
    let ghost base = routes_of_server_ports(registry, old(log)@);
    let mut i: usize = 0;
    while i < ids.len()
        invariant
            i <= ids@.len(),
            log@ == old(log)@,
            base == routes_of_server_ports(registry, old(log)@),
            server_deliveries_view(out@) == base + routes_of_sessions(registry, connection_id, port_id, sessions@),
            ids@.to_set() == all.dom(),
            ids@.no_duplicates(),
            sessions@.len() == i,
            forall|j: int| i <= j < ids@.len() ==> #[trigger] received@.contains_key(ids@[j]) && received@[ids@[j]] == all[ids@[j]],
            forall|k: int|
                0 <= k < i ==> (#[trigger] sessions@[k]).session_uuid == ids@[k] && sessions@[k].messages@ == all[ids@[k]].0@
                    && sessions@[k].peer_uuid == all[ids@[k]].1,
        decreases ids@.len() - i,
    {
        let session_uuid = ids[i];
        let ghost rb = received@;
        assert(received@.contains_key(ids@[i as int]));
        proof {
            assert forall|j: int| i + 1 <= j < ids@.len() implies ids@[j] != session_uuid by {
                assert(ids@[j] != ids@[i as int]);
            }
        }
        if let Some((messages, peer_uuid)) = received.remove(&session_uuid) {
            match route_peer_batch(&*port, registry, &messages, connection_id, port_id, peer_uuid, session_uuid) {
                None => return false,
                Some(d) => {
                    let mut d = d;
                    let ghost ob = out@;
                    let ghost sb = sessions@;
                    let ghost dv = d@;
                    out.append(&mut d);
                    sessions.push(SessionBatch { session_uuid, peer_uuid, messages });
                    proof {
                        assert forall|k: int| 0 <= k < i implies #[trigger] sessions@[k] == sb[k] by {}
                        assert(sessions@.drop_last() =~= sb);
                        assert(server_deliveries_view(out@) =~= server_deliveries_view(ob) + server_deliveries_view(dv));
                        let last = routes_from_peer(registry, sessions@.last().messages@, connection_id, port_id, peer_uuid, session_uuid);
                        assert(base + routes_of_sessions(registry, connection_id, port_id, sessions@) =~= (base
                            + routes_of_sessions(registry, connection_id, port_id, sb)) + last);
                    }
                },
            }
        }
        i = i + 1;
    }
    proof {
        let sq = sessions@;
        assert forall|a: int, b: int| 0 <= a < b < sq.len() implies (#[trigger] sq[a]).session_uuid != (#[trigger] sq[b]).session_uuid by {
            assert(ids@[a] != ids@[b]);
        }
        assert forall|s: u128| #[trigger] all.contains_key(s) implies exists|k: int| 0 <= k < sq.len() && sq[k].session_uuid == s by {
            assert(ids@.to_set().contains(s));
            let j = choose|j: int| 0 <= j < ids@.len() && ids@[j] == s;
            assert(sq[j].session_uuid == s);
        }
    }
    let ghost lb = log@;
    log.push(ServerPortBatches { connection_id, port_id, sessions });
    assert(log@.drop_last() =~= lb);
    true
}

/// Picks up the messages one port received from the server, routes them and
/// records the batch as one more entry of `log`. `false` when some bytes
/// are not an envelope.
fn collect_from_client_port<P: ClientPortTrait<I>, I, F: Copy>(
    port: &mut P,
    registry: &MessagesRegistry<F>,
    connection_id: u32,
    port_id: u32,
    out: &mut Vec<ClientDelivery<F>>,
    log: &mut Vec<ClientPortBatch>,
) -> (ok: bool)
    requires
        client_deliveries_view(old(out)@) == routes_of_client_ports(registry, old(log)@),
    ensures
        ok ==> client_deliveries_view(final(out)@) == routes_of_client_ports(registry, final(log)@),
        ok ==> final(log)@.len() == old(log)@.len() + 1 && final(log)@.drop_last() == old(log)@,
        ok ==> final(log)@.last().connection_id == connection_id && final(log)@.last().port_id == port_id,
        ok && P::answers_described() ==> final(log)@.last().messages@ == old(port).pending_messages(),
{
    let messages = port.get_server_messages();
    match route_server_batch(&*port, registry, &messages, connection_id, port_id) {
        None => false,
        Some(d) => {
            let mut d = d;
            let ghost ob = out@;
            let ghost dv = d@;
            let ghost lb = log@;
            out.append(&mut d);
            log.push(ClientPortBatch { connection_id, port_id, messages });
            proof {
                assert(log@.drop_last() =~= lb);
                assert(client_deliveries_view(out@) =~= client_deliveries_view(ob) + client_deliveries_view(dv));
            }
            true
        },
    }
}

/// The entries of `log` from `from` on name connection `connection_id` and,
/// each once, exactly the ports of `ports`.
pub open spec fn covers_ports(log_ports: Seq<(u32, u32)>, from: int, connection_id: u32, ports: Set<u32>) -> bool {
    &&& forall|k: int| from <= k < log_ports.len() ==> (#[trigger] log_ports[k]).0 == connection_id && ports.contains(log_ports[k].1)
    &&& forall|a: int, b: int| from <= a < b < log_ports.len() ==> (#[trigger] log_ports[a]).1 != (#[trigger] log_ports[b]).1
    &&& forall|p: u32| #[trigger] ports.contains(p) ==> exists|k: int| from <= k < log_ports.len() && (#[trigger] log_ports[k]).1 == p
}

pub open spec fn server_log_ports(log: Seq<ServerPortBatches>) -> Seq<(u32, u32)> {
    log.map_values(|q: ServerPortBatches| (q.connection_id, q.port_id))
}

pub open spec fn client_log_ports(log: Seq<ClientPortBatch>) -> Seq<(u32, u32)> {
    log.map_values(|q: ClientPortBatch| (q.connection_id, q.port_id))
}

/// Picks up the messages of one connection: its main port, then every
/// secondary port.
fn collect_from_server_connection<P: ServerPortTrait<I>, I, F: Copy>(
    connection_id: u32,
    connection: &mut ServerConnection<P, I>,
    registry: &MessagesRegistry<F>,
    out: &mut Vec<ServerDelivery<F>>,
    log: &mut Vec<ServerPortBatches>,
) -> (r: Result<(), UndecodableEnvelope>)
    requires
        server_deliveries_view(old(out)@) == routes_of_server_ports(registry, old(log)@),
    ensures
        final(connection).ports().dom() == old(connection).ports().dom(),
        final(connection).secondary().dom() == old(connection).secondary().dom(),
        final(connection).same_settings(old(connection)),
        r matches Err(e) ==> e.connection_id == connection_id && old(connection).ports().contains_key(e.port_id),
        r is Ok ==> server_deliveries_view(final(out)@) == routes_of_server_ports(registry, final(log)@),
        r is Ok ==> final(log)@.len() >= old(log)@.len(),
        r is Ok ==> final(log)@.subrange(0, old(log)@.len() as int) == old(log)@,
        r is Ok ==> covers_ports(server_log_ports(final(log)@), old(log)@.len() as int, connection_id, old(connection).ports().dom()),
        r is Ok && P::answers_described() ==> forall|k: int|
            old(log)@.len() <= k < final(log)@.len() ==> #[trigger] batches_of(final(log)@[k].sessions@, old(connection).ports()[final(log)@[k].port_id].pending_messages()),
{
    let ghost ports = old(connection).ports().dom();
    let ghost l0 = old(log)@.len() as int;
    if let Some(main_port) = connection.get_port(0) {
        let ghost lb = log@;
        if !collect_from_server_port(main_port, registry, connection_id, 0, out, log) {
            assert(connection.ports().dom() =~= old(connection).ports().dom());
            return Err(UndecodableEnvelope { connection_id, port_id: 0 });
        }
        assert(log@.subrange(0, l0) =~= lb);
        assert(server_log_ports(log@)[l0].1 == 0);
    }
    assert(connection.ports().dom() =~= ports);
    let ids = connection.secondary_port_ids();
    let mut i: usize = 0;
    while i < ids.len()
        invariant
            i <= ids@.len(),
            ids@.to_set() == old(connection).secondary().dom(),
            ids@.no_duplicates(),
            ports == old(connection).ports().dom(),
            l0 == old(log)@.len(),
            connection.ports().dom() == ports,
            connection.secondary().dom() == old(connection).secondary().dom(),
            connection.same_settings(old(connection)),
            server_deliveries_view(out@) == routes_of_server_ports(registry, log@),
            log@.len() >= l0,
            log@.subrange(0, l0) == old(log)@,
            forall|k: int|
                l0 <= k < log@.len() ==> (#[trigger] server_log_ports(log@)[k]).0 == connection_id && ports.contains(
                    server_log_ports(log@)[k].1,
                ) && (server_log_ports(log@)[k].1 == 0 || exists|j: int| 0 <= j < i && ids@[j] == server_log_ports(log@)[k].1),
            forall|a: int, b: int|
                l0 <= a < b < log@.len() ==> (#[trigger] server_log_ports(log@)[a]).1 != (#[trigger] server_log_ports(log@)[b]).1,
            ports.contains(0) ==> exists|k: int| l0 <= k < log@.len() && (#[trigger] server_log_ports(log@)[k]).1 == 0,
            forall|j: int|
                0 <= j < i && ids@[j] != 0 ==> exists|k: int| l0 <= k < log@.len() && (#[trigger] server_log_ports(log@)[k]).1 == ids@[j],
            forall|q: u32|
                q != 0 && (forall|j: int| 0 <= j < i ==> ids@[j] != q) ==> #[trigger] connection.ports()[q] == old(connection).ports()[q],
            P::answers_described() ==> forall|k: int| l0 <= k < log@.len() ==> #[trigger] batches_of(log@[k].sessions@, old(connection).ports()[log@[k].port_id].pending_messages()),
        decreases ids@.len() - i,
    {
        let port_id = ids[i];
        let ghost lb = log@;
        let ghost pb = connection.ports();
        assert(ids@.to_set().contains(ids@[i as int]));
        proof {
            if port_id != 0 {
                assert forall|j: int| 0 <= j < i implies ids@[j] != port_id by {
                    assert(ids@[j] != ids@[i as int]);
                }
                assert(connection.ports()[port_id] == old(connection).ports()[port_id]);
            }
        }
        if port_id != 0 {
            if let Some(port) = connection.get_port(port_id) {
                if !collect_from_server_port(port, registry, connection_id, port_id, out, log) {
                    assert(connection.ports().dom() =~= old(connection).ports().dom());
                    return Err(UndecodableEnvelope { connection_id, port_id });
                }
                proof {
                    let nl = lb.len() as int;
                    if P::answers_described() {
                        assert forall|k: int| l0 <= k < log@.len() implies #[trigger] batches_of(log@[k].sessions@, old(connection).ports()[log@[k].port_id].pending_messages()) by {
                            if k < nl {
                                assert(log@[k] == log@.drop_last()[k]);
                            }
                        }
                    }
                    assert(log@.subrange(0, l0) =~= lb.subrange(0, l0));
                    assert forall|k: int| 0 <= k < nl implies server_log_ports(log@)[k] == server_log_ports(lb)[k] by {
                        assert(log@[k] == log@.drop_last()[k]);
                    }
                    assert(server_log_ports(log@)[nl] == (connection_id, port_id));
                    assert forall|a: int, b: int|
                        l0 <= a < b < log@.len() implies (#[trigger] server_log_ports(log@)[a]).1 != (#[trigger] server_log_ports(
                            log@,
                        )[b]).1 by {
                        assert(server_log_ports(log@)[a] == server_log_ports(lb)[a]);
                        if b < nl {
                            assert(server_log_ports(log@)[b] == server_log_ports(lb)[b]);
                        }
                        if b == nl {
                            if server_log_ports(lb)[a].1 != 0 {
                                let j = choose|j: int| 0 <= j < i && ids@[j] == server_log_ports(lb)[a].1;
                                assert(ids@[j] != ids@[i as int]);
                            }
                        }
                    }
                    assert forall|k: int|
                        l0 <= k < log@.len() implies (#[trigger] server_log_ports(log@)[k]).0 == connection_id && ports.contains(
                            server_log_ports(log@)[k].1,
                        ) && (server_log_ports(log@)[k].1 == 0 || exists|j: int|
                            0 <= j < i + 1 && ids@[j] == server_log_ports(log@)[k].1) by {
                        if k < nl {
                            if server_log_ports(lb)[k].1 != 0 {
                                let j = choose|j: int| 0 <= j < i && ids@[j] == server_log_ports(lb)[k].1;
                                assert(ids@[j] == server_log_ports(log@)[k].1);
                            }
                        } else {
                            assert(ids@[i as int] == server_log_ports(log@)[k].1);
                        }
                    }
                    if ports.contains(0) {
                        let k = choose|k: int| l0 <= k < lb.len() && (#[trigger] server_log_ports(lb)[k]).1 == 0;
                        assert(server_log_ports(log@)[k].1 == 0);
                    }
                    assert forall|j: int| 0 <= j < i + 1 && ids@[j] != 0 implies exists|k: int|
                        l0 <= k < log@.len() && (#[trigger] server_log_ports(log@)[k]).1 == ids@[j] by {
                        if j < i {
                            let k = choose|k: int| l0 <= k < lb.len() && (#[trigger] server_log_ports(lb)[k]).1 == ids@[j];
                            assert(server_log_ports(log@)[k].1 == ids@[j]);
                        } else {
                            assert(server_log_ports(log@)[nl].1 == ids@[j]);
                        }
                    }
                }
            }
        }
        assert(connection.ports().dom() =~= ports);
        proof {
            assert forall|q: u32|
                q != 0 && (forall|j: int| 0 <= j < i + 1 ==> ids@[j] != q) implies #[trigger] connection.ports()[q]
                    == old(connection).ports()[q] by {
                assert(ids@[i as int] != q);
                assert(pb[q] == old(connection).ports()[q]);
            }
        }
        i = i + 1;
    }
    proof {
        assert forall|p: u32| #[trigger] ports.contains(p) implies exists|k: int|
            l0 <= k < log@.len() && (#[trigger] server_log_ports(log@)[k]).1 == p by {
            if p != 0 {
                assert(old(connection).secondary().contains_key(p));
                assert(ids@.to_set().contains(p));
                let j = choose|j: int| 0 <= j < ids@.len() && ids@[j] == p;
                assert(ids@[j] != 0);
            }
        }
    }
    Ok(())
}

/// Picks up the messages of one client connection: its main port, then
/// every secondary port.
fn collect_from_client_connection<P: ClientPortTrait<I>, I, F: Copy>(
    connection_id: u32,
    connection: &mut ClientConnection<P, I>,
    registry: &MessagesRegistry<F>,
    out: &mut Vec<ClientDelivery<F>>,
    log: &mut Vec<ClientPortBatch>,
) -> (r: Result<(), UndecodableEnvelope>)
    requires
        client_deliveries_view(old(out)@) == routes_of_client_ports(registry, old(log)@),
    ensures
        final(connection).ports().dom() == old(connection).ports().dom(),
        final(connection).secondary().dom() == old(connection).secondary().dom(),
        final(connection).same_settings(old(connection)),
        r matches Err(e) ==> e.connection_id == connection_id && old(connection).ports().contains_key(e.port_id),
        r is Ok ==> client_deliveries_view(final(out)@) == routes_of_client_ports(registry, final(log)@),
        r is Ok ==> final(log)@.len() >= old(log)@.len(),
        r is Ok ==> final(log)@.subrange(0, old(log)@.len() as int) == old(log)@,
        r is Ok ==> covers_ports(client_log_ports(final(log)@), old(log)@.len() as int, connection_id, old(connection).ports().dom()),
        r is Ok && P::answers_described() ==> forall|k: int|
            old(log)@.len() <= k < final(log)@.len() ==> #[trigger] final(log)@[k].messages@ == old(connection).ports()[final(log)@[k].port_id].pending_messages(),
{
    let ghost ports = old(connection).ports().dom();
    let ghost l0 = old(log)@.len() as int;
    if let Some(main_port) = connection.get_port(0) {
        let ghost lb = log@;
        if !collect_from_client_port(main_port, registry, connection_id, 0, out, log) {
            assert(connection.ports().dom() =~= old(connection).ports().dom());
            return Err(UndecodableEnvelope { connection_id, port_id: 0 });
        }
        assert(log@.subrange(0, l0) =~= lb);
        assert(client_log_ports(log@)[l0].1 == 0);
    }
    assert(connection.ports().dom() =~= ports);
    let ids = connection.secondary_port_ids();
    let mut i: usize = 0;
    while i < ids.len()
        invariant
            i <= ids@.len(),
            ids@.to_set() == old(connection).secondary().dom(),
            ids@.no_duplicates(),
            ports == old(connection).ports().dom(),
            l0 == old(log)@.len(),
            connection.ports().dom() == ports,
            connection.secondary().dom() == old(connection).secondary().dom(),
            connection.same_settings(old(connection)),
            client_deliveries_view(out@) == routes_of_client_ports(registry, log@),
            log@.len() >= l0,
            log@.subrange(0, l0) == old(log)@,
            forall|k: int|
                l0 <= k < log@.len() ==> (#[trigger] client_log_ports(log@)[k]).0 == connection_id && ports.contains(
                    client_log_ports(log@)[k].1,
                ) && (client_log_ports(log@)[k].1 == 0 || exists|j: int| 0 <= j < i && ids@[j] == client_log_ports(log@)[k].1),
            forall|a: int, b: int|
                l0 <= a < b < log@.len() ==> (#[trigger] client_log_ports(log@)[a]).1 != (#[trigger] client_log_ports(log@)[b]).1,
            ports.contains(0) ==> exists|k: int| l0 <= k < log@.len() && (#[trigger] client_log_ports(log@)[k]).1 == 0,
            forall|j: int|
                0 <= j < i && ids@[j] != 0 ==> exists|k: int| l0 <= k < log@.len() && (#[trigger] client_log_ports(log@)[k]).1 == ids@[j],
            forall|q: u32|
                q != 0 && (forall|j: int| 0 <= j < i ==> ids@[j] != q) ==> #[trigger] connection.ports()[q] == old(connection).ports()[q],
            P::answers_described() ==> forall|k: int| l0 <= k < log@.len() ==> #[trigger] log@[k].messages@ == old(connection).ports()[log@[k].port_id].pending_messages(),
        decreases ids@.len() - i,
    {
        let port_id = ids[i];
        let ghost lb = log@;
        let ghost pb = connection.ports();
        assert(ids@.to_set().contains(ids@[i as int]));
        proof {
            if port_id != 0 {
                assert forall|j: int| 0 <= j < i implies ids@[j] != port_id by {
                    assert(ids@[j] != ids@[i as int]);
                }
                assert(connection.ports()[port_id] == old(connection).ports()[port_id]);
            }
        }
        if port_id != 0 {
            if let Some(port) = connection.get_port(port_id) {
                if !collect_from_client_port(port, registry, connection_id, port_id, out, log) {
                    assert(connection.ports().dom() =~= old(connection).ports().dom());
                    return Err(UndecodableEnvelope { connection_id, port_id });
                }
                proof {
                    let nl = lb.len() as int;
                    if P::answers_described() {
                        assert forall|k: int| l0 <= k < log@.len() implies #[trigger] log@[k].messages@ == old(connection).ports()[log@[k].port_id].pending_messages() by {
                            if k < nl {
                                assert(log@[k] == log@.drop_last()[k]);
                            }
                        }
                    }
                    assert(log@.subrange(0, l0) =~= lb.subrange(0, l0));
                    assert forall|k: int| 0 <= k < nl implies client_log_ports(log@)[k] == client_log_ports(lb)[k] by {
                        assert(log@[k] == log@.drop_last()[k]);
                    }
                    assert(client_log_ports(log@)[nl] == (connection_id, port_id));
                    assert forall|a: int, b: int|
                        l0 <= a < b < log@.len() implies (#[trigger] client_log_ports(log@)[a]).1 != (#[trigger] client_log_ports(
                            log@,
                        )[b]).1 by {
                        assert(client_log_ports(log@)[a] == client_log_ports(lb)[a]);
                        if b < nl {
                            assert(client_log_ports(log@)[b] == client_log_ports(lb)[b]);
                        }
                        if b == nl {
                            if client_log_ports(lb)[a].1 != 0 {
                                let j = choose|j: int| 0 <= j < i && ids@[j] == client_log_ports(lb)[a].1;
                                assert(ids@[j] != ids@[i as int]);
                            }
                        }
                    }
                    assert forall|k: int|
                        l0 <= k < log@.len() implies (#[trigger] client_log_ports(log@)[k]).0 == connection_id && ports.contains(
                            client_log_ports(log@)[k].1,
                        ) && (client_log_ports(log@)[k].1 == 0 || exists|j: int|
                            0 <= j < i + 1 && ids@[j] == client_log_ports(log@)[k].1) by {
                        if k < nl {
                            if client_log_ports(lb)[k].1 != 0 {
                                let j = choose|j: int| 0 <= j < i && ids@[j] == client_log_ports(lb)[k].1;
                                assert(ids@[j] == client_log_ports(log@)[k].1);
                            }
                        } else {
                            assert(ids@[i as int] == client_log_ports(log@)[k].1);
                        }
                    }
                    if ports.contains(0) {
                        let k = choose|k: int| l0 <= k < lb.len() && (#[trigger] client_log_ports(lb)[k]).1 == 0;
                        assert(client_log_ports(log@)[k].1 == 0);
                    }
                    assert forall|j: int| 0 <= j < i + 1 && ids@[j] != 0 implies exists|k: int|
                        l0 <= k < log@.len() && (#[trigger] client_log_ports(log@)[k]).1 == ids@[j] by {
                        if j < i {
                            let k = choose|k: int| l0 <= k < lb.len() && (#[trigger] client_log_ports(lb)[k]).1 == ids@[j];
                            assert(client_log_ports(log@)[k].1 == ids@[j]);
                        } else {
                            assert(client_log_ports(log@)[nl].1 == ids@[j]);
                        }
                    }
                }
            }
        }
        assert(connection.ports().dom() =~= ports);
        proof {
            assert forall|q: u32|
                q != 0 && (forall|j: int| 0 <= j < i + 1 ==> ids@[j] != q) implies #[trigger] connection.ports()[q]
                    == old(connection).ports()[q] by {
                assert(ids@[i as int] != q);
                assert(pb[q] == old(connection).ports()[q]);
            }
        }
        i = i + 1;
    }
    proof {
        assert forall|p: u32| #[trigger] ports.contains(p) implies exists|k: int|
            l0 <= k < log@.len() && (#[trigger] client_log_ports(log@)[k]).1 == p by {
            if p != 0 {
                assert(old(connection).secondary().contains_key(p));
                assert(ids@.to_set().contains(p));
                let j = choose|j: int| 0 <= j < ids@.len() && ids@[j] == p;
                assert(ids@[j] != 0);
            }
        }
    }
    Ok(())
}

/// Picks up the messages every port of every connection received from
/// peers. Each port is asked once; each session batch it gives goes through
/// `route_peer_batch`. Returns the deliveries, in order, and what each port
/// received; stops at the first bytes that are not an envelope.
pub fn check_messages_from_client<P: ServerPortTrait<I>, I, F: Copy>(
    network_connection: &mut NetworkConnection<ServerConnection<P, I>>,
    messages_registry_server: &MessagesRegistry<F>,
) -> (r: Result<(Vec<ServerDelivery<F>>, Vec<ServerPortBatches>), UndecodableEnvelope>)
    ensures
        same_server_shape(final(network_connection).0@, old(network_connection).0@),
        match r {
            Ok((d, log)) => {
                &&& server_deliveries_view(d@) == routes_of_server_ports(messages_registry_server, log@)
                &&& forall|k: int|
                    0 <= k < log@.len() ==> old(network_connection).0@.contains_key((#[trigger] log@[k]).connection_id)
                        && old(network_connection).0@[log@[k].connection_id].ports().contains_key(log@[k].port_id)
                &&& forall|a: int, b: int|
                    0 <= a < b < log@.len() ==> (#[trigger] log@[a]).connection_id != (#[trigger] log@[b]).connection_id
                        || log@[a].port_id != log@[b].port_id
                &&& forall|c: u32, p: u32|
                    old(network_connection).0@.contains_key(c) && #[trigger] old(network_connection).0@[c].ports().contains_key(p)
                        ==> exists|k: int| 0 <= k < log@.len() && (#[trigger] log@[k]).connection_id == c && log@[k].port_id == p
                &&& P::answers_described() ==> forall|k: int| 0 <= k < log@.len() ==> #[trigger] batches_of(log@[k].sessions@, old(network_connection).0@[log@[k].connection_id].ports()[log@[k].port_id].pending_messages())
            },
            Err(e) => old(network_connection).0@.contains_key(e.connection_id)
                && old(network_connection).0@[e.connection_id].ports().contains_key(e.port_id),
        },
{
    let ids = keys_of(&network_connection.0);
    let mut deliveries: Vec<ServerDelivery<F>> = Vec::new();
    let mut log: Vec<ServerPortBatches> = Vec::new();
    let ghost o = old(network_connection).0@;
    let mut i: usize = 0;
    while i < ids.len()
        invariant
            i <= ids@.len(),
            ids@.no_duplicates(),
            ids@.to_set() == o.dom(),
            o == old(network_connection).0@,
            same_server_shape(network_connection.0@, o),
            server_deliveries_view(deliveries@) == routes_of_server_ports(messages_registry_server, log@),
            forall|k: int| 0 <= k < log@.len() ==> exists|j: int| 0 <= j < i && ids@[j] == (#[trigger] log@[k]).connection_id,
            forall|k: int|
                0 <= k < log@.len() ==> o.contains_key((#[trigger] log@[k]).connection_id) && o[log@[k].connection_id].ports().contains_key(
                    log@[k].port_id,
                ),
            forall|a: int, b: int|
                0 <= a < b < log@.len() ==> (#[trigger] log@[a]).connection_id != (#[trigger] log@[b]).connection_id
                    || log@[a].port_id != log@[b].port_id,
            forall|j: int, p: u32|
                0 <= j < i && #[trigger] o[ids@[j]].ports().contains_key(p) ==> exists|k: int|
                    0 <= k < log@.len() && (#[trigger] log@[k]).connection_id == ids@[j] && log@[k].port_id == p,
            forall|j: int| i <= j < ids@.len() ==> #[trigger] network_connection.0@[ids@[j]] == o[ids@[j]],
            P::answers_described() ==> forall|k: int| 0 <= k < log@.len() ==> #[trigger] batches_of(log@[k].sessions@, o[log@[k].connection_id].ports()[log@[k].port_id].pending_messages()),
        decreases ids@.len() - i,
    {
        let c = ids[i];
        let ghost lb = log@;
        let ghost nb = network_connection.0@;
        assert(ids@.to_set().contains(ids@[i as int]));
        proof {
            assert forall|j: int| i + 1 <= j < ids@.len() implies ids@[j] != c by {
                assert(ids@[j] != ids@[i as int]);
            }
        }
        if let Some(connection) = get_mut_u32(&mut network_connection.0, c) {
            let result = collect_from_server_connection(c, connection, messages_registry_server, &mut deliveries, &mut log);
            if let Err(e) = result {
                return Err(e);
            }
            proof {
                let nl = lb.len() as int;
                if P::answers_described() {
                    assert forall|k: int| 0 <= k < log@.len() implies #[trigger] batches_of(log@[k].sessions@, o[log@[k].connection_id].ports()[log@[k].port_id].pending_messages()) by {
                        if k < nl {
                            assert(log@.subrange(0, nl)[k] == log@[k]);
                        } else {
                            assert(server_log_ports(log@)[k] == (log@[k].connection_id, log@[k].port_id));
                        }
                    }
                }
                let lp = server_log_ports(log@);
                assert(log@.subrange(0, nl) == lb);
                assert forall|k: int| nl <= k < log@.len() implies (#[trigger] log@[k]).connection_id == c && o[c].ports().contains_key(
                    log@[k].port_id,
                ) by {
                    assert(lp[k] == (log@[k].connection_id, log@[k].port_id));
                }
                assert forall|k: int| 0 <= k < nl implies #[trigger] log@[k] == lb[k] by {
                    assert(log@.subrange(0, nl)[k] == log@[k]);
                }
                assert forall|k: int| 0 <= k < log@.len() implies exists|j: int|
                    0 <= j < i + 1 && ids@[j] == (#[trigger] log@[k]).connection_id by {
                    if k < nl {
                        let j = choose|j: int| 0 <= j < i && ids@[j] == lb[k].connection_id;
                        assert(ids@[j] == log@[k].connection_id);
                    } else {
                        assert(ids@[i as int] == log@[k].connection_id);
                    }
                }
                assert forall|a: int, b: int|
                    0 <= a < b < log@.len() implies (#[trigger] log@[a]).connection_id != (#[trigger] log@[b]).connection_id
                        || log@[a].port_id != log@[b].port_id by {
                    if b >= nl && a < nl {
                        let j = choose|j: int| 0 <= j < i && ids@[j] == lb[a].connection_id;
                        assert(ids@[j] != ids@[i as int]);
                    } else if b >= nl {
                        assert(lp[a].1 != lp[b].1);
                    }
                }
                assert forall|j: int, p: u32|
                    0 <= j < i + 1 && #[trigger] o[ids@[j]].ports().contains_key(p) implies exists|k: int|
                        0 <= k < log@.len() && (#[trigger] log@[k]).connection_id == ids@[j] && log@[k].port_id == p by {
                    if j < i {
                        let k = choose|k: int| 0 <= k < lb.len() && (#[trigger] lb[k]).connection_id == ids@[j] && lb[k].port_id == p;
                        assert(log@[k] == lb[k]);
                    } else {
                        assert(o[c].ports().dom().contains(p));
                        let k = choose|k: int| nl <= k < log@.len() && (#[trigger] lp[k]).1 == p;
                        assert(log@[k].connection_id == c && log@[k].port_id == p);
                    }
                }
            }
        }
        i = i + 1;
    }
    proof {
        assert forall|cc: u32, p: u32|
            o.contains_key(cc) && #[trigger] o[cc].ports().contains_key(p) implies exists|k: int|
                0 <= k < log@.len() && (#[trigger] log@[k]).connection_id == cc && log@[k].port_id == p by {
            assert(ids@.to_set().contains(cc));
            let j = choose|j: int| 0 <= j < ids@.len() && ids@[j] == cc;
            assert(o[ids@[j]].ports().contains_key(p));
        }
    }
    Ok((deliveries, log))
}

/// Picks up the messages every port of every connection received from the
/// server. Each port is asked once; each batch goes through
/// `route_server_batch`. Returns the deliveries, in order, and what each
/// port received; stops at the first bytes that are not an envelope.
pub fn check_messages_from_server<P: ClientPortTrait<I>, I, F: Copy>(
    network_connection: &mut NetworkConnection<ClientConnection<P, I>>,
    messages_registry_client: &MessagesRegistry<F>,
) -> (r: Result<(Vec<ClientDelivery<F>>, Vec<ClientPortBatch>), UndecodableEnvelope>)
    ensures
        same_client_shape(final(network_connection).0@, old(network_connection).0@),
        match r {
            Ok((d, log)) => {
                &&& client_deliveries_view(d@) == routes_of_client_ports(messages_registry_client, log@)
                &&& forall|k: int|
                    0 <= k < log@.len() ==> old(network_connection).0@.contains_key((#[trigger] log@[k]).connection_id)
                        && old(network_connection).0@[log@[k].connection_id].ports().contains_key(log@[k].port_id)
                &&& forall|a: int, b: int|
                    0 <= a < b < log@.len() ==> (#[trigger] log@[a]).connection_id != (#[trigger] log@[b]).connection_id
                        || log@[a].port_id != log@[b].port_id
                &&& forall|c: u32, p: u32|
                    old(network_connection).0@.contains_key(c) && #[trigger] old(network_connection).0@[c].ports().contains_key(p)
                        ==> exists|k: int| 0 <= k < log@.len() && (#[trigger] log@[k]).connection_id == c && log@[k].port_id == p
                &&& P::answers_described() ==> forall|k: int| 0 <= k < log@.len() ==> #[trigger] log@[k].messages@ == old(network_connection).0@[log@[k].connection_id].ports()[log@[k].port_id].pending_messages()
            },
            Err(e) => old(network_connection).0@.contains_key(e.connection_id)
                && old(network_connection).0@[e.connection_id].ports().contains_key(e.port_id),
        },
{
    let ids = keys_of(&network_connection.0);
    let mut deliveries: Vec<ClientDelivery<F>> = Vec::new();
    let mut log: Vec<ClientPortBatch> = Vec::new();
    let ghost o = old(network_connection).0@;
    let mut i: usize = 0;
    while i < ids.len()
        invariant
            i <= ids@.len(),
            ids@.no_duplicates(),
            ids@.to_set() == o.dom(),
            o == old(network_connection).0@,
            same_client_shape(network_connection.0@, o),
            client_deliveries_view(deliveries@) == routes_of_client_ports(messages_registry_client, log@),
            forall|k: int| 0 <= k < log@.len() ==> exists|j: int| 0 <= j < i && ids@[j] == (#[trigger] log@[k]).connection_id,
            forall|k: int|
                0 <= k < log@.len() ==> o.contains_key((#[trigger] log@[k]).connection_id) && o[log@[k].connection_id].ports().contains_key(
                    log@[k].port_id,
                ),
            forall|a: int, b: int|
                0 <= a < b < log@.len() ==> (#[trigger] log@[a]).connection_id != (#[trigger] log@[b]).connection_id
                    || log@[a].port_id != log@[b].port_id,
            forall|j: int, p: u32|
                0 <= j < i && #[trigger] o[ids@[j]].ports().contains_key(p) ==> exists|k: int|
                    0 <= k < log@.len() && (#[trigger] log@[k]).connection_id == ids@[j] && log@[k].port_id == p,
            forall|j: int| i <= j < ids@.len() ==> #[trigger] network_connection.0@[ids@[j]] == o[ids@[j]],
            P::answers_described() ==> forall|k: int| 0 <= k < log@.len() ==> #[trigger] log@[k].messages@ == o[log@[k].connection_id].ports()[log@[k].port_id].pending_messages(),
        decreases ids@.len() - i,
    {
        let c = ids[i];
        let ghost lb = log@;
        let ghost nb = network_connection.0@;
        assert(ids@.to_set().contains(ids@[i as int]));
        proof {
            assert forall|j: int| i + 1 <= j < ids@.len() implies ids@[j] != c by {
                assert(ids@[j] != ids@[i as int]);
            }
        }
        if let Some(connection) = get_mut_u32(&mut network_connection.0, c) {
            let result = collect_from_client_connection(c, connection, messages_registry_client, &mut deliveries, &mut log);
            if let Err(e) = result {
                return Err(e);
            }
            proof {
                let nl = lb.len() as int;
                if P::answers_described() {
                    assert forall|k: int| 0 <= k < log@.len() implies #[trigger] log@[k].messages@ == o[log@[k].connection_id].ports()[log@[k].port_id].pending_messages() by {
                        if k < nl {
                            assert(log@.subrange(0, nl)[k] == log@[k]);
                        } else {
                            assert(client_log_ports(log@)[k] == (log@[k].connection_id, log@[k].port_id));
                        }
                    }
                }
                let lp = client_log_ports(log@);
                assert(log@.subrange(0, nl) == lb);
                assert forall|k: int| nl <= k < log@.len() implies (#[trigger] log@[k]).connection_id == c && o[c].ports().contains_key(
                    log@[k].port_id,
                ) by {
                    assert(lp[k] == (log@[k].connection_id, log@[k].port_id));
                }
                assert forall|k: int| 0 <= k < nl implies #[trigger] log@[k] == lb[k] by {
                    assert(log@.subrange(0, nl)[k] == log@[k]);
                }
                assert forall|k: int| 0 <= k < log@.len() implies exists|j: int|
                    0 <= j < i + 1 && ids@[j] == (#[trigger] log@[k]).connection_id by {
                    if k < nl {
                        let j = choose|j: int| 0 <= j < i && ids@[j] == lb[k].connection_id;
                        assert(ids@[j] == log@[k].connection_id);
                    } else {
                        assert(ids@[i as int] == log@[k].connection_id);
                    }
                }
                assert forall|a: int, b: int|
                    0 <= a < b < log@.len() implies (#[trigger] log@[a]).connection_id != (#[trigger] log@[b]).connection_id
                        || log@[a].port_id != log@[b].port_id by {
                    if b >= nl && a < nl {
                        let j = choose|j: int| 0 <= j < i && ids@[j] == lb[a].connection_id;
                        assert(ids@[j] != ids@[i as int]);
                    } else if b >= nl {
                        assert(lp[a].1 != lp[b].1);
                    }
                }
                assert forall|j: int, p: u32|
                    0 <= j < i + 1 && #[trigger] o[ids@[j]].ports().contains_key(p) implies exists|k: int|
                        0 <= k < log@.len() && (#[trigger] log@[k]).connection_id == ids@[j] && log@[k].port_id == p by {
                    if j < i {
                        let k = choose|k: int| 0 <= k < lb.len() && (#[trigger] lb[k]).connection_id == ids@[j] && lb[k].port_id == p;
                        assert(log@[k] == lb[k]);
                    } else {
                        assert(o[c].ports().dom().contains(p));
                        let k = choose|k: int| nl <= k < log@.len() && (#[trigger] lp[k]).1 == p;
                        assert(log@[k].connection_id == c && log@[k].port_id == p);
                    }
                }
            }
        }
        i = i + 1;
    }
    proof {
        assert forall|cc: u32, p: u32|
            o.contains_key(cc) && #[trigger] o[cc].ports().contains_key(p) implies exists|k: int|
                0 <= k < log@.len() && (#[trigger] log@[k]).connection_id == cc && log@[k].port_id == p by {
            assert(ids@.to_set().contains(cc));
            let j = choose|j: int| 0 <= j < ids@.len() && ids@[j] == cc;
            assert(o[ids@[j]].ports().contains_key(p));
        }
    }
    Ok((deliveries, log))
}

/// Sends the serialized `message` of type `type_id` to the peer `peer_id`
/// through port `port_id` of connection `connection_id`, under the id the
/// type was registered with. Nothing is sent for a type that was not
/// registered. Returns the id the message was sent under, when it was
/// handed to the port.
pub fn send_registered_message<P: ServerPortTrait<I>, I, F>(
    messages_registry: &MessagesRegistry<F>,
    connection: &mut NetworkConnection<ServerConnection<P, I>>,
    type_id: &TypeId,
    connection_id: u32,
    port_id: u32,
    message: &[u8],
    peer_id: u128,
) -> (r: Option<u32>)
    ensures
        r == (if messages_registry.ids().contains_key(*type_id) && old(connection).0@.contains_key(connection_id)
            && old(connection).0@[connection_id].ports().contains_key(port_id)
            && old(connection).0@[connection_id].shared_infos() is Some {
            Some(messages_registry.ids()[*type_id])
        } else {
            None
        }),
        !messages_registry.ids().contains_key(*type_id) ==> final(connection).0@ == old(connection).0@,
        others_unchanged(final(connection).0@, old(connection).0@, connection_id),
        old(connection).0@.contains_key(connection_id) ==> ({
            let o = old(connection).0@[connection_id];
            let c = final(connection).0@[connection_id];
            &&& c.ports().dom() == o.ports().dom()
            &&& c.same_settings(&o)
        }),
        r is Some ==> match final(connection).0@[connection_id].ports()[port_id].last_sent() {
            Some((id, peer, m)) => id == messages_registry.ids()[*type_id] && peer == peer_id && m@ == message@,
            None => false,
        },
        r is None && old(connection).0@.contains_key(connection_id) ==> final(connection).0@[connection_id].ports()
            == old(connection).0@[connection_id].ports(),
{
    match messages_registry.id_of(type_id) {
        Some(message_id) => {
            if connection.send_message(message_id, connection_id, port_id, message, peer_id) {
                Some(message_id)
            } else {
                None
            }
        },
        None => None,
    }
}

/// Sends the serialized `message` of type `type_id` to the server through
/// port `port_id` of connection `connection_id`, under the id the type was
/// registered with. Nothing is sent for a type that was not registered.
/// Returns the id the message was sent under, when it was handed to the
/// port.
pub fn send_registered_message_to_server<P: ClientPortTrait<I>, I, F>(
    messages_registry: &MessagesRegistry<F>,
    connection: &mut NetworkConnection<ClientConnection<P, I>>,
    type_id: &TypeId,
    connection_id: u32,
    port_id: u32,
    message: &[u8],
) -> (r: Option<u32>)
    ensures
        r == (if messages_registry.ids().contains_key(*type_id) && old(connection).0@.contains_key(connection_id)
            && old(connection).0@[connection_id].ports().contains_key(port_id)
            && old(connection).0@[connection_id].shared_infos() is Some {
            Some(messages_registry.ids()[*type_id])
        } else {
            None
        }),
        !messages_registry.ids().contains_key(*type_id) ==> final(connection).0@ == old(connection).0@,
        others_unchanged(final(connection).0@, old(connection).0@, connection_id),
        old(connection).0@.contains_key(connection_id) ==> ({
            let o = old(connection).0@[connection_id];
            let c = final(connection).0@[connection_id];
            &&& c.ports().dom() == o.ports().dom()
            &&& c.same_settings(&o)
        }),
        r is Some ==> match final(connection).0@[connection_id].ports()[port_id].last_sent() {
            Some((id, m)) => id == messages_registry.ids()[*type_id] && m@ == message@,
            None => false,
        },
        r is None && old(connection).0@.contains_key(connection_id) ==> final(connection).0@[connection_id].ports()
            == old(connection).0@[connection_id].ports(),
{
    match messages_registry.id_of(type_id) {
        Some(message_id) => {
            if connection.send_message_to_server(message_id, connection_id, port_id, message) {
                Some(message_id)
            } else {
                None
            }
        },
        None => None,
    }
}

/// Whether each bytes of `batch` are an envelope of a registered type.
pub open spec fn registered_flags<F>(registry: &MessagesRegistry<F>, batch: Seq<Vec<u8>>) -> Seq<bool> {
    batch.map_values(
        |b: Vec<u8>|
            match postcard_decode_message_infos(b@) {
                Some((id, _m)) => registry.functions().contains_key(id),
                None => false,
            },
    )
}

/// Routing a batch received from a peer gives one delivery for every
/// envelope of a registered type and nothing else, in the order of the
/// batch: the delivery of the `k`-th bytes comes after those of the
/// registered envelopes before it, and carries the functions of its type,
/// its message, and the connection, port, peer and session.
pub proof fn law_every_registered_envelope_is_delivered<F>(
    registry: &MessagesRegistry<F>,
    batch: Seq<Vec<u8>>,
    connection_id: u32,
    port_id: u32,
    peer_uuid: Option<u128>,
    session_uuid: u128,
)
    ensures
        routes_from_peer(registry, batch, connection_id, port_id, peer_uuid, session_uuid).len() == count_true(
            registered_flags(registry, batch),
        ),
        forall|k: int|
            0 <= k < batch.len() && #[trigger] registered_flags(registry, batch)[k] ==> ({
                let (id, m) = postcard_decode_message_infos(batch[k]@)->0;
                routes_from_peer(registry, batch, connection_id, port_id, peer_uuid, session_uuid)[count_true(
                    registered_flags(registry, batch).take(k),
                ) as int] == (registry.functions()[id], m, connection_id, port_id, peer_uuid, session_uuid)
            }),
    decreases batch.len(),
{
    if batch.len() > 0 {
        let b2 = batch.drop_last();
        law_every_registered_envelope_is_delivered(registry, b2, connection_id, port_id, peer_uuid, session_uuid);
        let f = registered_flags(registry, batch);
        let f2 = registered_flags(registry, b2);
        assert(f.drop_last() =~= f2);
        let r = routes_from_peer(registry, batch, connection_id, port_id, peer_uuid, session_uuid);
        let r2 = routes_from_peer(registry, b2, connection_id, port_id, peer_uuid, session_uuid);
        assert forall|k: int|
            0 <= k < batch.len() && #[trigger] registered_flags(registry, batch)[k] implies ({
                let (id, m) = postcard_decode_message_infos(batch[k]@)->0;
                r[count_true(f.take(k)) as int] == (registry.functions()[id], m, connection_id, port_id, peer_uuid, session_uuid)
            }) by {
            if k < batch.len() - 1 {
                assert(batch[k] == b2[k]);
                assert(f[k] == f2[k]);
                assert(f.take(k) =~= f2.take(k));
                lemma_count_true_prefix(f2, k);
                assert(r[count_true(f.take(k)) as int] == r2[count_true(f2.take(k)) as int]);
            } else {
                assert(f.take(k) =~= f2);
            }
        }
    }
}

/// Routing a batch received from the server gives one delivery for every
/// envelope of a registered type and nothing else, in the order of the
/// batch, each carrying the functions of its type, its message, and the
/// connection and port.
pub proof fn law_every_registered_envelope_from_server_is_delivered<F>(
    registry: &MessagesRegistry<F>,
    batch: Seq<Vec<u8>>,
    connection_id: u32,
    port_id: u32,
)
    ensures
        routes_from_server(registry, batch, connection_id, port_id).len() == count_true(registered_flags(registry, batch)),
        forall|k: int|
            0 <= k < batch.len() && #[trigger] registered_flags(registry, batch)[k] ==> ({
                let (id, m) = postcard_decode_message_infos(batch[k]@)->0;
                routes_from_server(registry, batch, connection_id, port_id)[count_true(
                    registered_flags(registry, batch).take(k),
                ) as int] == (registry.functions()[id], m, connection_id, port_id)
            }),
    decreases batch.len(),
{
    if batch.len() > 0 {
        let b2 = batch.drop_last();
        law_every_registered_envelope_from_server_is_delivered(registry, b2, connection_id, port_id);
        let f = registered_flags(registry, batch);
        let f2 = registered_flags(registry, b2);
        assert(f.drop_last() =~= f2);
        let r = routes_from_server(registry, batch, connection_id, port_id);
        let r2 = routes_from_server(registry, b2, connection_id, port_id);
        assert forall|k: int|
            0 <= k < batch.len() && #[trigger] registered_flags(registry, batch)[k] implies ({
                let (id, m) = postcard_decode_message_infos(batch[k]@)->0;
                r[count_true(f.take(k)) as int] == (registry.functions()[id], m, connection_id, port_id)
            }) by {
            if k < batch.len() - 1 {
                assert(batch[k] == b2[k]);
                assert(f[k] == f2[k]);
                assert(f.take(k) =~= f2.take(k));
                lemma_count_true_prefix(f2, k);
                assert(r[count_true(f.take(k)) as int] == r2[count_true(f2.take(k)) as int]);
            } else {
                assert(f.take(k) =~= f2);
            }
        }
    }
}

} // verus!
