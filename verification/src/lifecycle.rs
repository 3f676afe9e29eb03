//! The life of a port: it is asked to start, comes up once its socket is
//! ready, and may go down; a port that went down can be started again.
//! Also the time rules of datagram ports, which have no connection to lose.

use vstd::prelude::*;

verus! {

/// Whether a port is up, is coming up, and has ever been up.
#[derive(Clone, Copy, Debug, PartialEq, Eq, Structural)]
pub struct PortLifecycle {
    pub started: bool,
    pub starting: bool,
    pub first_started: bool,
}

/// A start request: the state after it, and whether the socket has to be
/// opened now (the port is neither up nor coming up).
pub open spec fn begin_start_spec(p: PortLifecycle) -> (PortLifecycle, bool) {
    if p.started || p.starting {
        (p, false)
    } else {
        (PortLifecycle { started: p.started, starting: true, first_started: p.first_started }, true)
    }
}

/// A poll for being up, `socket_ready` telling whether the socket came
/// ready: the state after it, whether the port is up, and whether it came up
/// now.
pub open spec fn poll_started_spec(p: PortLifecycle, socket_ready: bool) -> (PortLifecycle, (bool, bool)) {
    if p.started {
        (p, (true, false))
    } else if socket_ready {
        (PortLifecycle { started: true, starting: false, first_started: true }, (true, true))
    } else {
        (p, (false, false))
    }
}

/// The state of a port that went down.
pub open spec fn went_down_spec(p: PortLifecycle) -> PortLifecycle {
    PortLifecycle { started: false, starting: false, first_started: p.first_started }
}

impl PortLifecycle {
    pub fn new() -> (r: Self)
        ensures
            !r.started && !r.starting && !r.first_started,
    {
        PortLifecycle { started: false, starting: false, first_started: false }
    }

    /// Asked to start: `true` when the port has to open its socket now.
    pub fn begin_start(&mut self) -> (r: bool)
        ensures
            (*final(self), r) == begin_start_spec(*old(self)),
    {
        if self.started || self.starting {
            return false;
        }
        self.starting = true;
        true
    }

    /// Polled for being up; `socket_ready` tells whether the socket came
    /// ready since the last poll. Returns whether the port is up and whether
    /// it came up during this call.
    pub fn poll_started(&mut self, socket_ready: bool) -> (r: (bool, bool))
        ensures
            (*final(self), r) == poll_started_spec(*old(self), socket_ready),
    {
        if self.started {
            (true, false)
        } else if socket_ready {
            self.started = true;
            self.starting = false;
            self.first_started = true;
            (true, true)
        } else {
            (false, false)
        }
    }

    /// Polled for going down; `down` is the failure reported since the last
    /// poll, with whether the port had been up when it was started. Returns
    /// whether the port went down, why, and whether it had been up.
    pub fn poll_disconnected<E>(&mut self, down: Option<(E, bool)>) -> (r: (bool, Option<E>, bool))
        ensures
            match down {
                Some((e, was)) => r == (true, Some(e), was) && *final(self) == went_down_spec(*old(self)),
                None => r == (false, None::<E>, old(self).first_started) && *final(self) == *old(self),
            },
    {
        match down {
            Some((error, first_started)) => {
                self.started = false;
                self.starting = false;
                (true, Some(error), first_started)
            },
            None => (false, None, self.first_started),
        }
    }
}

/// A start request opens the socket at most once: a second request before
/// the port went down opens nothing.
pub proof fn lemma_start_once(p: PortLifecycle)
    ensures
        !begin_start_spec(begin_start_spec(p).0).1,
{
}

/// A port reports coming up once: after it came up, every later poll says
/// it is up but not that it came up now.
pub proof fn lemma_up_reported_once(p: PortLifecycle, first_ready: bool, later_ready: bool)
    ensures
        poll_started_spec(p, first_ready).1.1 ==> poll_started_spec(poll_started_spec(p, first_ready).0, later_ready).1
            == (true, false),
{
}

/// A port that went down opens its socket again on the next start request.
pub proof fn lemma_restart_after_down(p: PortLifecycle)
    ensures
        begin_start_spec(went_down_spec(p)).1,
{
}

/// Seconds a datagram session may stay anonymous, and a datagram peer may
/// stay silent, before it counts as gone.
pub open spec fn session_timeout_secs() -> u64 {
    120
}

/// Seconds between two pings.
pub open spec fn ping_interval_secs() -> u64 {
    10
}

/// Whether a datagram session is gone: anonymous for too long, or silent
/// for too long.
pub fn session_expired(peer_id: Option<u128>, secs_since_accepted: u64, secs_since_pong: u64) -> (r: bool)
    ensures
        r == ((peer_id is None && secs_since_accepted >= session_timeout_secs()) || secs_since_pong
            >= session_timeout_secs()),
{
    (peer_id.is_none() && secs_since_accepted >= 120) || secs_since_pong >= 120
}

/// Whether the server has been silent for so long that a datagram client
/// counts as disconnected.
pub fn server_silent(started: bool, secs_since_pong: u64) -> (r: bool)
    ensures
        r == (started && secs_since_pong >= session_timeout_secs()),
{
    started && secs_since_pong >= 120
}

/// Whether it is time to ping again.
pub fn ping_due(secs_since_ping: u64) -> (r: bool)
    ensures
        r == (secs_since_ping >= ping_interval_secs()),
{
    secs_since_ping >= 10
}

/// How many peers at once the main port of a server connection may hold:
/// `None` (no limit) for a limit of 0.
pub fn peer_limit(max_connections: u32) -> (r: Option<u32>)
    ensures
        r == (if max_connections > 0 { Some(max_connections) } else { None::<u32> }),
{
    if max_connections > 0 {
        Some(max_connections)
    } else {
        None
    }
}

/// What becomes of a peer a server port accepted. A port that counts its
/// peers (`counted`: the main port of a connection with a limit) hands it
/// on holding the place `place` it took, or drops it when no place was
/// free; another port hands it on as it is. `None`: drop the peer.
pub fn admit_peer<T>(counted: bool, place: Option<T>) -> (r: Option<Option<T>>)
    ensures
        r == (if !counted {
            Some(None::<T>)
        } else {
            match place {
                Some(t) => Some(Some(t)),
                None => None::<Option<T>>,
            }
        }),
{
    if !counted {
        Some(None)
    } else {
        match place {
            Some(t) => Some(Some(t)),
            None => None,
        }
    }
}

} // verus!
