//! The connection state of a reconnecting stream client port: it connects,
//! listens once connected, and after the connection went down or on request
//! connects again.

use vstd::prelude::*;

verus! {

/// What a stream client port tells about itself: it carries nothing beyond
/// its kind.
#[derive(Clone, Copy, Debug, PartialEq, Eq, Structural)]
pub struct TcpInfosClient;

#[derive(Clone, Copy, Debug, PartialEq, Eq, Structural)]
pub struct TcpPortClientState {
    pub connected: bool,
    pub connecting: bool,
    pub reconnecting: bool,
    pub main_port: bool,
    pub listening: bool,
    pub authenticated: bool,
}

/// The state after the connection is lost or a connection attempt failed:
/// nothing is connected, pending, listening or authenticated.
pub open spec fn reset_spec(s: TcpPortClientState) -> TcpPortClientState {
    TcpPortClientState {
        connected: false,
        connecting: false,
        reconnecting: false,
        main_port: s.main_port,
        listening: false,
        authenticated: false,
    }
}

/// A start request: the state after it, and whether a connection attempt
/// begins (the port is neither connected nor connecting).
pub open spec fn start_spec(s: TcpPortClientState) -> (TcpPortClientState, bool) {
    if s.connected || s.connecting {
        (s, false)
    } else {
        (TcpPortClientState { connecting: true, ..s }, true)
    }
}

/// A reconnect request: unless a (re)connection is already pending, the
/// port forgets its connection and starts again.
pub open spec fn reconnect_spec(s: TcpPortClientState) -> (TcpPortClientState, bool) {
    if s.reconnecting || s.connecting {
        (s, false)
    } else {
        start_spec(TcpPortClientState { reconnecting: true, ..reset_spec(s) })
    }
}

impl TcpPortClientState {
    pub fn new() -> (r: Self)
        ensures
            r == (TcpPortClientState {
                connected: false,
                connecting: false,
                reconnecting: false,
                main_port: false,
                listening: false,
                authenticated: false,
            }),
    {
        TcpPortClientState {
            connected: false,
            connecting: false,
            reconnecting: false,
            main_port: false,
            listening: false,
            authenticated: false,
        }
    }

    /// Returns whether a connection attempt begins.
    pub fn start(&mut self) -> (r: bool)
        ensures
            (*final(self), r) == start_spec(*old(self)),
    {
        if self.connected || self.connecting {
            return false;
        }
        self.connecting = true;
        true
    }

    /// Returns whether a connection attempt begins; the old connection's
    /// halves are to be dropped when one does.
    pub fn reconnect(&mut self) -> (r: bool)
        ensures
            (*final(self), r) == reconnect_spec(*old(self)),
    {
        if self.reconnecting || self.connecting {
            return false;
        }
        self.connecting = false;
        self.connected = false;
        self.listening = false;
        self.authenticated = false;
        self.reconnecting = true;
        self.start()
    }

    /// The connection went down or could not be made.
    pub fn connection_down(&mut self)
        ensures
            *final(self) == reset_spec(*old(self)),
    {
        self.connecting = false;
        self.reconnecting = false;
        self.connected = false;
        self.listening = false;
        self.authenticated = false;
    }

    /// The connection is made.
    pub fn on_connected(&mut self)
        ensures
            *final(self) == (TcpPortClientState { connected: true, ..*old(self) }),
    {
        self.connected = true;
    }

    /// Returns whether the port starts listening now: it is connected and
    /// not listening yet.
    pub fn begin_listening(&mut self) -> (r: bool)
        ensures
            r == (old(self).connected && !old(self).listening),
            *final(self) == (TcpPortClientState { listening: old(self).listening || r, ..*old(self) }),
    {
        if self.listening || !self.connected {
            return false;
        }
        self.listening = true;
        true
    }

    pub fn as_main_port(&mut self) -> (r: bool)
        ensures
            r,
            *final(self) == (TcpPortClientState { main_port: true, ..*old(self) }),
    {
        self.main_port = true;
        self.main_port
    }

    pub fn set_port_authenticated(&mut self)
        ensures
            *final(self) == (TcpPortClientState { authenticated: true, ..*old(self) }),
    {
        self.authenticated = true;
    }
}

/// After the connection went down, a start request makes a new attempt.
pub proof fn lemma_down_then_start(s: TcpPortClientState)
    ensures
        start_spec(reset_spec(s)).1,
        !start_spec(reset_spec(s)).0.connected,
        !start_spec(reset_spec(s)).0.authenticated,
{
}

/// A reconnect that goes ahead always makes a new attempt, from a state
/// that is neither connected, listening nor authenticated.
pub proof fn lemma_reconnect_attempts(s: TcpPortClientState)
    requires
        !s.reconnecting && !s.connecting,
    ensures
        reconnect_spec(s).1,
        reconnect_spec(s).0.connecting && reconnect_spec(s).0.reconnecting,
        !reconnect_spec(s).0.connected && !reconnect_spec(s).0.listening && !reconnect_spec(s).0.authenticated,
{
}

} // verus!
