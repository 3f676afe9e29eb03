//! Which network roles ("sides") the running process plays, and the setup
//! decisions that follow from them.

use vstd::prelude::*;

verus! {

/// A role of the process in the network.
#[derive(Clone, Copy, Debug, PartialEq, Eq, Structural)]
pub enum NetworkType {
    Client,
    DedicatedServer,
    LocalServer,
}

/// Whether a port delivers every message in order.
#[derive(Clone, Copy, Debug, PartialEq, Eq, Structural)]
pub enum PortReliability {
    Reliable,
    Unreliable,
}

/// The roles registered so far, in the order they were added.
pub struct CurrentNetworkSides(pub Vec<NetworkType>);

impl View for CurrentNetworkSides {
    type V = Seq<NetworkType>;

    open spec fn view(&self) -> Seq<NetworkType> {
        self.0@
    }
}

/// The three questions every plugin asks of the current sides.
#[derive(Clone, Copy, Debug, PartialEq, Eq, Structural)]
pub struct SideFlags {
    pub is_client: bool,
    pub is_local_server: bool,
    pub is_dedicated_server: bool,
}

pub open spec fn flags_of(sides: Seq<NetworkType>) -> SideFlags {
    SideFlags {
        is_client: sides.contains(NetworkType::Client),
        is_local_server: sides.contains(NetworkType::LocalServer),
        is_dedicated_server: sides.contains(NetworkType::DedicatedServer),
    }
}

impl CurrentNetworkSides {
    pub fn new(sides: Vec<NetworkType>) -> (r: CurrentNetworkSides)
        ensures
            r@ == sides@,
    {
        CurrentNetworkSides(sides)
    }

    pub fn side(&mut self) -> (r: &mut Vec<NetworkType>)
        ensures
            *r == old(self).0,
            final(self).0 == *final(r),
    {
        &mut self.0
    }

    pub fn insert_side(&mut self, side: NetworkType)
        ensures
            final(self)@ == old(self)@.push(side),
    {
        self.0.push(side);
    }

    /// Whether `side` is one of the registered roles.
    pub fn contains(&self, side: NetworkType) -> (r: bool)
        ensures
            r == self@.contains(side),
    {
        let mut i: usize = 0;
        while i < self.0.len()
            invariant
                0 <= i <= self@.len(),
                forall|j: int| 0 <= j < i ==> self@[j] != side,
            decreases self@.len() - i,
        {
            if self.0[i] == side {
                return true;
            }
            i = i + 1;
        }
        false
    }

    pub fn flags(&self) -> (r: SideFlags)
        ensures
            r == flags_of(self@),
    {
        SideFlags {
            is_client: self.contains(NetworkType::Client),
            is_local_server: self.contains(NetworkType::LocalServer),
            is_dedicated_server: self.contains(NetworkType::DedicatedServer),
        }
    }
}


pub open spec fn opt_view(current: Option<CurrentNetworkSides>) -> Option<Seq<NetworkType>> {
    match current {
        Some(c) => Some(c@),
        None => None,
    }
}

/// Every dedicated-server role becomes a local-server role.
pub open spec fn promote_dedicated(s: Seq<NetworkType>) -> Seq<NetworkType> {
    s.map_values(
        |t: NetworkType|
            if t == NetworkType::DedicatedServer {
                NetworkType::LocalServer
            } else {
                t
            },
    )
}

/// The sides after the server plugin is added, and whether its setup goes on.
pub open spec fn server_plugin_spec(current: Option<Seq<NetworkType>>, messaging_added: bool) -> (
    Seq<NetworkType>,
    bool,
) {
    match current {
        None => (seq![NetworkType::DedicatedServer], true),
        Some(s) => if s.contains(NetworkType::Client) {
            if messaging_added {
                (s, false)
            } else {
                (s.push(NetworkType::LocalServer), true)
            }
        } else {
            (s.push(NetworkType::DedicatedServer), true)
        },
    }
}

/// The sides after the client plugin is added, and whether its setup goes on.
pub open spec fn client_plugin_spec(current: Option<Seq<NetworkType>>, messaging_added: bool) -> (
    Seq<NetworkType>,
    bool,
) {
    match current {
        None => (seq![NetworkType::Client], true),
        Some(s) => if messaging_added {
            (s, false)
        } else {
            (promote_dedicated(s).push(NetworkType::Client), true)
        },
    }
}

/// Adds the server role. A process that is already a client becomes a local
/// server; otherwise it is a dedicated server. The setup stops (and the sides
/// stay as they were) when a client has already set up messaging, which must
/// come last.
pub fn apply_server_plugin(current: Option<CurrentNetworkSides>, messaging_plugin_added: bool) -> (r: (
    CurrentNetworkSides,
    bool,
))
    ensures
        (r.0@, r.1) == server_plugin_spec(opt_view(current), messaging_plugin_added),
{
    match current {
        None => {
            let mut v: Vec<NetworkType> = Vec::new();
            v.push(NetworkType::DedicatedServer);
            proof {
                assert(v@ =~= seq![NetworkType::DedicatedServer]);
            }
            (CurrentNetworkSides::new(v), true)
        },
        Some(mut sides) => {
            if sides.contains(NetworkType::Client) {
                if messaging_plugin_added {
                    return (sides, false);
                }
                sides.insert_side(NetworkType::LocalServer);
            } else {
                sides.insert_side(NetworkType::DedicatedServer);
            }
            (sides, true)
        },
    }
}

/// Adds the client role. Any dedicated-server role turns into a local-server
/// role. The setup stops (and the sides stay as they were) when messaging
/// was already set up, which must come last.
pub fn apply_client_plugin(current: Option<CurrentNetworkSides>, messaging_plugin_added: bool) -> (r: (
    CurrentNetworkSides,
    bool,
))
    ensures
        (r.0@, r.1) == client_plugin_spec(opt_view(current), messaging_plugin_added),
{
    match current {
        None => {
            let mut v: Vec<NetworkType> = Vec::new();
            v.push(NetworkType::Client);
            proof {
                assert(v@ =~= seq![NetworkType::Client]);
            }
            (CurrentNetworkSides::new(v), true)
        },
        Some(mut sides) => {
            if messaging_plugin_added {
                return (sides, false);
            }
            let ghost old_sides = sides@;
            let n = sides.0.len();
            let mut i: usize = 0;
            while i < n
                invariant
                    n == old_sides.len(),
                    sides@.len() == n,
                    0 <= i <= n,
                    forall|j: int| 0 <= j < i ==> sides@[j] == promote_dedicated(old_sides)[j],
                    forall|j: int| i <= j < n ==> sides@[j] == old_sides[j],
                decreases n - i,
            {
                if sides.0[i] == NetworkType::DedicatedServer {
                    sides.0.set(i, NetworkType::LocalServer);
                }
                i = i + 1;
            }
            proof {
                assert(sides@ =~= promote_dedicated(old_sides));
            }
            sides.insert_side(NetworkType::Client);
            (sides, true)
        },
    }
}

/// Which connection tables (and, for messaging, which registries and polling
/// systems) a process needs.
#[derive(Clone, Copy, Debug, PartialEq, Eq, Structural)]
pub struct ConnectionSetup {
    pub client: bool,
    pub server: bool,
}

pub open spec fn connection_setup_spec(f: SideFlags) -> ConnectionSetup {
    if f.is_client || f.is_local_server {
        ConnectionSetup { client: true, server: f.is_local_server }
    } else {
        ConnectionSetup { client: false, server: f.is_dedicated_server }
    }
}

/// A client or a local server keeps client connections; a local or a
/// dedicated server keeps server connections.
pub fn connection_setup(flags: SideFlags) -> (r: ConnectionSetup)
    ensures
        r == connection_setup_spec(flags),
{
    if flags.is_client || flags.is_local_server {
        ConnectionSetup { client: true, server: flags.is_local_server }
    } else {
        ConnectionSetup { client: false, server: flags.is_dedicated_server }
    }
}

/// What the authentication plugin installs.
#[derive(Clone, Copy, Debug, PartialEq, Eq, Structural)]
pub struct AuthenticationSetup {
    /// Session table and the peer checks of a server.
    pub server: bool,
    /// Authentication of the local peer of a local server.
    pub local_peer: bool,
    /// Port authentication of a client.
    pub client: bool,
}

pub fn authentication_setup(flags: SideFlags) -> (r: AuthenticationSetup)
    ensures
        r.server == (flags.is_dedicated_server || flags.is_local_server),
        r.local_peer == (r.server && flags.is_local_server),
        r.client == flags.is_client,
{
    let server = flags.is_dedicated_server || flags.is_local_server;
    AuthenticationSetup { server, local_peer: server && flags.is_local_server, client: flags.is_client }
}

/// What registering one message type does: which received-message event
/// kinds are created and which registries give the type a fresh id.
#[derive(Clone, Copy, Debug, PartialEq, Eq, Structural)]
pub struct RegistrationPlan {
    pub add_client_messages: bool,
    pub add_server_messages: bool,
    pub register_client: bool,
    pub register_server: bool,
}

pub open spec fn registration_plan_spec(f: SideFlags, client_known: bool, server_known: bool) -> RegistrationPlan {
    if f.is_client || f.is_local_server {
        RegistrationPlan {
            add_client_messages: !client_known,
            add_server_messages: f.is_local_server && !server_known,
            register_client: !client_known,
            register_server: f.is_local_server && !server_known,
        }
    } else if f.is_dedicated_server {
        RegistrationPlan {
            add_client_messages: false,
            add_server_messages: !server_known,
            register_client: false,
            register_server: !server_known,
        }
    } else {
        RegistrationPlan {
            add_client_messages: false,
            add_server_messages: false,
            register_client: false,
            register_server: false,
        }
    }
}

/// `client_known` / `server_known`: whether the events for messages of this
/// type received from the server / from peers already exist.
pub fn registration_plan(flags: SideFlags, client_known: bool, server_known: bool) -> (r: RegistrationPlan)
    ensures
        r == registration_plan_spec(flags, client_known, server_known),
        r.register_client == r.add_client_messages,
        r.register_server == r.add_server_messages,
        r.add_client_messages == ((flags.is_client || flags.is_local_server) && !client_known),
        r.add_server_messages == ((flags.is_local_server || (flags.is_dedicated_server && !flags.is_client))
            && !server_known),
{
    let mut found_client = false;
    let mut found_server = false;
    let mut add_client_messages = false;
    let mut add_server_messages = false;
    if flags.is_client || flags.is_local_server {
        if !client_known {
            add_client_messages = true;
        } else {
            found_client = true;
        }
        if flags.is_local_server {
            if !server_known {
                add_server_messages = true;
            } else {
                found_server = true;
            }
        }
    } else if flags.is_dedicated_server {
        if !server_known {
            add_server_messages = true;
        } else {
            found_server = true;
        }
    }
    let mut register_client = false;
    let mut register_server = false;
    if flags.is_client || flags.is_local_server {
        if !found_client {
            register_client = true;
        }
        if !found_server && flags.is_local_server {
            register_server = true;
        }
    } else if flags.is_dedicated_server && !found_server {
        register_server = true;
    }
    RegistrationPlan { add_client_messages, add_server_messages, register_client, register_server }
}

/// Adding the client plugin and the server plugin to a fresh process, in
/// either order and before messaging, makes it a client and a local server
/// and never a dedicated server.
pub proof fn lemma_plugin_order_does_not_matter()
    ensures
        ({
            let client_first = server_plugin_spec(Some(client_plugin_spec(None, false).0), false);
            let server_first = client_plugin_spec(Some(server_plugin_spec(None, false).0), false);
            &&& client_first.1 && server_first.1
            &&& client_first.0.to_set() == server_first.0.to_set()
            &&& flags_of(client_first.0) == (SideFlags {
                is_client: true,
                is_local_server: true,
                is_dedicated_server: false,
            })
            &&& flags_of(server_first.0) == flags_of(client_first.0)
        }),
{
    let c = seq![NetworkType::Client];
    let client_first = c.push(NetworkType::LocalServer);
    assert(c.contains(NetworkType::Client)) by {
        assert(c[0] == NetworkType::Client);
    }
    let d = seq![NetworkType::DedicatedServer];
    let server_first = promote_dedicated(d).push(NetworkType::Client);
    assert(promote_dedicated(d) =~= seq![NetworkType::LocalServer]);
    assert(client_first =~= seq![NetworkType::Client, NetworkType::LocalServer]);
    assert(server_first =~= seq![NetworkType::LocalServer, NetworkType::Client]);
    assert(client_first.to_set() =~= server_first.to_set()) by {
        assert forall|t: NetworkType| client_first.to_set().contains(t) <==> server_first.to_set().contains(t) by {
            if client_first.contains(t) {
                let k = choose|k: int| 0 <= k < client_first.len() && client_first[k] == t;
                assert(server_first[1 - k] == t);
            }
            if server_first.contains(t) {
                let k = choose|k: int| 0 <= k < server_first.len() && server_first[k] == t;
                assert(client_first[1 - k] == t);
            }
        }
    }
    assert(client_first[0] == NetworkType::Client);
    assert(client_first[1] == NetworkType::LocalServer);
    assert(server_first[1] == NetworkType::Client);
    assert(server_first[0] == NetworkType::LocalServer);
    assert(!client_first.contains(NetworkType::DedicatedServer));
    assert(!server_first.contains(NetworkType::DedicatedServer));
}

/// Registering the same message type a second time registers nothing:
/// the first registration created the events that mark the type as known.
pub proof fn lemma_registration_is_once(f: SideFlags, client_known: bool, server_known: bool)
    ensures
        ({
            let p = registration_plan_spec(f, client_known, server_known);
            let q = registration_plan_spec(
                f,
                client_known || p.add_client_messages,
                server_known || p.add_server_messages,
            );
            !q.register_client && !q.register_server && !q.add_client_messages
                && !q.add_server_messages
        }),
{
}

/// A process registers a message type in a registry exactly when it
/// creates the events for messages of that type on that side: a client or
/// local server registers a type it does not know yet on the client side,
/// and a server (local, or dedicated and not a client) on the server side.
pub proof fn law_registration_follows_sides(f: SideFlags, client_known: bool, server_known: bool)
    ensures
        ({
            let p = registration_plan_spec(f, client_known, server_known);
            &&& p.register_client == p.add_client_messages
            &&& p.register_server == p.add_server_messages
            &&& p.register_client == ((f.is_client || f.is_local_server) && !client_known)
            &&& p.register_server == ((f.is_local_server || (f.is_dedicated_server && !f.is_client)) && !server_known)
        }),
{
}

} // verus!
