use networkinator::sides::{
    apply_client_plugin, apply_server_plugin, authentication_setup, connection_setup, registration_plan,
    ConnectionSetup, CurrentNetworkSides, NetworkType, SideFlags,
};

fn set(v: &CurrentNetworkSides) -> Vec<NetworkType> {
    let mut s = v.0.clone();
    s.sort_by_key(|t| format!("{:?}", t));
    s
}

#[test]
fn sides_new_and_insert() {
    let mut s = CurrentNetworkSides::new(vec![NetworkType::Client]);
    s.insert_side(NetworkType::LocalServer);
    assert_eq!(s.0, vec![NetworkType::Client, NetworkType::LocalServer]);
    s.side().push(NetworkType::DedicatedServer);
    assert!(s.contains(NetworkType::DedicatedServer));
    let f = s.flags();
    assert!(f.is_client && f.is_local_server && f.is_dedicated_server);
}

#[test]
fn server_plugin_alone_is_dedicated() {
    let (s, go) = apply_server_plugin(None, false);
    assert!(go);
    assert_eq!(s.0, vec![NetworkType::DedicatedServer]);
}

#[test]
fn client_plugin_alone_is_client() {
    let (s, go) = apply_client_plugin(None, false);
    assert!(go);
    assert_eq!(s.0, vec![NetworkType::Client]);
}

#[test]
fn plugin_order_does_not_matter() {
    let (c, _) = apply_client_plugin(None, false);
    let (a, go1) = apply_server_plugin(Some(c), false);
    let (d, _) = apply_server_plugin(None, false);
    let (b, go2) = apply_client_plugin(Some(d), false);
    assert!(go1 && go2);
    assert_eq!(set(&a), set(&b));
    let f = a.flags();
    assert!(f.is_client && f.is_local_server && !f.is_dedicated_server);
}

#[test]
fn messaging_first_stops_setup() {
    let (c, _) = apply_client_plugin(None, false);
    let (a, go) = apply_server_plugin(Some(c), true);
    assert!(!go);
    assert_eq!(a.0, vec![NetworkType::Client]);
    let (d, _) = apply_server_plugin(None, false);
    let (b, go) = apply_client_plugin(Some(d), true);
    assert!(!go);
    assert_eq!(b.0, vec![NetworkType::DedicatedServer]);
}

#[test]
fn setups_follow_flags() {
    let client = SideFlags { is_client: true, is_local_server: false, is_dedicated_server: false };
    let local = SideFlags { is_client: true, is_local_server: true, is_dedicated_server: false };
    let dedicated = SideFlags { is_client: false, is_local_server: false, is_dedicated_server: true };
    assert_eq!(connection_setup(client), ConnectionSetup { client: true, server: false });
    assert_eq!(connection_setup(local), ConnectionSetup { client: true, server: true });
    assert_eq!(connection_setup(dedicated), ConnectionSetup { client: false, server: true });
    let a = authentication_setup(local);
    assert!(a.server && a.local_peer && a.client);
    let a = authentication_setup(dedicated);
    assert!(a.server && !a.local_peer && !a.client);
}

#[test]
fn registration_happens_once() {
    let local = SideFlags { is_client: true, is_local_server: true, is_dedicated_server: false };
    let p = registration_plan(local, false, false);
    assert!(p.add_client_messages && p.add_server_messages && p.register_client && p.register_server);
    let q = registration_plan(local, true, true);
    assert!(!q.add_client_messages && !q.add_server_messages && !q.register_client && !q.register_server);
    let dedicated = SideFlags { is_client: false, is_local_server: false, is_dedicated_server: true };
    let p = registration_plan(dedicated, false, false);
    assert!(!p.register_client && p.register_server && p.add_server_messages);
}
