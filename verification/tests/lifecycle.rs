use networkinator::client_tcp::TcpPortClientState;
use networkinator::lifecycle::{admit_peer, peer_limit, ping_due, server_silent, session_expired, PortLifecycle};

#[test]
fn port_starts_once_and_restarts_after_down() {
    let mut p = PortLifecycle::new();
    assert!(p.begin_start());
    assert!(!p.begin_start());
    assert_eq!(p.poll_started(false), (false, false));
    assert_eq!(p.poll_started(true), (true, true));
    assert_eq!(p.poll_started(true), (true, false));
    assert!(!p.begin_start());
    let (down, err, was) = p.poll_disconnected(Some(("boom", true)));
    assert!(down && was);
    assert_eq!(err, Some("boom"));
    assert!(p.begin_start());
    let (down, err, was) = p.poll_disconnected::<&str>(None);
    assert!(!down && err.is_none() && was);
}

#[test]
fn datagram_time_rules() {
    assert!(session_expired(None, 120, 0));
    assert!(!session_expired(Some(1), 500, 119));
    assert!(session_expired(Some(1), 0, 120));
    assert!(server_silent(true, 120));
    assert!(!server_silent(false, 500));
    assert!(ping_due(10));
    assert!(!ping_due(9));
}

#[test]
fn reconnecting_client_state() {
    let mut s = TcpPortClientState::new();
    assert!(s.as_main_port());
    assert!(s.start());
    assert!(!s.start());
    s.on_connected();
    assert!(s.begin_listening());
    assert!(!s.begin_listening());
    s.set_port_authenticated();
    s.connection_down();
    assert!(!s.connected && !s.listening && !s.authenticated && s.main_port);
    assert!(s.reconnect());
    assert!(s.connecting && s.reconnecting);
    assert!(!s.reconnect());
}

#[test]
fn peer_limit_zero_means_unlimited() {
    assert_eq!(peer_limit(0), None);
    assert_eq!(peer_limit(5), Some(5));
}

#[test]
fn counted_ports_need_a_free_place() {
    assert_eq!(admit_peer(false, None::<u8>), Some(None));
    assert_eq!(admit_peer(true, Some(7u8)), Some(Some(7)));
    assert_eq!(admit_peer(true, None::<u8>), None);
}
