use networkinator::framing::{frame_message, BytesOptions, OrderOptions};
use networkinator::sessions::PeerSessions;
use std::collections::HashMap;

#[test]
fn authenticate_in_place() {
    let mut s: PeerSessions<&str> = PeerSessions::new();
    s.insert_anonymous(10, "sock");
    assert!(!s.is_session_authenticated(10));
    s.authenticate_peer(10, 77, None);
    assert!(s.is_session_authenticated(10));
    assert!(s.is_peer_connected(77));
    let (session, entry) = s.peer_connection(77).unwrap();
    assert_eq!(session, 10);
    assert_eq!(entry.connection, "sock");
}

#[test]
fn authenticate_moves_session() {
    let mut s: PeerSessions<&str> = PeerSessions::new();
    s.insert_anonymous(10, "sock");
    s.authenticate_peer(10, 77, Some(20));
    assert!(!s.is_session_authenticated(10));
    assert!(s.connections().get(&10).is_none());
    assert!(s.is_session_authenticated(20));
    assert_eq!(s.peer_connection(77).unwrap().0, 20);
}

#[test]
fn authenticate_unknown_session_changes_nothing() {
    let mut s: PeerSessions<&str> = PeerSessions::new();
    s.authenticate_peer(10, 77, None);
    assert!(!s.is_peer_connected(77));
    assert!(s.connections().is_empty());
}

#[test]
fn disconnect_by_peer_or_by_session() {
    let mut s: PeerSessions<&str> = PeerSessions::new();
    s.insert_anonymous(1, "a");
    s.insert_anonymous(2, "b");
    s.authenticate_peer(1, 100, None);
    let dropped = s.disconnect_peer_or_session(100).unwrap();
    assert_eq!(dropped.connection, "a");
    assert!(s.connections().get(&1).is_none());
    assert!(s.is_peer_connected(100));
    let dropped = s.disconnect_peer_or_session(2).unwrap();
    assert_eq!(dropped.connection, "b");
    assert!(s.disconnect_peer_or_session(3).is_none());
}

#[test]
fn remove_disconnected_forgets_peer() {
    let mut s: PeerSessions<&str> = PeerSessions::new();
    s.insert_anonymous(1, "a");
    s.authenticate_peer(1, 100, None);
    assert!(s.remove_disconnected(1, Some(100)).is_some());
    assert!(!s.is_peer_connected(100));
    assert!(s.remove_disconnected(1, None).is_none());
}

#[test]
fn datagrams_create_sessions() {
    let mut s: PeerSessions<u8> = PeerSessions::new();
    let mut inbox: HashMap<u128, (Vec<Vec<u8>>, Option<u128>)> = HashMap::new();
    s.receive_datagram(5, vec![1, 2], 9, &mut inbox);
    assert_eq!(inbox.get(&5).unwrap(), &(vec![vec![1, 2]], None));
    assert_eq!(s.connections().get(&5).unwrap().connection, 9);
    s.authenticate_peer(5, 50, None);
    s.receive_datagram(5, vec![3], 99, &mut inbox);
    assert_eq!(inbox.get(&5).unwrap(), &(vec![vec![3]], Some(50)));
    assert_eq!(s.connections().get(&5).unwrap().connection, 9);
}

#[test]
fn buffered_messages_are_extracted_per_session() {
    let mut s: PeerSessions<()> = PeerSessions::new();
    s.insert_anonymous(1, ());
    s.insert_anonymous(2, ());
    s.authenticate_peer(1, 11, None);
    let f1 = frame_message(&vec![1, 1], &BytesOptions::U32, &OrderOptions::LittleEndian).unwrap();
    let f2 = frame_message(&vec![2], &BytesOptions::U32, &OrderOptions::LittleEndian).unwrap();
    let mut data = f1.clone();
    data.extend_from_slice(&f2);
    data.push(0);
    s.append_received(1, &data);
    s.append_received(2, &f2[..3]);
    let out = s.extract_peers_messages(&BytesOptions::U32, &OrderOptions::LittleEndian);
    assert_eq!(out.len(), 1);
    assert_eq!(out.get(&1).unwrap(), &(vec![vec![1, 1], vec![2]], Some(11)));
    assert_eq!(s.connections().get(&1).unwrap().internal_buffer, vec![0]);
    assert_eq!(s.connections().get(&2).unwrap().internal_buffer, f2[..3].to_vec());
}

#[test]
fn anonymous_and_authenticated_sessions_are_listed() {
    let mut s: PeerSessions<()> = PeerSessions::new();
    s.insert_anonymous(1, ());
    s.insert_anonymous(2, ());
    s.insert_anonymous(3, ());
    s.authenticate_peer(2, 20, None);
    s.authenticate_peer(3, 30, Some(33));
    let mut anonymous = s.anonymous_sessions();
    anonymous.sort();
    assert_eq!(anonymous, vec![1]);
    let mut authenticated = s.authenticated_sessions();
    authenticated.sort();
    assert_eq!(authenticated, vec![(2, 20), (33, 30)]);
}
