use networkinator::messages::MessageInfos;

#[test]
fn envelope_bytes_follow_postcard() {
    let m = MessageInfos { message_id: 300, message: vec![1, 2, 3] };
    assert_eq!(m.to_bytes(), vec![0xAC, 0x02, 0x03, 1, 2, 3]);
    let small = MessageInfos { message_id: 5, message: vec![] };
    assert_eq!(small.to_bytes(), vec![5, 0]);
}

#[test]
fn envelope_roundtrip() {
    let m = MessageInfos { message_id: 70000, message: (0..200u8).collect() };
    let back = MessageInfos::from_bytes(&m.to_bytes()).unwrap();
    assert_eq!(back.message_id, 70000);
    assert_eq!(back.message, m.message);
}

#[test]
fn envelope_rejects_truncated_bytes() {
    assert!(MessageInfos::from_bytes(&vec![0x80]).is_none());
    assert!(MessageInfos::from_bytes(&vec![1, 5, 1, 2]).is_none());
}
