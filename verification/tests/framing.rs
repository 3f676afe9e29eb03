use networkinator::framing::{
    datagram_session, encode_length_prefix, extract_messages_from_buffer, extract_uuid, frame_message, inject_uuid,
    prefix_max_length, prefix_width, read_number, BytesOptions, OrderOptions,
};

#[test]
fn length_prefix_u32_little_endian() {
    let p = encode_length_prefix(0x0102_0304, &BytesOptions::U32, &OrderOptions::LittleEndian).unwrap();
    assert_eq!(p, vec![0x04, 0x03, 0x02, 0x01]);
}

#[test]
fn length_prefix_u16_big_endian() {
    let p = encode_length_prefix(0x0A0B, &BytesOptions::U16, &OrderOptions::BigEndian).unwrap();
    assert_eq!(p, vec![0x0A, 0x0B]);
}

#[test]
fn length_prefix_too_long_for_width() {
    assert!(encode_length_prefix(256, &BytesOptions::U8, &OrderOptions::LittleEndian).is_none());
    assert!(encode_length_prefix(255, &BytesOptions::U8, &OrderOptions::LittleEndian).is_some());
    assert!(encode_length_prefix(u64::MAX, &BytesOptions::U64, &OrderOptions::BigEndian).is_some());
}

#[test]
fn prefix_widths_and_limits() {
    assert_eq!(prefix_width(&BytesOptions::U8), 1);
    assert_eq!(prefix_width(&BytesOptions::U16), 2);
    assert_eq!(prefix_width(&BytesOptions::U32), 4);
    assert_eq!(prefix_width(&BytesOptions::U64), 8);
    assert_eq!(prefix_max_length(&BytesOptions::U16), 0xffff);
}

#[test]
fn read_number_both_orders() {
    let buf = vec![9, 0x01, 0x02, 0x03, 9];
    assert_eq!(read_number(&buf, 1, 3, &OrderOptions::LittleEndian), 0x030201);
    assert_eq!(read_number(&buf, 1, 3, &OrderOptions::BigEndian), 0x010203);
}

#[test]
fn frame_then_extract_gives_message_back() {
    for bytes in [BytesOptions::U8, BytesOptions::U16, BytesOptions::U32, BytesOptions::U64] {
        for order in [OrderOptions::LittleEndian, OrderOptions::BigEndian] {
            let msg = vec![1u8, 2, 3, 4, 5];
            let mut buf = frame_message(&msg, &bytes, &order).unwrap();
            let out = extract_messages_from_buffer(&mut buf, &bytes, &order);
            assert_eq!(out, vec![msg.clone()]);
            assert!(buf.is_empty());
        }
    }
}

#[test]
fn extract_keeps_partial_frame() {
    let a = frame_message(&vec![7, 7], &BytesOptions::U32, &OrderOptions::LittleEndian).unwrap();
    let b = frame_message(&vec![8, 8, 8], &BytesOptions::U32, &OrderOptions::LittleEndian).unwrap();
    let mut buf = a.clone();
    buf.extend_from_slice(&b[..5]);
    let out = extract_messages_from_buffer(&mut buf, &BytesOptions::U32, &OrderOptions::LittleEndian);
    assert_eq!(out, vec![vec![7, 7]]);
    assert_eq!(buf, b[..5].to_vec());
    buf.extend_from_slice(&b[5..]);
    let out = extract_messages_from_buffer(&mut buf, &BytesOptions::U32, &OrderOptions::LittleEndian);
    assert_eq!(out, vec![vec![8, 8, 8]]);
    assert!(buf.is_empty());
}

#[test]
fn extract_streaming_equals_all_at_once() {
    let mut stream = Vec::new();
    for m in [vec![1u8], vec![], vec![2, 3, 4], vec![5; 300]] {
        stream.extend(frame_message(&m, &BytesOptions::U16, &OrderOptions::BigEndian).unwrap());
    }
    let mut whole = stream.clone();
    let all = extract_messages_from_buffer(&mut whole, &BytesOptions::U16, &OrderOptions::BigEndian);
    let mut piecewise = Vec::new();
    let mut buf = Vec::new();
    for chunk in stream.chunks(7) {
        buf.extend_from_slice(chunk);
        piecewise.extend(extract_messages_from_buffer(&mut buf, &BytesOptions::U16, &OrderOptions::BigEndian));
    }
    assert_eq!(all, piecewise);
    assert_eq!(all.len(), 4);
    assert!(buf.is_empty() && whole.is_empty());
}

#[test]
fn extract_from_short_buffer_takes_nothing() {
    let mut buf = vec![5, 0];
    let out = extract_messages_from_buffer(&mut buf, &BytesOptions::U32, &OrderOptions::LittleEndian);
    assert!(out.is_empty());
    assert_eq!(buf, vec![5, 0]);
}

#[test]
fn uuid_inject_extract_roundtrip() {
    let uuid: u128 = 0x0011_2233_4455_6677_8899_aabb_ccdd_eeff;
    let d = inject_uuid(vec![42, 43], uuid);
    assert_eq!(d.len(), 18);
    assert_eq!(d[0], 0x00);
    assert_eq!(d[15], 0xff);
    let (u, rest) = extract_uuid(&d).unwrap();
    assert_eq!(u, uuid);
    assert_eq!(rest, vec![42, 43]);
}

#[test]
fn uuid_extract_too_short() {
    assert!(extract_uuid(&vec![0u8; 15]).is_none());
}

#[test]
fn datagrams_name_their_session() {
    let d = inject_uuid(vec![1, 2], 0x0102);
    assert_eq!(datagram_session(&d), Some((0x0102, vec![1, 2])));
    let nil = inject_uuid(vec![1, 2], 0);
    assert_eq!(datagram_session(&nil), None);
    assert_eq!(datagram_session(&vec![9; 15]), None);
}
