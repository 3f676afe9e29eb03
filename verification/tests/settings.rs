use networkinator::framing::{BytesOptions, OrderOptions};
use networkinator::settings::{
    TcpClientSettings, TcpConfigsClient, TcpServerSettings, UdpClientSettings, UdpServerSettings,
};

#[test]
fn default_settings() {
    let t = TcpServerSettings::default();
    assert_eq!((t.address, t.port), ((127, 0, 0, 1), 8080));
    assert!(matches!(t.bytes, BytesOptions::U32));
    assert!(matches!(t.order, OrderOptions::LittleEndian));
    let c = TcpClientSettings::default();
    assert_eq!(c.buffer_size, 1024);
    let u = UdpClientSettings::default();
    assert_eq!((u.port, u.server_port, u.buffer_size), (0, 8080, 1024));
    let s = UdpServerSettings::default();
    assert_eq!((s.port, s.buffer_size), (8080, 1024));
    assert_eq!(TcpConfigsClient::default().port, 8080);
}

#[test]
fn builders_change_one_field() {
    let c = TcpClientSettings::default()
        .with_port(9000)
        .with_bytes_options(BytesOptions::U16)
        .with_order_options(OrderOptions::BigEndian)
        .with_buffer_size(64);
    assert_eq!((c.port, c.buffer_size), (9000, 64));
    assert!(matches!(c.bytes, BytesOptions::U16));
    assert!(matches!(c.order, OrderOptions::BigEndian));
    let u = UdpClientSettings::default().with_port(1).with_server_port(2).with_buffer_size(3);
    assert_eq!((u.port, u.server_port, u.buffer_size), (1, 2, 3));
    let s = UdpServerSettings::default().with_port(7).with_buffer_size(8);
    assert_eq!((s.port, s.buffer_size), (7, 8));
    assert_eq!(TcpServerSettings::default().with_port(8081).port, 8081);
    assert_eq!(TcpConfigsClient::default().with_port(8082).port, 8082);
}
