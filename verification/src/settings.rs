//! Settings of the stream and datagram ports: where they listen or
//! connect, how messages are framed, and how much is read at once. The
//! hooks that adjust a freshly opened socket belong to the sockets' owner.

use vstd::prelude::*;
use crate::framing::{BytesOptions, OrderOptions};

verus! {

/// The loopback address every port uses.
pub open spec fn loopback() -> (u8, u8, u8, u8) {
    (127, 0, 0, 1)
}

/// Settings of a stream server port.
#[derive(Clone, Copy, Debug)]
pub struct TcpServerSettings {
    pub address: (u8, u8, u8, u8),
    pub port: u16,
    pub bytes: BytesOptions,
    pub order: OrderOptions,
}

impl Default for TcpServerSettings {
    fn default() -> (r: Self)
        ensures
            r.address == loopback(),
            r.port == 8080,
            r.bytes == BytesOptions::U32,
            r.order == OrderOptions::LittleEndian,
    {
        TcpServerSettings {
            address: (127, 0, 0, 1),
            port: 8080,
            bytes: BytesOptions::U32,
            order: OrderOptions::LittleEndian,
        }
    }
}

impl TcpServerSettings {
    /// Listens on `port`.
    pub fn with_port(self, port: u16) -> (r: Self)
        ensures
            r == (TcpServerSettings { port, ..self }),
    {
        TcpServerSettings { port, ..self }
    }
}

/// Settings of a stream client port.
#[derive(Clone, Copy, Debug)]
pub struct TcpClientSettings {
    pub address: (u8, u8, u8, u8),
    pub port: u16,
    pub bytes: BytesOptions,
    pub order: OrderOptions,
    pub buffer_size: usize,
}

impl Default for TcpClientSettings {
    fn default() -> (r: Self)
        ensures
            r.address == loopback(),
            r.port == 8080,
            r.bytes == BytesOptions::U32,
            r.order == OrderOptions::LittleEndian,
            r.buffer_size == 1024,
    {
        TcpClientSettings {
            address: (127, 0, 0, 1),
            port: 8080,
            bytes: BytesOptions::U32,
            order: OrderOptions::LittleEndian,
            buffer_size: 1024,
        }
    }
}

impl TcpClientSettings {
    /// Connects to `port`.
    pub fn with_port(self, port: u16) -> (r: Self)
        ensures
            r == (TcpClientSettings { port, ..self }),
    {
        TcpClientSettings { port, ..self }
    }

    /// Frames messages with a length of this width.
    pub fn with_bytes_options(self, bytes: BytesOptions) -> (r: Self)
        ensures
            r == (TcpClientSettings { bytes, ..self }),
    {
        TcpClientSettings { bytes, ..self }
    }

    /// Frames messages with a length in this byte order.
    pub fn with_order_options(self, order: OrderOptions) -> (r: Self)
        ensures
            r == (TcpClientSettings { order, ..self }),
    {
        TcpClientSettings { order, ..self }
    }

    /// Reads up to `buffer_size` bytes at once.
    pub fn with_buffer_size(self, buffer_size: usize) -> (r: Self)
        ensures
            r == (TcpClientSettings { buffer_size, ..self }),
    {
        TcpClientSettings { buffer_size, ..self }
    }
}

/// Settings of a reconnecting stream client port.
#[derive(Clone, Copy, Debug)]
pub struct TcpConfigsClient {
    pub address: (u8, u8, u8, u8),
    pub port: u16,
    pub bytes: BytesOptions,
    pub order: OrderOptions,
}

impl Default for TcpConfigsClient {
    fn default() -> (r: Self)
        ensures
            r.address == loopback(),
            r.port == 8080,
            r.bytes == BytesOptions::U32,
            r.order == OrderOptions::LittleEndian,
    {
        TcpConfigsClient {
            address: (127, 0, 0, 1),
            port: 8080,
            bytes: BytesOptions::U32,
            order: OrderOptions::LittleEndian,
        }
    }
}

impl TcpConfigsClient {
    /// Connects to `port`.
    pub fn with_port(self, port: u16) -> (r: Self)
        ensures
            r == (TcpConfigsClient { port, ..self }),
    {
        TcpConfigsClient { port, ..self }
    }
}

/// Settings of a datagram client port.
#[derive(Clone, Copy, Debug)]
pub struct UdpClientSettings {
    pub address: (u8, u8, u8, u8),
    pub port: u16,
    pub server_port: u16,
    pub buffer_size: usize,
}

impl Default for UdpClientSettings {
    fn default() -> (r: Self)
        ensures
            r.address == loopback(),
            r.port == 0,
            r.server_port == 8080,
            r.buffer_size == 1024,
    {
        UdpClientSettings {
            address: (127, 0, 0, 1),
            port: 0,
            server_port: 8080,
            buffer_size: 1024,
        }
    }
}

impl UdpClientSettings {
    /// Binds to `port` (0: any free port).
    pub fn with_port(self, port: u16) -> (r: Self)
        ensures
            r == (UdpClientSettings { port, ..self }),
    {
        UdpClientSettings { port, ..self }
    }

    /// Sends to the server's `server_port`.
    pub fn with_server_port(self, server_port: u16) -> (r: Self)
        ensures
            r == (UdpClientSettings { server_port, ..self }),
    {
        UdpClientSettings { server_port, ..self }
    }

    /// Receives datagrams of up to `buffer_size` bytes.
    pub fn with_buffer_size(self, buffer_size: usize) -> (r: Self)
        ensures
            r == (UdpClientSettings { buffer_size, ..self }),
    {
        UdpClientSettings { buffer_size, ..self }
    }
}

/// Settings of a datagram server port.
#[derive(Clone, Copy, Debug)]
pub struct UdpServerSettings {
    pub address: (u8, u8, u8, u8),
    pub port: u16,
    pub buffer_size: usize,
}

impl Default for UdpServerSettings {
    fn default() -> (r: Self)
        ensures
            r.address == loopback(),
            r.port == 8080,
            r.buffer_size == 1024,
    {
        UdpServerSettings {
            address: (127, 0, 0, 1),
            port: 8080,
            buffer_size: 1024,
        }
    }
}

impl UdpServerSettings {
    /// Listens on `port`.
    pub fn with_port(self, port: u16) -> (r: Self)
        ensures
            r == (UdpServerSettings { port, ..self }),
    {
        UdpServerSettings { port, ..self }
    }

    /// Receives datagrams of up to `buffer_size` bytes.
    pub fn with_buffer_size(self, buffer_size: usize) -> (r: Self)
        ensures
            r == (UdpServerSettings { buffer_size, ..self }),
    {
        UdpServerSettings { buffer_size, ..self }
    }
}

} // verus!
