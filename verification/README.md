# networkinator

Networking for bevy games: a server and clients keep connections, each with a
main port and secondary ports (stream or datagram), authenticate peers, and
exchange typed messages.

- `src/` is the verified library: the roles of a process and the plugin
  decisions (`sides`), connections and their ports (`connection`), the
  sessions a server port keeps (`sessions`), length-prefixed framing and
  datagram session ids (`framing`), the message envelope (`messages`), the
  registry of message types (`registry`), routing of received messages
  (`messaging`), the authentication handshake (`auth`), the per-frame
  server and client steps (`server_network`, `client_network`), port life
  cycles and timeouts (`lifecycle`, `client_tcp`) and port settings
  (`settings`).
- `app/` holds what needs the engine, the async runtime or sockets: the
  bevy plugins and resources, and the TCP and UDP ports.
- `tests/` exercise the library with ports that live in memory.
