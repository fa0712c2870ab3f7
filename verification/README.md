# udp_tcp_copycat

A simplified TCP-like protocol that runs over UDP, with its logic proved
correct in Verus.

- `src/segment.rs`: segments and their wire format (one flag byte, two
  big-endian 32-bit numbers, payload); encoding and decoding are proved to
  be inverse to each other.
- `src/connection.rs`: the state of one end of a connection and its
  decisions on received segments, application requests and retransmission
  timeouts; send and receive buffers, in-order delivery, acknowledgements,
  fast retransmission.
- `src/connection/laws.rs`, `src/connection/reorder.rs`: properties over
  several operations, among them delivery in order whatever the order of
  arrival.
- `src/handshake.rs`: the three-way handshake.
- `src/stream.rs`: the application's side of a stream (writes after
  shutdown, reads into small buffers, when a download chunk is complete).
- `src/gate.rs`: a barrier built on two channels of capacity one.
- `app/`: the command-line program and the asynchronous plumbing (UDP
  sockets, channels, threads, timers) that runs the library's decisions.
