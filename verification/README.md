# enet_rs

The [ENet](http://enet.bespin.org/) reliable UDP protocol as a verified engine:
reliable, unreliable and unsequenced packets on ordered channels, with
fragmentation, retransmission, flow control and graceful disconnects.

`src/` is the engine. `HostTask::step` takes an event (a datagram, a request of
a user, a tick of the clock) and appends what is to be done (datagrams to send,
packets to deliver, connections to hand out). It does no I/O. Every function
has a contract that Verus proves.

- `protocol`: headers, commands, the checksum, sequence numbers
- `channel`: ordering, fragment reassembly, duplicate detection
- `peer`: one connection: sending, receiving, round-trip times, retransmission
- `task`: a host: connections, datagrams, periodic service
- `laws`: what holds across operations and between two hosts: the handshake,
  the order of sending, the window, ordered delivery over a network that loses,
  repeats and reorders, bandwidth, teardown
- `buffer`: what is taken on trust of the `bytes` crate

`app/` puts the engine behind a UDP socket with tokio: `Host`, `Peer`, and
`Sink` and `Stream` on them.

`tests/` runs the engine, alone and as two hosts over a simulated network.
