# grand_pattern_net

Gossip layer for the Grand Pattern: rooms carry a vibe, graphs of rooms
exchange murmurs (compact 32-byte packets), and nodes coordinate ticks.

## Layout

- `src/` — the verified library (Verus). The vibe is a type parameter; the
  arithmetic on vibes (blending, diffusion, quantisation to wire bytes) is
  passed in as closures, and every contract is stated relative to what those
  closures return.
  - `murmur.rs` — murmurs, expiry and decay.
  - `room.rs` — rooms and their bounded perception buffer.
  - `gossip.rs` — cell graphs (rooms and adjacency lists) and gossip nodes
    (peers, de-duplication of received murmurs), with the laws about them.
  - `coord.rs` — coordinated ticks of a fleet of nodes: every node takes in
    the murmurs of all the other nodes; the law that rooms spread.
  - `serialize.rs` — the murmur and graph-state wire formats and their
    read-back laws.
  - `order.rs` — the byte-wise order in which ids are written.
  - `tcp_transport.rs`, `discovery.rs` — framing and the per-read
    connection decisions, discovery messages, the scan step and peer
    addresses.
- `app/` — the 16-dimensional `f64` vibe, sockets (UDP, TCP, multicast) and
  the library's operations specialised to that vibe.
- `tests/` — tests of the library.
