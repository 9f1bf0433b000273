# rustdht

A zero-hop distributed hash table. Every node keeps a table from ring tokens
to node addresses; a token belongs to the node with the smallest token at or
above it, wrapping around to the smallest token of the ring.

- `src/gossiping/service.rs`: the table operations (`lookup`, `add_token`,
  listings) and the gossiping membership service as a state machine
  (`start`, `GossipNode::handle_msg`, heartbeat targets and removal).
- `src/protocol.rs`: how registrations and peer tables change a node's tables.
- `src/omniscient/`, `src/service/omniscient.rs`: the two omniscient services.
- `src/chord/service.rs`: a Chord node's lookup over predecessor, successor
  and finger table.
- `src/message.rs`: the request and answer messages and their texts.
- `src/addr.rs`, `src/text.rs`: IPv4 socket addresses, their dotted-decimal
  text (written and read back) and decimal numerals.
- `app/main.rs`: the echo server's command line.
