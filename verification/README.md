# rumour

A SWIM-style cluster membership library: failure detection by direct and
indirect pings, peer exchange on join, and gossip of membership rumours
piggybacked on every control message.

The protocol logic is a state machine verified with Verus. Each event
(an inbound message, an expired timer, a join, a health check) is a method
of `RumourMill` that updates the member's state and returns the effects to
perform, in order: messages to send, timers to arm, and join or death
notifications for the application.

## Layout

- `src/mill.rs`: the state machine; every event handler has a contract
  over `MillView`.
- `src/node_state.rs`: liveness of peers (live set, round-robin probing
  order, pending pings, suspects).
- `src/gossip.rs`: the rumour store, ordered by remaining sends.
- `src/fixed_list.rs`: the five-slot lists carried on the wire.
- `src/codec.rs`, `src/address.rs`, `src/time.rs`: message, address and
  duration types.
- `src/cli.rs`, `src/node.rs`, `src/errors.rs`: reading the command line
  and configuring a member.
- `src/laws.rs`: properties of the protocol, proved over the contracts'
  spec functions.
- `app/`: the command-line program: argument parsing, the UDP codec, and
  the event loop that performs the effects.
