# scylla

Scylla is a mix-net packet format with fragmentation: a message is split into
fragments, the fragments go through an all-or-nothing transform, and each is
sent in its own onion along its own path to a common last node, which
reassembles the message only once every fragment has arrived. Single-use reply
blocks let a recipient answer anonymously. The crate also holds a latency
simulation of fragmented delivery with per-fragment or whole-message
acknowledgements.

The library is written in Verus and verified.

## Layout

- `src/bytes.rs`: byte strings (XOR, concatenation, big-endian integers).
- `src/primitives.rs`: the calls into the hash, cipher and curve crates, each
  with the contract it is trusted to meet.
- `src/keys.rs`: key derivations, the header MAC and the payload cipher.
- `src/aont.rs`: the all-or-nothing transform and its inverse.
- `src/onion.rs`: nodes, onion creation and processing, reply blocks and
  reassembly, each specified over byte sequences.
- `src/laws.rs`: what holds across the format's operations. When every node
  holds the private key of its public key (the curve's Diffie-Hellman
  agreement, taken as a premise), each hop of a fragment's path relays
  exactly the onion meant for the next node, the last hop delivers the
  fragment with its index and set, and reassembly of the delivered
  fragments gives back the destination and the message.
- `src/sim.rs`, `src/simulation.rs`: the simulation's data and its step,
  which takes the random draws it needs as arguments.
- `src/timeline.rs`: what every step keeps (events happen in time order).
- `app/`: the programs: the latency experiment (random draws, floating-point
  statistics, CSV output) and the onion size tables.
- `tests/`: tests of the library.
