# telesthete

A protocol library for peers that share a secret: packets sealed under the key of a
band, streams that drop what is stale, channels that deliver in order, boards that converge,
drops that move files by their digest, sessions over a stream and datagrams side by side, and
a hub that relays sealed packets between peers without opening them.

- `src/` is the library. Every state machine and every wire format in it is proved against its
  contract with Verus. It does no I/O: each part takes what came in and the time, and returns
  what to send and what to report.
- `tests/` runs the library on concrete values, with the cryptographic crates linked.
- `app/` is the sockets, timers, files and JSON around it.

What is taken on trust stands in `src/primitives.rs` (randomness, hashes, key derivation,
sealing, key agreement), `src/hub/tls.rs` (the clock and the certificate of the hub),
`src/hex.rs` and `src/discovery.rs` (two functions on strings). Each such function says in its
doc comment what is claimed of the code it calls.
