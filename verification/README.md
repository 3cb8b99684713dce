# oni_net

The building blocks of a netcode-style UDP protocol, written in Verus:
sequence numbers and sequence buffers, reliable and regular packet
headers, a reliable endpoint (sending, receiving with acknowledgements, and fragment reassembly), replay protection, encrypted packet framing, connect and challenge
tokens, the client and server handshake state machines, and a few small
containers (an address-keyed map, a packet queue).

- `src/` is the verified library. Verus proves every function there
  against its contract; the few that only hand out random bytes or read
  the clock (`keygen`, `generate_nonce`, `time_secs`) promise nothing about
  the values. The calls into `chacha20poly1305`, `rand` and the system
  clock stand behind a handful of trusted wrappers in `crypto.rs` and
  `utils.rs`; their doc comments say what is taken on trust.
- `app/` holds what the library leaves to the program: UDP sockets, the
  millisecond clock that drives the client and server, connection handles
  and the bincode encoding of server lists.
- `tests/` runs the library on concrete values.
