# nexa

The NEXA messenger core and gateway logic as a Verus-verified library.

- `src/` — the library. Every function is verified by Verus and states
  its result in an `ensures` contract, except the generators of fresh
  random keys (such as `crypto::generate_key`), whose bytes nothing can
  predict. The few calls into cryptographic, serialisation and
  memory-wiping crates go through small trusted wrappers (`primitives.rs`,
  and the postcard calls in `envelope.rs`). Key and chain types wipe their
  secrets with `zeroize` when dropped, and the handshake and ratchets wipe
  their intermediate key material once it is used.
  - `wire`, `protocol`, `envelope`, `transport`: byte formats and codecs.
  - `crypto`, `identity`, `prekey_store`, `session`, `ratchet`, `receive`,
    `dh_ratchet`: keys, handshake and message ratchets.
  - `storage`: encrypted records and the journal's naming and recovery rules.
  - `relay`, `auth`, `prekey_registry`, `gateway`: the gateway's state
    machines and decisions.
- `tests/` — executable tests against the compiled library.
- `app/` — the HTTP/WebSocket gateway binary and the on-disk journal:
  clocks, sockets, locks, files and JSON around the library.
