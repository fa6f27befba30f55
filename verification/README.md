# protowave

The core of a federated, real-time collaborative wave server, written in
Verus. The functions in `src/` carry contracts that Verus proves; the few
calls into outside crates and std (ed25519, argon2, BLAKE3, FastCDC, yrs,
the clock, randomness) go through small trusted wrappers whose contracts
state what those libraries document.

- `id`, `hexcode`, `signing`: participant / wave / wavelet identifiers,
  hex, and the server's ed25519 keys (signatures through `ed25519-dalek`).
- `wire`, `fields`, `protocol`, `fedwire`, `ws`: the envelope framing, a
  protobuf field codec, and the client and server-to-server messages, with
  round-trip laws.
- `auth`: the echo handshake (`EchoSession::step`), cookies, registration
  and login rules (argon2 through `argon2`).
- `store`, `tables`, `engine`: the update log and snapshot formats, the
  embedded tables, and the live CRDT document (through `yrs`), into which
  the agent writes its reply blips.
- `waves`, `federation`, `limits`, `cas`, `shares`, `attachments`,
  `models`, `agent`, `search`, `translate`, `settings`: the wave, peer,
  rate-limit, content-addressing (`blake3`, `fastcdc`), inference routing
  and translation rules.

`app/main.rs` is the server binary: it binds the socket and moves frames
between the WebSocket and `EchoSession::step`. `tests/` holds the tests.
