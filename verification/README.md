# dope_tls

TLS 1.3 connections over pooled buffers, written in Rust and verified with Verus.

- `src/` is the library. Every function in it is verified against its contract, except
  the small wrappers round `shin`, `o3`, `rustls`, `webpki-roots` and the standard
  library, which are marked `external_body` and say in their doc comment what they take
  for granted.
- `app/` puts the library on the `dope` runtime: the wires, the receive credits and the
  servers that take a guard or a verifier of the caller's own.
- `tests/` runs the library against the crates it is built on.

The main laws are public proof functions: what is written is what is read
(`reading_gives_back_what_was_written` and its kin), a peer is told of the end once
(`peer_is_told_once`), packing keeps plaintext (`packing_keeps_plaintext`), who comes
first is woken first (`first_come_first_woken`).
