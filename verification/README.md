# vrand

Randomness derived from live public data. Two sources (Wikimedia
EventStreams and RIPE RIS Live) each fill a rolling 256 KiB window of
payload bytes; H1 and H2 are the SHA-256 digests of the windows, and the
final digest is H3 = SHA-256(H1 || H2). Integers in an inclusive range are
drawn from H3 by rejection sampling.

Layout:

- `src/` — the verified library (Verus):
  - `buffer.rs`: the rolling window and its laws;
  - `framing.rs`: line framing of a stream and each source's payloads;
  - `feed.rs`: a source's stream, across connections, turned into its window
    and source state;
  - `state.rs`: per-source state and the final digest;
  - `sampling.rs`: rejection sampling into a range, and its uniformity;
  - `hashing.rs`, `utf8.rs`, `hexdigits.rs`: SHA-256, UTF-8 validation and
    hexadecimal text from outside code.
- `app/` — the command line: HTTP streaming, dashboard, printing.
- `tests/` — tests of the library.
