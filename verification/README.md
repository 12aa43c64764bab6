# chapter_4

A small HTTP/1.1 server's core, written in Verus: the request-line parser, an
open-addressing header multi-map, line splitting for streamed reads, buffer
compaction and a few hash helpers. Every function under `src/` carries a
contract, and Verus proves it for all of them but three small trusted
wrappers around outside code, whose contracts are taken as given:
`hash_key` (rapidhash), `find_byte` (memchr) and `reserve_buckets`
(`Vec::reserve_exact`). The laws that relate several operations (reading back
what was written, what a refused request leaves behind, and so on) are public
proof functions named `law_*`.

Layout:

- `src/header/map.rs` — the header map, its model (`MapModel`), and its laws.
- `src/header/map2.rs` — a second, borrowing map layout that only allocates.
- `src/request/` — the request-line parser driven by a byte buffer.
- `src/stream_request.rs` — the parser driven by whole lines.
- `src/readers.rs` — splitting read chunks into lines.
- `src/connection.rs` (parsing from a read buffer and compacting it), `src/config.rs`, `src/utils.rs`, `src/hashers.rs`,
  `src/search.rs` — buffer compaction, settings, byte folding, hashing and
  byte search.
- `app/` — the program: sockets, files, async tasks and channels, which call
  into the library.
- `tests/` — tests run against the compiled library with the real outside
  crates.
