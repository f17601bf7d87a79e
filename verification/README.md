# casync_rs

A minimal casync: `make` splits a file into content-defined chunks (a buzhash
rolling hash over 15 bytes; a chunk ends where the hash equals the hash of
a fixed pattern, once it is longer than 512000 and shorter than 1024000
bytes, and a chunk that reaches 1024000 bytes ends there), stores each chunk zstd-compressed under the hex SHA-256 of its
contents, and writes an index of 70-byte records (64 bytes of name, 6 bytes of
big-endian size). `extract` reads the index and concatenates the decoded
chunks it lists, from the configured store (or from `./default.castr`,
where chunks are downloaded to, when the store is a URL).

- `src/` is the library, verified with Verus: `chunker` (configuration,
  chunking, index records), `assembler` (reading the index back, paths, URLs),
  `extracter` (download locations), `rolling` and `codec` (the trusted
  wrappers around `hash-roll`, `rust-crypto` and `zstd`), `roundtrip` (the
  proofs that `extract` gives back what `make` chunked).
- `app/` is the command line program: argument parsing, files and HTTP.
- `tests/` run the library on concrete inputs.
