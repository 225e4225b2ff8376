# PickleDB

An encrypted embedded database engine whose storage layer never sees
plaintext. Records are sealed with AES-256-GCM on the client, searched by
HMAC-SHA256 tokens, stored in 4096-byte slotted pages and logged in a
write-ahead log.

## Layout

- `src/` — the verified library (Verus):
  - `types`, `error`, `traits` — the shared values, errors and interfaces;
  - `page` — the slotted page, specified byte by byte, with the laws of
    insert, delete, update and compaction over the page's records;
  - `allocator` — page-id allocation with a LIFO free list and its encoding;
  - `index` — the blind search index (token → record ids), held as a list of
    entries compared byte by byte: a `HashMap` keyed by 32-byte token arrays
    gives the verifier no model of key equality, so a map keyed that way
    would let nothing about search be proved;
  - `cache` — the buffer pool with least-recently-used eviction;
  - `wal` — log framing, frame reading (a torn last frame ends the log),
    and the replay counters;
  - `record` — the byte layout of a stored record (the same bytes bincode
    writes for the record id and payload);
  - `token`, `key_manager`, `encryptor`, `client` — the client-side crypto,
    each call into `hmac`, `hkdf`, `aes-gcm` and `hex` behind a small
    trusted wrapper whose contract is stated in its doc comment;
  - `engine` — the engine's bookkeeping: record locations, remembered
    tokens, index, cache and allocator, one verified step per decision;
  - `ffi` — the result codes and insert tuple of the C interface;
  - `shell` — what the interactive shell does with a typed line.
- `tests/` — tests run against the compiled library.
- `app/` — the `pickledb` command-line tool, the file and log I/O, the
  engine driver that performs that I/O around the library's steps, and the
  C bindings.
