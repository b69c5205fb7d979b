# sit_core

The core of SIT, a serverless information tracker, written in Verus.
Information is kept as records: immutable, content-addressed collections of
files. A record's name is the encoded hash of its files; records link to
their parents through empty `.prev/NAME` files, and the state of an item is
the reduction of its records, generation after generation.

## Layout

- `src/` — the verified library
  - `encoding.rs`, `hash.rs`: record names (Base32) and digests (BLAKE2b, SHA-1)
  - `record.rs`: files, name-ordered file collections and the deterministic
    hashing stream
  - `repository.rs`: configuration, upgrades, record names and paths, records,
    the integrity check and the planning of new records
  - `generations.rs`: listing records by generations (parents first)
  - `roots.rs`: restricting a listing to fixed roots and their descendants
  - `reducers.rs`, `issue.rs`: reducers and the reduction of items
  - `cfg.rs`, `id.rs`, `lock.rs`: client configuration, identifiers, locks
  - `commands.rs`, `web.rs`: the decisions of the command-line client and of
    the web interface
- `tests/` — tests run against the compiled library
- `app/` — the command-line client: arguments, files, processes and the
  terminal, around the library
