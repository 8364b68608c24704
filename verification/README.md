# substrate

A storage engine over immutable, content-addressed pages. A page is named by the hash of its bytes,
a manifest maps page numbers to pages, and a database is the name of a manifest. So a fork copies
nothing, a snapshot costs nothing, and what is read can always be checked.

- `src/` is the engine. Every function is verified against its contract.
  - `page`, `pagemap`, `manifest`, `branch`, `diff`, `chain`: the data and what it means
  - `vfs`, `cas`, `fsstore`, `testing`: where it is kept, on a filesystem that may crash
  - `pager`, `gc`, `scrub`: transactions, forks, merge bases, collection, damage
  - `record`, `log`, `replay`, `wal`, `durable`: the write-ahead log and recovery
  - `remote`, `hotset`, `tier`, `tiered`, `lifecycle`: object storage, sleep and wake
  - `security`, `keys`, `crypt`, `license`: keys, pages at rest, licences
  - `model`, `lockstep`: a plain model of a database, and the engine run in step with it
  - `laws`, `durability`, `reopening`: what holds of the whole
- `tests/` runs it.
- `app/` is the engine on a real machine: files, the system clock, key files, JSON, object storage.

Hashing, ciphers, signatures, checksums and binary encodings come from outside crates. What is
taken on trust of each of them stands in the contract of the small function that calls it.
