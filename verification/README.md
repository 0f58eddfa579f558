# CoreData (verified core)

Encrypted, per-app isolated persistence in the style of Apple's CoreData:
objects of named entities, kept per bundle id in
`<home>/Library/Preferences/<bundleId>/storage.{fico,sqlite}`, encrypted with
AES-256-GCM under a key derived by HKDF-SHA256 from a hardware-bound root.

Layout:

- `src/` – the library, verified with Verus: values and attribute tables
  (`value`, `assoc`), managed objects (`entity`), fetch requests with
  predicates, sorting and paging (`fetch`), the in-memory `.fico` store with
  its document layout (`fico_store`), the sealed-blob format and key
  derivation (`crypto`, `hex`), storage paths and bundle resolution
  (`paths`), the storage permission rules and daemon framing (`perms`),
  context decisions (`context`) and store kinds (`store`).
- `app/` – the host side: environment variables, files and locks, the
  permission daemon's socket, SQLite, the FishFile text format, number
  parsing with `f64`, and the C API.
- `tests/` – tests of the library through its public API.
