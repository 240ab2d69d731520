# lookup_table_registry_client

A client for on-chain registries of address lookup tables, with its core
verified in Verus.

- `src/` is the verified library: addresses and instructions as plain values,
  the registry model and how a registry is built from the accounts read for it,
  the time-limited registry cache, the choice of lookup tables for a set of
  instructions (with its laws), and the derivation of program addresses.
- `app/` is the HTTP server and the RPC reads; it hands the library what it read
  and takes back the library's decisions.
- `tests/` exercises the library on concrete values.
