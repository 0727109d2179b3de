# rpow2_authorized_miner

A verified library behind two command-line tools for RPOW2 proof of work:
a local SHA-256 benchmark and an authorized single-account miner.

Layout:

- `src/` – the library, verified with Verus.
  - `pow` – the proof-of-work search: trailing zero bits of a digest, the
    little-endian nonce, hex prefixes, search options, and one search
    worker's step (hash, decide, count hashes in batches).
  - `digest` – SHA-256 through the `sha2` crate.
  - `units` – base-unit amounts and their RPOW notation (nine decimal
    places), and the account report of `GET /me`.
  - `api` – which API bases may be used, client settings, request bodies,
    and the errors that the API answers with.
  - `retry` – mint retries and the miner's round loop decisions.
  - `text` – character-level helpers (white space, decimal notation).
- `app/` – the programs: argument parsing, HTTP, threads, timing and
  printing. Started as `local_pow_bench` it runs the benchmark, otherwise
  the miner.
- `tests/` – tests of the library.
