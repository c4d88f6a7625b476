# ads_search

The verified core of a keyword search service whose storage nodes keep
authenticated data structures (MPT, MEST, AccTrie, AccTree) and answer with
proofs. The library is written in Verus: each public function carries a
contract, and the properties that span several functions are stated and
proved as proof functions.

## Layout

- `src/` — the library, verified by Verus.
  - `text`, `assoc` — character and string helpers; a small string-keyed map.
  - `hashing` — the xxh3 hashes behind routing.
  - `boolean_expr` — parsing, printing and evaluating boolean keyword queries;
    `expr_roundtrip` — parsing a printed expression gives it back.
  - `consistent_hash`, `epring`, `routing` — the consistent-hash ring, the
    hexadecimal prefix ring with its splits, and the router over both.
  - `migration`, `split_migration`, `reply_roots`, `stats` — bookkeeping of
    prefix migrations and the writes that wait for them, the steps of moving
    a split prefix's children, the root state storage replies leave, and
    migration statistics.
  - `storager_link` — how the manager reaches a storage node.
  - `update_plan` — the decisions of a keyword update: the keywords of each
    phase, where they are written, what the replies settle, and the steps
    that undo a failed update.
  - `proof_combine` — how the manager combines several storagers' proofs.
  - `proofs`, `verification`, `mpt_proof`, `acctrie_proof`, `poly_proof`,
    `boolean_proof`, `acc_set_proof` — proof envelopes and the checks that
    rest on SHA-256 (MEST paths, accumulator snapshots), the value and root
    verdict of MPT proofs, the byte layouts of AccTrie proofs,
    transparent polynomials over the BLS12-381 scalar field (checking and
    building set-operation nodes), and the set logic of boolean and
    accumulator set-operation proofs.
  - `types`, `config`, `client_modes`, `workload`, `metrics`, `blockchain` —
    modes and settings, the client's encodings and workload files, report
    names, and the decisions of the chain-commit worker.
- `tests/` — tests of the library, run against the real outside crates.
- `app/` — a command-line front end: configuration files, report files,
  the chain worker's file and process handling, and proof decoding.
