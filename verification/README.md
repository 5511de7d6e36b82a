# shasper

Verified core logic of a beacon chain client, written in Verus.

- `src/` is the library; Verus checks every function in it against its
  contract:
  - byte and integer conventions: `bytes`, `utils`, `isqrt`, `log2`,
    `lexical`, `uint_text`, `bitfield`, `keys`;
  - committee shuffling: `shuffle`, `committee`;
  - Casper FFG justification, finalization and rewards: `attestation`,
    `store`, `casper`, `reward`, `validator`;
  - RANDAO: `randao`; the deposit Merkle tree: `deposit`;
  - the block tree and its queries: `chain`, `backend`, `handler`;
  - LMD-GHOST fork choice: `fork_choice`, `archive`, `pruning` (with
    `pair_map`, and `score_totals` for how score changes move vote
    counts), and `latest` for each validator's latest attestation;
  - the attestation pool: `pool`; the validator's attesting and proposing
    decisions: `builder`;
  - peer messages: `messages`, `order`, `chain_spec`; the network event
    decisions of the sync: `dispatch`; slot timing: `timing`.
- The trusted items are the calls into `sha2` and `keccak-hasher` (`hash`),
  `hex` (`keys`), `std::time` (`timing`, one wrapper per call) and `String::from_utf8`
  (`messages`).
- `tests/` runs the library on concrete values.
- `app/` holds the serde adapters for the bit fields and integers of the
  chain's configuration files, and the error text of malformed key strings.
