# nusantara

The storage, shred distribution and transaction intake of a validator, as a Verus
library: executable Rust whose behaviour is stated in contracts and proved.

- `src/codec.rs`, `src/ledger.rs`, `src/merkle.rs`: the binary layout, and blocks,
  transactions, accounts and Merkle proofs in it.
- `src/net.rs`, `src/text.rs`: addresses, and numbers and addresses as text.
- `src/storage/`: the store over column families of ordered keys. `Storage` runs on any
  `Database`; `MemoryDatabase` is one that keeps everything in memory.
- `src/system_program.rs`, `src/token_program/`, `src/sysvar_program/`: instructions and
  state of the built-in programs.
- `src/turbine/`: cutting blocks into shreds and putting them together again, erasure
  coding, the tree along which shreds spread, retransmission and repair.
- `src/tpu/`: transaction messages, validation, rate limits, forwarding.
- `app/`: sockets, files, RocksDB, clocks and keys around the library.
- `tests/`: ordinary tests of the library.

What is believed and not proved is marked `external_body` and says in its comment which
function of which crate it stands for: borsh (integers), zstd, reed-solomon-erasure,
dashmap, rand and a few functions of std. Hashes, signatures, Merkle trees and the
transactions that a signed batch stands for are handed to the library as functions.
