# accum

A proof-of-contribution chain: blocks and transactions, Argon2id proof of work with a retargeted
difficulty, shares, loyalty and bonds that make up the contribution index, epoch rewards under a
capped supply, slashing, and the rules by which a node talks to its peers.

`src/` is the library. Verus proves every function against its contract. What other crates compute
(digests, Argon2id, base 58, secp256k1) and the machine's clock stand behind small wrappers in
`primitives.rs`, `types.rs`, `crypto.rs` and `share.rs`, whose contracts are believed; nothing is
claimed of what the clock shows.

- `types`, `difficulty`, `crypto`, `merkle`, `median`: targets, retargeting, hashing
- `block`, `transaction`, `wallet`, `genesis`: blocks, payments and keys
- `miner`, `share`, `sync_shares`, `consensus`, `slash`, `epoch`: contribution and its rewards
- `network`, `p2p`, `chain`: peers, limits, synchronisation, blocks that come from peers
- `mempool`, `node`, `mining`, `state`, `storage`: the state of a node and what it does with it
- `bytes`, `text`, `collections`, `constants`, `config`, `error`: what the others are built on

The library does no input or output. Functions take what a store answered as plain values
(`UtxoLookups`, `BlockLookup`, `BondLookup`) and hand back what is to be written (`StoreOp`); those
that depend on the time come in a form that takes it (`.._at`) beside one that reads the clock.

`app/` is the node itself: RocksDB, TCP, HTTP, the command line and measures in floating point.
`tests/` runs the library with the real crates.
