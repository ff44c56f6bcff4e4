//! Blocks that come from peers.
use crate::block::{
    coinbase_transaction, header_bytes, timestamp_acceptable, transaction_views, Block, BlockHeader,
    BlockV, LookupMap, Transaction, TransactionV, TxOut, TxOutV, UtxoLookups,
};
use crate::bytes::{arrays_equal, be_value};
use crate::collections::OrdSet;
use crate::consensus::{signature_verifies, signed_by_key, BlockLookup};
use crate::crypto::pow_hash_of;
use crate::median::median_of;
use crate::mempool::{lemma_txid_array, txid_array};
use crate::mining::{insert_txids, with_txids};
use crate::node::{
    block_ops, first_checkpoint, op_views, tip_hash, update_utxo_set, Node, StoreOp, StoreOpV,
};
use crate::p2p::{
    all_spent_once, capped_height, coinbase_fault, first_repeat, header_hash, headers_of, indexed,
    law_no_output_is_spent_twice, lemma_header_hash, outpoint_text,
    root_of_transactions, spent_in, transactions_root, validate_block_coinbase,
    validate_block_no_double_spend, P2PNode, SyncManager,
};
use crate::text::{decimal, push_decimal};
use crate::types::{Hash32, Height, OutPoint, Timestamp, Txid};
use crate::wallet::Wallet;
use vstd::prelude::*;
use vstd::string::*;

verus! {

/// Why a block is refused.
#[derive(Debug, Clone, Copy, PartialEq, Eq)]
pub enum Refusal {
    /// The block before it cannot be had.
    Unanchored,
    /// It does not follow the block before it.
    PrevHash,
    /// Its hash does not meet its target.
    ProofOfWork,
    /// Another block is recorded at its height.
    Checkpoint,
    /// Its timestamp is not acceptable.
    Timestamp,
    /// Its transactions are not rooted in its header.
    MerkleRoot,
    /// It pays its miner too much, or not by its first transaction.
    Coinbase,
    /// It spends an output twice.
    DoubleSpend,
    /// It is not signed.
    Unsigned,
    /// Its signature does not verify.
    Signature,
}

/// Whether another block than one with a hash is recorded at a height.
pub open spec fn contradicts_checkpoint(
    checkpoints: Seq<crate::storage::Checkpoint>,
    height: Height,
    hash: Seq<u8>,
) -> bool {
    exists|i: int| #[trigger]
        first_checkpoint(checkpoints, height, i) && checkpoints[i].block_hash@ != hash
}

/// Why the next block of a chain is refused when it comes from a peer at `now`.
pub open spec fn received_refusal(
    n: Node,
    b: BlockV,
    utxos: LookupMap,
    now: Timestamp,
) -> Option<Refusal> {
    let hash = pow_hash_of(header_bytes(b.header));
    let prev_timestamp = if n.height > 0 && n.blocks@.len() > 0 {
        Some(n.blocks@.last().timestamp)
    } else {
        None
    };
    if b.header.prev_hash@ != tip_hash(n.blocks@) {
        Some(Refusal::PrevHash)
    } else if be_value(hash) > be_value(b.header.difficulty.0@) {
        Some(Refusal::ProofOfWork)
    } else if contradicts_checkpoint(n.checkpoints@, capped_height(n.height, 1), hash) {
        Some(Refusal::Checkpoint)
    } else if b.signature is None || b.pubkey is None {
        Some(Refusal::Unsigned)
    } else if !signed_by_key(b) {
        Some(Refusal::Signature)
    } else if !timestamp_acceptable(
        b.header.timestamp,
        now,
        prev_timestamp,
        median_of(n.timestamps@),
    ) {
        Some(Refusal::Timestamp)
    } else if b.header.merkle_root@ != transactions_root(b.transactions) {
        Some(Refusal::MerkleRoot)
    } else if coinbase_fault(b, utxos) is Some {
        Some(Refusal::Coinbase)
    } else if !spent_in(b.transactions).no_duplicates() {
        Some(Refusal::DoubleSpend)
    } else {
        None
    }
}

/// The header of a block that the store was asked for.
pub open spec fn header_found(found: BlockLookup) -> Result<Option<BlockHeader>, Seq<char>> {
    match found {
        Err(words) => Err(words@),
        Ok(None) => Ok(None),
        Ok(Some(b)) => Ok(Some(b.header)),
    }
}

/// Why a block is refused that a peer sent for a height at `now`, given the recorded blocks, the
/// timestamps so far and what the store answers when it is asked for the block before it.
pub open spec fn block_refusal(
    checkpoints: Seq<crate::storage::Checkpoint>,
    timestamps: Seq<Timestamp>,
    b: BlockV,
    height: Height,
    prev: Result<Option<BlockHeader>, Seq<char>>,
    utxos: LookupMap,
    now: Timestamp,
) -> Option<Refusal> {
    let hash = pow_hash_of(header_bytes(b.header));
    let anchored = height == 1 || (prev is Ok && prev->Ok_0 is Some);
    let prev_header = prev->Ok_0->0;
    let expected = if height == 1 {
        Seq::new(32, |i: int| 0u8)
    } else {
        pow_hash_of(header_bytes(prev_header))
    };
    let prev_timestamp = if height > 1 {
        Some(prev_header.timestamp)
    } else {
        None
    };
    if !anchored {
        Some(Refusal::Unanchored)
    } else if b.header.prev_hash@ != expected {
        Some(Refusal::PrevHash)
    } else if be_value(hash) > be_value(b.header.difficulty.0@) {
        Some(Refusal::ProofOfWork)
    } else if contradicts_checkpoint(checkpoints, height, hash) {
        Some(Refusal::Checkpoint)
    } else if !timestamp_acceptable(
        b.header.timestamp,
        now,
        prev_timestamp,
        median_of(timestamps),
    ) {
        Some(Refusal::Timestamp)
    } else if b.header.merkle_root@ != transactions_root(b.transactions) {
        Some(Refusal::MerkleRoot)
    } else if coinbase_fault(b, utxos) is Some {
        Some(Refusal::Coinbase)
    } else if !spent_in(b.transactions).no_duplicates() {
        Some(Refusal::DoubleSpend)
    } else if b.signature is None || b.pubkey is None {
        Some(Refusal::Unsigned)
    } else if !signed_by_key(b) {
        Some(Refusal::Signature)
    } else {
        None
    }
}

/// Whether words describe why a block that a peer sent for a height is refused.
pub open spec fn describes_refusal(
    words: Seq<char>,
    kind: Refusal,
    b: BlockV,
    height: Height,
    prev: Result<Option<BlockHeader>, Seq<char>>,
    utxos: LookupMap,
) -> bool {
    match kind {
        Refusal::Unanchored => words == match prev {
            Err(e) => e,
            Ok(_) => "Previous block not found"@,
        },
        Refusal::PrevHash => words == "Invalid prev_hash at height "@ + decimal(height as nat),
        Refusal::ProofOfWork => words == "Block hash doesn't meet difficulty at height "@
            + decimal(height as nat),
        Refusal::Checkpoint => words == "Block hash at height "@ + decimal(height as nat)
            + " conflicts with checkpoint"@,
        Refusal::Timestamp => words == "Invalid timestamp at height "@ + decimal(height as nat),
        Refusal::MerkleRoot => words == "Invalid merkle root at height "@ + decimal(height as nat),
        Refusal::Coinbase => coinbase_fault(b, utxos) == Some(words),
        Refusal::DoubleSpend => exists|k: int| #[trigger]
            first_repeat(spent_in(b.transactions), k) && words == "Double spend detected: "@
                + outpoint_text(spent_in(b.transactions)[k]),
        Refusal::Unsigned => words == "Missing block signature at height "@ + decimal(
            height as nat,
        ),
        Refusal::Signature => words == "Invalid block signature at height "@ + decimal(
            height as nat,
        ),
    }
}

/// A repeated output is a duplicate.
proof fn lemma_repeat_is_duplicate(s: Seq<crate::types::OutPoint>, k: int)
    requires
        first_repeat(s, k),
    ensures
        !s.no_duplicates(),
{
    let j = choose|j: int| 0 <= j < k && s.take(k)[j] == s[k];
    assert(s[j] == s[k]);
}

fn words_at(text: &str, height: Height) -> (r: String)
    ensures
        r@ == text@ + decimal(height as nat),
{
    let mut words = text.to_string();
    push_decimal(&mut words, height as u128);
    words
}

/// Whether a transaction is among those of a block that create no coins, by its identifier.
pub open spec fn included(t: TransactionV, txs: Seq<TransactionV>) -> bool {
    with_txids(Set::empty(), txs).contains(txid_array(t))
}

/// The node after the next block of its chain came from a peer: the block is at the end of the
/// chain, and its transactions are known and no longer wait.
pub open spec fn received_block_applied(
    before: Node,
    after: Node,
    header: BlockHeader,
    txs: Seq<TransactionV>,
    hash: Hash32,
) -> bool {
    let height = capped_height(before.height, 1);
    &&& after == (Node {
        height,
        blocks: after.blocks,
        block_hashes: after.block_hashes,
        timestamps: after.timestamps,
        processed_txids: after.processed_txids,
        mempool: after.mempool,
        ..before
    })
    &&& after.blocks@ == before.blocks@.push(header)
    &&& after.block_hashes@ == before.block_hashes@.insert(hash, height)
    &&& after.timestamps@ == before.timestamps@.push(header.timestamp)
    &&& after.processed_txids@ == with_txids(before.processed_txids@, txs)
    &&& after.mempool@ == before.mempool@.filter(|t: Transaction| !included(t@, txs))
}

/// Drops the transactions whose identifiers are in a set.
fn drop_included(list: &mut Vec<Transaction>, txids: &OrdSet<Txid>)
    ensures
        final(list)@ == old(list)@.filter(|t: Transaction| !txids@.contains(txid_array(t@))),
{
    let ghost all = list@;
    let ghost keep = |t: Transaction| !txids@.contains(txid_array(t@));
    let mut i: usize = 0;
    let ghost mut k: int = 0;
    proof {
        reveal(Seq::filter);
        assert(all.take(0).filter(keep) =~= Seq::empty());
        assert(all.skip(0) =~= all);
    }
    while i < list.len()
        invariant
            0 <= k <= all.len(),
            keep == (|t: Transaction| !txids@.contains(txid_array(t@))),
            i == all.take(k).filter(keep).len(),
            list@ == all.take(k).filter(keep) + all.skip(k),
        decreases all.len() - k,
    {
        proof {
            assert(list@[i as int] == all[k]);
            assert(all.take(k + 1).drop_last() =~= all.take(k));
            reveal(Seq::filter);
        }
        let ghost head = all.take(k).filter(keep);
        let txid = list[i].compute_txid();
        proof {
            lemma_txid_array(all[k]@, txid);
        }
        if txids.contains(&txid) {
            list.remove(i);
            assert((head + all.skip(k)).remove(i as int) =~= head + all.skip(k + 1));
        } else {
            i += 1;
            assert(list@ =~= head.push(all[k]) + all.skip(k + 1));
        }
        proof {
            k = k + 1;
        }
    }
    assert(all.skip(k).len() == 0);
    assert(all.take(k) =~= all);
    assert(list@ =~= all.filter(keep));
}

impl Node {
    /// Whether another block than one with a hash is recorded at a height.
    fn conflicts_with_checkpoint(&self, height: Height, hash: &Hash32) -> (r: bool)
        ensures
            r == contradicts_checkpoint(self.checkpoints@, height, hash@),
    {
        match self.checkpoint_at(height) {
            Some(c) => {
                proof {
                    let i = choose|i: int| #[trigger]
                        first_checkpoint(self.checkpoints@, height, i) && *c
                            == self.checkpoints@[i];
                    assert forall|j: int| #[trigger]
                        first_checkpoint(self.checkpoints@, height, j) implies i == j by {
                        if i < j {
                            assert(self.checkpoints@[i].height != height);
                        } else if j < i {
                            assert(self.checkpoints@[j].height != height);
                        }
                    }
                    if c.block_hash@ == hash@ {
                        assert(c.block_hash =~= *hash);
                    }
                }
                !arrays_equal(&c.block_hash, hash)
            },
            None => false,
        }
    }

    /// Checks the next block of the chain that came from a peer at `now`, given what the store
    /// answers on the outputs that it spends. The hash of the block is handed back.
    pub fn check_received_block(&mut self, block: &Block, utxos: &UtxoLookups, now: Timestamp) -> (r:
        Result<Hash32, Refusal>)
        ensures
            *final(self) == (Node { argon2: final(self).argon2, ..*old(self) }),
            match r {
                Ok(hash) => received_refusal(*old(self), block@, utxos@, now) is None && hash@
                    == pow_hash_of(header_bytes(block.header)),
                Err(kind) => received_refusal(*old(self), block@, utxos@, now) == Some(kind),
            },
    {
        let ghost n = *self;
        let prev_hash = self.last_hash();
        proof {
            if block.header.prev_hash@ == prev_hash@ {
                assert(block.header.prev_hash =~= prev_hash);
            }
        }
        if !arrays_equal(&block.header.prev_hash, &prev_hash) {
            return Err(Refusal::PrevHash);
        }
        let hash = block.header.hash(&mut self.argon2);
        if !block.header.difficulty.is_met_by(&hash) {
            return Err(Refusal::ProofOfWork);
        }
        if self.conflicts_with_checkpoint(self.height.saturating_add(1), &hash) {
            return Err(Refusal::Checkpoint);
        }
        match (&block.signature, &block.pubkey) {
            (Some(sig), Some(key)) => {
                if !Wallet::verify_signature(key.as_slice(), sig.as_slice(), hash.as_slice()) {
                    return Err(Refusal::Signature);
                }
            },
            _ => {
                return Err(Refusal::Unsigned);
            },
        }
        let count: usize = self.blocks.len();
        let prev_timestamp: Option<Timestamp> = if self.height > 0 && count > 0 {
            Some(self.blocks[count - 1].timestamp)
        } else {
            None
        };
        let median = self.median_timestamp();
        if !block.header.validate_timestamp_at(now, prev_timestamp, median) {
            return Err(Refusal::Timestamp);
        }
        let root = root_of_transactions(block.transactions.as_slice());
        proof {
            if block.header.merkle_root@ == root@ {
                assert(block.header.merkle_root =~= root);
            }
        }
        if !arrays_equal(&block.header.merkle_root, &root) {
            return Err(Refusal::MerkleRoot);
        }
        if validate_block_coinbase(block, utxos).is_err() {
            return Err(Refusal::Coinbase);
        }
        if validate_block_no_double_spend(block).is_err() {
            proof {
                let k = choose|k: int| #[trigger] first_repeat(spent_in(block@.transactions), k);
                lemma_repeat_is_duplicate(spent_in(block@.transactions), k);
            }
            return Err(Refusal::DoubleSpend);
        }
        Ok(hash)
    }

    /// Puts a checked block of a peer, with its hash, at the end of the chain. The writes that
    /// follow that of the block are handed back.
    pub fn apply_received_block(&mut self, block: &Block, hash: Hash32) -> (r: Vec<StoreOp>)
        ensures
            received_block_applied(
                *old(self),
                *final(self),
                block.header,
                block@.transactions,
                hash,
            ),
            op_views(r@) == block_ops(block@.transactions) + seq![
                StoreOpV::SaveHeight(final(self).height),
                StoreOpV::SaveMempool,
            ],
            old(self).wf() ==> final(self).wf(),
    {
        let new_height: Height = self.height.saturating_add(1);
        self.blocks.push(block.header);
        self.block_hashes.insert(hash, new_height);
        self.timestamps.push(block.header.timestamp);
        self.height = new_height;
        let mut ops = update_utxo_set(&block.transactions);
        let ghost head = op_views(ops@);
        insert_txids(&mut self.processed_txids, &block.transactions);
        let mut in_block: OrdSet<Txid> = OrdSet::new();
        insert_txids(&mut in_block, &block.transactions);
        let ghost list = self.mempool@;
        drop_included(&mut self.mempool, &in_block);
        proof {
            let txs = block@.transactions;
            let by_set = |t: Transaction| !in_block@.contains(txid_array(t@));
            let by_block = |t: Transaction| !included(t@, txs);
            assert(by_set =~= by_block);
        }
        let op_height = StoreOp::SaveHeight(self.height);
        let op_mempool = StoreOp::SaveMempool;
        ops.push(op_height);
        ops.push(op_mempool);
        assert(op_views(ops@) =~= head + seq![op_height@, op_mempool@]);
        ops
    }
}

impl SyncManager {
    /// Checks a block that a peer sent for a height at `now`, given what the store answers when it
    /// is asked for the block before it and for the outputs that the block spends. The hash of the
    /// block is handed back, or why it is refused, with words that describe that.
    pub fn check_block(
        block: &Block,
        expected_height: Height,
        prev: &BlockLookup,
        node: &mut Node,
        utxos: &UtxoLookups,
        now: Timestamp,
    ) -> (r: Result<Hash32, (Refusal, String)>)
        ensures
            *final(node) == (Node { argon2: final(node).argon2, ..*old(node) }),
            match r {
                Ok(hash) => block_refusal(
                    old(node).checkpoints@,
                    old(node).timestamps@,
                    block@,
                    expected_height,
                    header_found(*prev),
                    utxos@,
                    now,
                ) is None && hash@ == pow_hash_of(header_bytes(block.header)),
                Err((kind, words)) => block_refusal(
                    old(node).checkpoints@,
                    old(node).timestamps@,
                    block@,
                    expected_height,
                    header_found(*prev),
                    utxos@,
                    now,
                ) == Some(kind) && describes_refusal(
                    words@,
                    kind,
                    block@,
                    expected_height,
                    header_found(*prev),
                    utxos@,
                ),
            },
    {
        let ghost n = *node;
        let zero: Hash32 = [0u8; 32];
        assert(zero@ =~= Seq::new(32, |i: int| 0u8));
        let mut prev_timestamp: Option<Timestamp> = None;
        let expected_prev: Hash32 = if expected_height == 1 {
            zero
        } else {
            match prev {
                Err(words) => {
                    return Err((Refusal::Unanchored, words.clone()));
                },
                Ok(None) => {
                    return Err(
                        (Refusal::Unanchored, "Previous block not found".to_string()),
                    );
                },
                Ok(Some(prev_block)) => {
                    if expected_height > 1 {
                        prev_timestamp = Some(prev_block.header.timestamp);
                    }
                    prev_block.header.hash(&mut node.argon2)
                },
            }
        };
        proof {
            if block.header.prev_hash@ == expected_prev@ {
                assert(block.header.prev_hash =~= expected_prev);
            }
        }
        if !arrays_equal(&block.header.prev_hash, &expected_prev) {
            return Err(
                (Refusal::PrevHash, words_at("Invalid prev_hash at height ", expected_height)),
            );
        }
        let hash = block.header.hash(&mut node.argon2);
        if !block.header.difficulty.is_met_by(&hash) {
            return Err(
                (
                    Refusal::ProofOfWork,
                    words_at("Block hash doesn't meet difficulty at height ", expected_height),
                ),
            );
        }
        if node.conflicts_with_checkpoint(expected_height, &hash) {
            let mut words = words_at("Block hash at height ", expected_height);
            words.append(" conflicts with checkpoint");
            return Err((Refusal::Checkpoint, words));
        }
        let median = node.median_timestamp();
        if !block.header.validate_timestamp_at(now, prev_timestamp, median) {
            return Err(
                (Refusal::Timestamp, words_at("Invalid timestamp at height ", expected_height)),
            );
        }
        let root = root_of_transactions(block.transactions.as_slice());
        proof {
            if block.header.merkle_root@ == root@ {
                assert(block.header.merkle_root =~= root);
            }
        }
        if !arrays_equal(&block.header.merkle_root, &root) {
            return Err(
                (Refusal::MerkleRoot, words_at("Invalid merkle root at height ", expected_height)),
            );
        }
        match validate_block_coinbase(block, utxos) {
            Ok(()) => {},
            Err(words) => {
                return Err((Refusal::Coinbase, words));
            },
        }
        match validate_block_no_double_spend(block) {
            Ok(()) => {},
            Err(words) => {
                proof {
                    let s = spent_in(block@.transactions);
                    let k = choose|k: int| #[trigger]
                        first_repeat(s, k) && words@ == "Double spend detected: "@ + outpoint_text(
                            s[k],
                        );
                    lemma_repeat_is_duplicate(s, k);
                }
                return Err((Refusal::DoubleSpend, words));
            },
        }
        match (&block.signature, &block.pubkey) {
            (Some(sig), Some(key)) => {
                if !Wallet::verify_signature(key.as_slice(), sig.as_slice(), hash.as_slice()) {
                    return Err(
                        (
                            Refusal::Signature,
                            words_at("Invalid block signature at height ", expected_height),
                        ),
                    );
                }
            },
            _ => {
                return Err(
                    (
                        Refusal::Unsigned,
                        words_at("Missing block signature at height ", expected_height),
                    ),
                );
            },
        }
        Ok(hash)
    }

    /// Puts a checked block that a peer sent for a height at the end of both chains.
    pub fn accept_block(
        &mut self,
        node: &mut Node,
        header: BlockHeader,
        hash: Hash32,
        expected_height: Height,
    )
        ensures
            *final(self) == (SyncManager {
                local_chain: final(self).local_chain,
                local_hashes: final(self).local_hashes,
                ..*old(self)
            }),
            final(self).local_chain@ == old(self).local_chain@.push(header),
            final(self).local_hashes@ == old(self).local_hashes@.insert(hash, expected_height),
            *final(node) == (Node {
                blocks: final(node).blocks,
                block_hashes: final(node).block_hashes,
                timestamps: final(node).timestamps,
                ..*old(node)
            }),
            final(node).blocks@ == old(node).blocks@.push(header),
            final(node).block_hashes@ == old(node).block_hashes@.insert(hash, expected_height),
            final(node).timestamps@ == old(node).timestamps@.push(header.timestamp),
            old(node).wf() ==> final(node).wf(),
    {
        node.blocks.push(header);
        node.block_hashes.insert(hash, expected_height);
        node.timestamps.push(header.timestamp);
        self.local_chain.push(header);
        self.local_hashes.insert(hash, expected_height);
    }

    /// The root of the tree over the identifiers of transactions; zeros where there is none.
    pub fn compute_merkle_root(txs: &[Transaction]) -> (r: Hash32)
        ensures
            r@ == transactions_root(transaction_views(txs@)),
    {
        root_of_transactions(txs)
    }

    /// The writes that the transactions of a block make to the set of unspent outputs.
    pub fn update_utxo_set(block: &Block) -> (r: Vec<StoreOp>)
        ensures
            op_views(r@) == block_ops(block@.transactions),
    {
        update_utxo_set(&block.transactions)
    }
}

/// What the store answers when it is asked for unspent outputs, by what the outputs hold.
pub open spec fn answers(m: LookupMap) -> Map<OutPoint, Result<TxOutV, Seq<char>>> {
    m.map_values(
        |a: Result<TxOut, String>|
            match a {
                Ok(o) => Ok(o@),
                Err(words) => Err(words@),
            },
    )
}

/// What the store answers after writes.
pub open spec fn answers_after(
    m: Map<OutPoint, Result<TxOutV, Seq<char>>>,
    ops: Seq<StoreOpV>,
) -> Map<OutPoint, Result<TxOutV, Seq<char>>>
    decreases ops.len(),
{
    if ops.len() == 0 {
        m
    } else {
        let rest = answers_after(m, ops.drop_last());
        match ops.last() {
            StoreOpV::SaveUtxo(p, o) => rest.insert(p, Ok(o)),
            StoreOpV::DeleteUtxo(p) => rest.remove(p),
            _ => rest,
        }
    }
}

/// Keeps what the store would answer up to date with writes.
fn follow_writes(utxos: &mut UtxoLookups, ops: &Vec<StoreOp>)
    ensures
        answers(final(utxos)@) == answers_after(answers(old(utxos)@), op_views(ops@)),
{
    let ghost start = answers(utxos@);
    let ghost views = op_views(ops@);
    let mut i: usize = 0;
    assert(views.take(0) =~= Seq::<StoreOpV>::empty());
    while i < ops.len()
        invariant
            i <= ops@.len(),
            views == op_views(ops@),
            answers(utxos@) == answers_after(start, views.take(i as int)),
        decreases ops@.len() - i,
    {
        let ghost before = utxos@;
        assert(views.take(i + 1).drop_last() =~= views.take(i as int));
        assert(views[i as int] == ops@[i as int]@);
        match &ops[i] {
            StoreOp::SaveUtxo(p, o) => {
                let copy = o.clone();
                utxos.insert(*p, Ok(copy));
                assert(answers(utxos@) =~= answers(before).insert(*p, Ok(o@)));
            },
            StoreOp::DeleteUtxo(p) => {
                utxos.remove(p);
                assert(answers(utxos@) =~= answers(before).remove(*p));
            },
            _ => {},
        }
        i += 1;
    }
    assert(views.take(i as int) =~= views);
}

/// The timestamps of headers.
pub open spec fn times_of(headers: Seq<BlockHeader>) -> Seq<Timestamp> {
    headers.map_values(|h: BlockHeader| h.timestamp)
}

/// The header before block `i` of a batch, given what the store answers for the one before the
/// batch.
pub open spec fn header_before(
    blocks: Seq<Block>,
    prev: BlockLookup,
    i: int,
) -> Result<Option<BlockHeader>, Seq<char>> {
    if i == 0 {
        header_found(prev)
    } else {
        Ok(Some(blocks[i - 1].header))
    }
}

/// Why block `i` of a batch is refused, given that the blocks before it were taken in: `utxos` is
/// what the store answers by then.
pub open spec fn batch_refusal(
    n: Node,
    blocks: Seq<Block>,
    start: Height,
    prev: BlockLookup,
    utxos: LookupMap,
    now: Timestamp,
    i: int,
) -> Option<Refusal> {
    block_refusal(
        n.checkpoints@,
        n.timestamps@ + times_of(headers_of(blocks).take(i)),
        blocks[i]@,
        capped_height(start, (i + 1) as nat),
        header_before(blocks, prev, i),
        utxos,
        now,
    )
}

/// The writes for the first `n` blocks of a batch: each is stored, and then its transactions
/// change the set of unspent outputs.
pub open spec fn batch_ops(blocks: Seq<Block>, start: Height, n: nat) -> Seq<StoreOpV>
    decreases n,
{
    if n == 0 {
        Seq::empty()
    } else {
        batch_ops(blocks, start, (n - 1) as nat).push(
            StoreOpV::SaveBlock(capped_height(start, n)),
        ) + block_ops(blocks[n - 1]@.transactions)
    }
}

/// Whether `after` is what the store answers after the writes of a block.
pub open spec fn writes_followed(before: LookupMap, after: LookupMap, b: BlockV) -> bool {
    answers(after) == answers_after(answers(before), block_ops(b.transactions))
}

/// Whether `maps` are what the store answers before each of the first `k` blocks of a batch and
/// after the last of them.
pub open spec fn store_followed(
    maps: Seq<LookupMap>,
    utxos: LookupMap,
    blocks: Seq<Block>,
    k: nat,
) -> bool {
    &&& maps.len() == k + 1
    &&& maps[0] == utxos
    &&& forall|i: int|
        0 <= i < k ==> #[trigger] writes_followed(maps[i], maps[i + 1], blocks[i]@)
}

/// Whether the first `k` blocks of a batch are at the end of the chain of a node.
pub open spec fn chain_grown(
    before: Node,
    after: Node,
    blocks: Seq<Block>,
    start: Height,
    k: nat,
) -> bool {
    let headers = headers_of(blocks);
    &&& after == (Node {
        blocks: after.blocks,
        block_hashes: after.block_hashes,
        timestamps: after.timestamps,
        argon2: after.argon2,
        ..before
    })
    &&& after.blocks@ == before.blocks@ + headers.take(k as int)
    &&& after.timestamps@ == before.timestamps@ + times_of(headers.take(k as int))
    &&& after.block_hashes@ == indexed(before.block_hashes@, headers, start, k)
}

/// Whether the first `k` blocks of a batch are at the end of what was synchronised.
pub open spec fn sync_grown(
    before: SyncManager,
    after: SyncManager,
    blocks: Seq<Block>,
    k: nat,
) -> bool {
    let headers = headers_of(blocks);
    &&& after == (SyncManager {
        local_chain: after.local_chain,
        local_hashes: after.local_hashes,
        ..before
    })
    &&& after.local_chain@ == before.local_chain@ + headers.take(k as int)
    &&& after.local_hashes@ == indexed(before.local_hashes@, headers, before.height(), k)
}

/// What comes of a batch of which `k` blocks were taken in: the height that was reached, or why
/// the next one is refused.
pub open spec fn batch_outcome(
    n: Node,
    blocks: Seq<Block>,
    start: Height,
    prev: BlockLookup,
    maps: Seq<LookupMap>,
    now: Timestamp,
    k: nat,
    r: Result<Height, String>,
) -> bool {
    &&& k <= blocks.len()
    &&& forall|i: int|
        0 <= i < k ==> #[trigger] batch_refusal(n, blocks, start, prev, maps[i], now, i) is None
    &&& match r {
        Ok(height) => k == blocks.len() && height == capped_height(start, k),
        Err(words) => {
            let kind = batch_refusal(n, blocks, start, prev, maps[k as int], now, k as int);
            &&& k < blocks.len()
            &&& kind is Some
            &&& describes_refusal(
                words@,
                kind->0,
                blocks[k as int]@,
                capped_height(start, k + 1),
                header_before(blocks, prev, k as int),
                maps[k as int],
            )
        },
    }
}

impl SyncManager {
    /// Takes in the next block of a batch, unless it is refused.
    fn take_next(
        &mut self,
        node: &mut Node,
        block: &Block,
        height: Height,
        prev: &BlockLookup,
        utxos: &mut UtxoLookups,
        ops: &mut Vec<StoreOp>,
        now: Timestamp,
    ) -> (r: Result<(), String>)
        ensures
            old(node).wf() ==> final(node).wf(),
            ({
                let kind = block_refusal(
                    old(node).checkpoints@,
                    old(node).timestamps@,
                    block@,
                    height,
                    header_found(*prev),
                    old(utxos)@,
                    now,
                );
                match r {
                    Ok(()) => {
                        &&& kind is None
                        &&& *final(self) == (SyncManager {
                            local_chain: final(self).local_chain,
                            local_hashes: final(self).local_hashes,
                            ..*old(self)
                        })
                        &&& final(self).local_chain@ == old(self).local_chain@.push(block.header)
                        &&& final(self).local_hashes@ == old(self).local_hashes@.insert(
                            header_hash(block.header),
                            height,
                        )
                        &&& *final(node) == (Node {
                            blocks: final(node).blocks,
                            block_hashes: final(node).block_hashes,
                            timestamps: final(node).timestamps,
                            argon2: final(node).argon2,
                            ..*old(node)
                        })
                        &&& final(node).blocks@ == old(node).blocks@.push(block.header)
                        &&& final(node).block_hashes@ == old(node).block_hashes@.insert(
                            header_hash(block.header),
                            height,
                        )
                        &&& final(node).timestamps@ == old(node).timestamps@.push(
                            block.header.timestamp,
                        )
                        &&& writes_followed(old(utxos)@, final(utxos)@, block@)
                        &&& op_views(final(ops)@) == op_views(old(ops)@).push(
                            StoreOpV::SaveBlock(height),
                        ) + block_ops(block@.transactions)
                    },
                    Err(words) => {
                        &&& kind is Some
                        &&& describes_refusal(
                            words@,
                            kind->0,
                            block@,
                            height,
                            header_found(*prev),
                            old(utxos)@,
                        )
                        &&& *final(self) == *old(self)
                        &&& *final(node) == (Node { argon2: final(node).argon2, ..*old(node) })
                        &&& *final(utxos) == *old(utxos)
                        &&& *final(ops) == *old(ops)
                    },
                }
            }),
    {
        let hash = match Self::check_block(block, height, prev, node, utxos, now) {
            Ok(hash) => hash,
            Err((_, words)) => {
                return Err(words);
            },
        };
        proof {
            lemma_header_hash(block.header, hash);
        }
        self.accept_block(node, block.header, hash, height);
        let ghost before = op_views(ops@);
        ops.push(StoreOp::SaveBlock(height));
        let ghost mid = ops@;
        let mut writes = update_utxo_set(&block.transactions);
        let ghost written = op_views(writes@);
        follow_writes(utxos, &writes);
        ops.append(&mut writes);
        assert(op_views(mid) =~= before.push(StoreOpV::SaveBlock(height)));
        assert(op_views(ops@) =~= op_views(mid) + written);
        Ok(())
    }

    /// Takes in the blocks that a peer sent for the heights after the synchronised ones, in order,
    /// up to the first that is refused. `found` is what the store answers when it is asked for the
    /// last block before them, and `utxos` for the outputs that they spend. The writes are handed
    /// back, with the height that was reached or why a block is refused.
    pub fn verify_and_accept_blocks(
        &mut self,
        blocks: &[Block],
        node: &mut Node,
        found: BlockLookup,
        utxos: UtxoLookups,
        now: Timestamp,
    ) -> (r: (Vec<StoreOp>, Result<Height, String>))
        ensures
            exists|maps: Seq<LookupMap>, k: nat|
                {
                    &&& #[trigger] store_followed(maps, utxos@, blocks@, k)
                    &&& batch_outcome(
                        *old(node),
                        blocks@,
                        old(self).height(),
                        found,
                        maps,
                        now,
                        k,
                        r.1,
                    )
                    &&& chain_grown(*old(node), *final(node), blocks@, old(self).height(), k)
                    &&& sync_grown(*old(self), *final(self), blocks@, k)
                    &&& op_views(r.0@) == batch_ops(blocks@, old(self).height(), k)
                },
            old(node).wf() ==> final(node).wf(),
    {
        let start: Height = self.current_height();
        let ghost headers = headers_of(blocks@);
        let ghost mut maps: Seq<LookupMap> = seq![utxos@];
        let mut known = utxos;
        let mut ops: Vec<StoreOp> = Vec::new();
        let mut prev: BlockLookup = found;
        let mut i: usize = 0;
        proof {
            assert(headers.take(0) =~= Seq::<BlockHeader>::empty());
            assert(times_of(headers.take(0)) =~= Seq::<Timestamp>::empty());
            assert(node.blocks@ + headers.take(0) =~= node.blocks@);
            assert(node.timestamps@ + times_of(headers.take(0)) =~= node.timestamps@);
            assert(self.local_chain@ + headers.take(0) =~= self.local_chain@);
            assert(op_views(ops@) =~= Seq::<StoreOpV>::empty());
        }
        while i < blocks.len()
            invariant
                i <= blocks@.len(),
                start == old(self).height(),
                headers == headers_of(blocks@),
                store_followed(maps, utxos@, blocks@, i as nat),
                maps[i as int] == known@,
                header_found(prev) == header_before(blocks@, found, i as int),
                forall|j: int|
                    0 <= j < i ==> #[trigger] batch_refusal(
                        *old(node),
                        blocks@,
                        start,
                        found,
                        maps[j],
                        now,
                        j,
                    ) is None,
                chain_grown(*old(node), *node, blocks@, start, i as nat),
                sync_grown(*old(self), *self, blocks@, i as nat),
                op_views(ops@) == batch_ops(blocks@, start, i as nat),
                old(node).wf() ==> node.wf(),
            decreases blocks@.len() - i,
        {
            let block = &blocks[i];
            let height: Height = start.saturating_add(i as u64).saturating_add(1);
            assert(height == capped_height(start, (i + 1) as nat));
            let ghost n = *node;
            let ghost m = *self;
            let ghost was = maps;
            match self.take_next(node, block, height, &prev, &mut known, &mut ops, now) {
                Ok(()) => {},
                Err(words) => {
                    proof {
                        let r: Result<Height, String> = Err(words);
                        assert(batch_outcome(
                            *old(node),
                            blocks@,
                            start,
                            found,
                            maps,
                            now,
                            i as nat,
                            r,
                        ));
                    }
                    return (ops, Err(words));
                },
            }
            prev = Ok(Some(block.clone()));
            proof {
                assert(headers[i as int] == block.header);
                assert(headers.take(i + 1) =~= headers.take(i as int).push(block.header));
                assert(times_of(headers.take(i + 1)) =~= times_of(headers.take(i as int)).push(
                    block.header.timestamp,
                ));
                assert(node.blocks@ =~= old(node).blocks@ + headers.take(i + 1));
                assert(node.timestamps@ =~= old(node).timestamps@ + times_of(headers.take(i + 1)));
                assert(self.local_chain@ =~= old(self).local_chain@ + headers.take(i + 1));
                maps = was.push(known@);
                assert forall|j: int| 0 <= j < i + 1 implies #[trigger] writes_followed(
                    maps[j],
                    maps[j + 1],
                    blocks@[j]@,
                ) by {
                    if j < i {
                        assert(writes_followed(was[j], was[j + 1], blocks@[j]@));
                    }
                }
                assert forall|j: int| 0 <= j < i + 1 implies #[trigger] batch_refusal(
                    *old(node),
                    blocks@,
                    start,
                    found,
                    maps[j],
                    now,
                    j,
                ) is None by {
                    if j < i {
                        assert(batch_refusal(*old(node), blocks@, start, found, was[j], now, j)
                            is None);
                    }
                }
            }
            i += 1;
        }
        (ops, Ok(start.saturating_add(i as u64)))
    }
}

impl P2PNode {
    /// Takes note of a height and a tip that the node reached.
    pub fn reached(&mut self, height: Height, best_hash: Hash32)
        ensures
            *final(self) == (P2PNode {
                local_height: height,
                local_best_hash: best_hash,
                ..*old(self)
            }),
    {
        self.local_height = height;
        self.local_best_hash = best_hash;
    }
}

/// A block that is taken in from a peer meets its target, is signed, is rooted in its header,
/// spends no output twice, pays its miner no more than it may, and follows the tip of the chain;
/// its timestamp is later than that of the tip, where there is one above the first block.
pub proof fn law_received_blocks_are_sound(n: Node, b: BlockV, utxos: LookupMap, now: Timestamp)
    requires
        received_refusal(n, b, utxos, now) is None,
    ensures
        b.header.prev_hash@ == tip_hash(n.blocks@),
        be_value(pow_hash_of(header_bytes(b.header))) <= be_value(b.header.difficulty.0@),
        signed_by_key(b),
        b.header.merkle_root@ == transactions_root(b.transactions),
        coinbase_fault(b, utxos) is None,
        spent_in(b.transactions).no_duplicates(),
        n.height > 0 && n.blocks@.len() > 0 ==> b.header.timestamp > n.blocks@.last().timestamp,
{
}

/// The blocks of a batch that are taken in form a chain: each follows the one before it by its
/// hash, is later than it, and meets its own target.
pub proof fn law_synced_blocks_are_linked(
    n: Node,
    blocks: Seq<Block>,
    start: Height,
    prev: BlockLookup,
    maps: Seq<LookupMap>,
    now: Timestamp,
    k: nat,
    r: Result<Height, String>,
    i: int,
)
    requires
        batch_outcome(n, blocks, start, prev, maps, now, k, r),
        start + k <= u64::MAX,
        0 < i < k,
    ensures
        blocks[i].header.prev_hash@ == pow_hash_of(header_bytes(blocks[i - 1].header)),
        blocks[i].header.timestamp > blocks[i - 1].header.timestamp,
        be_value(pow_hash_of(header_bytes(blocks[i].header))) <= be_value(
            blocks[i].header.difficulty.0@,
        ),
{
    assert(batch_refusal(n, blocks, start, prev, maps[i], now, i) is None);
}

/// Whether no other block than one with a hash stands first among the records of a height.
pub open spec fn agrees_with_records(
    checkpoints: Seq<crate::storage::Checkpoint>,
    height: int,
    hash: Seq<u8>,
) -> bool {
    forall|i: int|
        0 <= i < checkpoints.len() && (#[trigger] checkpoints[i]).height == height && (forall|j: int|
            0 <= j < i ==> (#[trigger] checkpoints[j]).height != height)
            ==> checkpoints[i].block_hash@ == hash
}

proof fn lemma_records(
    checkpoints: Seq<crate::storage::Checkpoint>,
    height: Height,
    hash: Seq<u8>,
)
    ensures
        contradicts_checkpoint(checkpoints, height, hash) == !agrees_with_records(
            checkpoints,
            height as int,
            hash,
        ),
{
    if !agrees_with_records(checkpoints, height as int, hash) {
        let i = choose|i: int|
            0 <= i < checkpoints.len() && (#[trigger] checkpoints[i]).height == height && (forall|
                j: int,
            |
                0 <= j < i ==> (#[trigger] checkpoints[j]).height != height)
                && checkpoints[i].block_hash@ != hash;
        assert(first_checkpoint(checkpoints, height, i));
    }
    if contradicts_checkpoint(checkpoints, height, hash) {
        let i = choose|i: int| #[trigger]
            first_checkpoint(checkpoints, height, i) && checkpoints[i].block_hash@ != hash;
        assert(checkpoints[i].height == height);
    }
}

/// The next block of a chain is taken in from a peer exactly when it follows the tip, its work
/// meets its target, no other block is recorded at its height, its signature verifies, it is at
/// most two hours ahead and later than the tip and the median, its transactions are rooted in it,
/// it pays its miner right, and no output is spent twice in it.
pub proof fn law_when_a_received_block_is_taken(
    n: Node,
    b: BlockV,
    utxos: LookupMap,
    now: Timestamp,
)
    requires
        n.height < u64::MAX,
    ensures
        received_refusal(n, b, utxos, now) is None <==> {
            let work = pow_hash_of(header_bytes(b.header));
            &&& n.blocks@.len() > 0 ==> b.header.prev_hash@ == pow_hash_of(
                header_bytes(n.blocks@.last()),
            )
            &&& n.blocks@.len() == 0 ==> b.header.prev_hash@ == Seq::new(32, |i: int| 0u8)
            &&& be_value(work) <= be_value(b.header.difficulty.0@)
            &&& agrees_with_records(n.checkpoints@, n.height + 1, work)
            &&& signature_verifies(b)
            &&& b.header.timestamp <= now + 7200
            &&& n.height > 0 && n.blocks@.len() > 0 ==> b.header.timestamp
                > n.blocks@.last().timestamp
            &&& (median_of(n.timestamps@) matches Some(m) ==> b.header.timestamp > m)
            &&& b.header.merkle_root@ == transactions_root(b.transactions)
            &&& coinbase_fault(b, utxos) is None
            &&& all_spent_once(b.transactions)
        },
{
    let work = pow_hash_of(header_bytes(b.header));
    lemma_records(n.checkpoints@, (n.height + 1) as u64, work);
    law_no_output_is_spent_twice(b.transactions);
}

/// A block that a peer sent for a height is taken in exactly when the block before it is known and
/// it follows that one, and it is in order as every block has to be.
pub proof fn law_when_a_synced_block_is_taken(
    checkpoints: Seq<crate::storage::Checkpoint>,
    timestamps: Seq<Timestamp>,
    b: BlockV,
    height: Height,
    prev: Result<Option<BlockHeader>, Seq<char>>,
    utxos: LookupMap,
    now: Timestamp,
)
    requires
        height >= 1,
    ensures
        block_refusal(checkpoints, timestamps, b, height, prev, utxos, now) is None <==> {
            let work = pow_hash_of(header_bytes(b.header));
            &&& height > 1 ==> {
                &&& prev matches Ok(Some(before))
                &&& b.header.prev_hash@ == pow_hash_of(header_bytes(before))
                &&& b.header.timestamp > before.timestamp
            }
            &&& height == 1 ==> b.header.prev_hash@ == Seq::new(32, |i: int| 0u8)
            &&& be_value(work) <= be_value(b.header.difficulty.0@)
            &&& agrees_with_records(checkpoints, height as int, work)
            &&& signature_verifies(b)
            &&& b.header.timestamp <= now + 7200
            &&& (median_of(timestamps) matches Some(m) ==> b.header.timestamp > m)
            &&& b.header.merkle_root@ == transactions_root(b.transactions)
            &&& coinbase_fault(b, utxos) is None
            &&& all_spent_once(b.transactions)
        },
{
    let work = pow_hash_of(header_bytes(b.header));
    lemma_records(checkpoints, height, work);
    law_no_output_is_spent_twice(b.transactions);
}

/// A block that is taken in is the new tip, one higher than the old one; a waiting transaction
/// leaves the pool exactly when it is in the block, and those that stay keep their order.
pub proof fn law_taken_block_is_the_tip(
    before: Node,
    after: Node,
    header: BlockHeader,
    txs: Seq<TransactionV>,
    hash: Hash32,
    t: Transaction,
)
    requires
        received_block_applied(before, after, header, txs, hash),
        before.height < u64::MAX,
    ensures
        after.height == before.height + 1,
        after.blocks@.len() == before.blocks@.len() + 1,
        after.blocks@.last() == header,
        after.blocks@.drop_last() == before.blocks@,
        after.timestamps@.last() == header.timestamp,
        after.block_hashes@[hash] == after.height,
        after.mempool@.contains(t) <==> before.mempool@.contains(t) && !among(t@, txs),
        among(t@, txs) ==> after.processed_txids@.contains(txid_array(t@)),
        after.total_emitted == before.total_emitted,
{
    broadcast use vstd::seq_lib::group_filter_ensures;

    let keep = |t: Transaction| !included(t@, txs);
    lemma_included(t@, txs, Set::empty());
    lemma_included(t@, txs, before.processed_txids@);
    assert(before.blocks@.push(header).drop_last() =~= before.blocks@);
    if after.mempool@.contains(t) {
        let i = choose|i: int| 0 <= i < after.mempool@.len() && after.mempool@[i] == t;
        assert(keep(after.mempool@[i]));
        before.mempool@.lemma_filter_contains_rev(keep, t);
    }
    if before.mempool@.contains(t) && !among(t@, txs) {
        assert(keep(t));
        let i = choose|i: int| 0 <= i < before.mempool@.len() && before.mempool@[i] == t;
        assert(keep(before.mempool@[i]));
    }
}

/// Whether a block holds a transaction that creates no coins with the identifier of `t`.
pub open spec fn among(t: TransactionV, txs: Seq<TransactionV>) -> bool {
    exists|i: int|
        0 <= i < txs.len() && !coinbase_transaction(#[trigger] txs[i]) && txid_array(txs[i])
            == txid_array(t)
}

proof fn lemma_included(t: TransactionV, txs: Seq<TransactionV>, known: Set<Txid>)
    ensures
        with_txids(known, txs).contains(txid_array(t)) <==> known.contains(txid_array(t)) || among(
            t,
            txs,
        ),
    decreases txs.len(),
{
    if txs.len() > 0 {
        let rest = txs.drop_last();
        lemma_included(t, rest, known);
        if among(t, rest) {
            let i = choose|i: int|
                0 <= i < rest.len() && !coinbase_transaction(#[trigger] rest[i]) && txid_array(
                    rest[i],
                ) == txid_array(t);
            assert(txs[i] == rest[i]);
        }
        if among(t, txs) {
            let i = choose|i: int|
                0 <= i < txs.len() && !coinbase_transaction(#[trigger] txs[i]) && txid_array(txs[i])
                    == txid_array(t);
            if i < rest.len() {
                assert(rest[i] == txs[i]);
            }
        }
        if !coinbase_transaction(txs.last()) && txid_array(txs.last()) == txid_array(t) {
            assert(txs[txs.len() - 1] == txs.last());
        }
    }
}

/// Every block of a batch that is taken in is known by its hash at its height, which is that of
/// its place behind the height at which the batch starts.
pub proof fn law_batch_blocks_stand_at_their_heights(
    m: Map<Hash32, Height>,
    headers: Seq<BlockHeader>,
    start: Height,
    k: nat,
    i: int,
)
    requires
        k <= headers.len(),
        start + k <= u64::MAX,
        0 <= i < k,
        forall|a: int, b: int|
            0 <= a < b < headers.len() ==> header_hash(#[trigger] headers[a]) != header_hash(
                #[trigger] headers[b],
            ),
    ensures
        indexed(m, headers, start, k).contains_key(header_hash(headers[i])),
        indexed(m, headers, start, k)[header_hash(headers[i])] == start + i + 1,
    decreases k,
{
    if i < k - 1 {
        law_batch_blocks_stand_at_their_heights(m, headers, start, (k - 1) as nat, i);
        assert(header_hash(headers[i]) != header_hash(headers[k - 1]));
    }
}

/// Whether a write is about an output.
pub open spec fn is_about(op: StoreOpV, p: OutPoint) -> bool {
    match op {
        StoreOpV::SaveUtxo(q, _) => q == p,
        StoreOpV::DeleteUtxo(q) => q == p,
        _ => false,
    }
}

/// Of the writes about an output the last one decides what the store answers: what was saved, or
/// nothing where it was deleted. Without such a write the answer stays.
pub proof fn law_last_write_decides(
    m: Map<OutPoint, Result<TxOutV, Seq<char>>>,
    ops: Seq<StoreOpV>,
    p: OutPoint,
    k: int,
)
    requires
        -1 <= k < ops.len(),
        k >= 0 ==> is_about(ops[k], p),
        forall|j: int| k < j < ops.len() ==> !is_about(#[trigger] ops[j], p),
    ensures
        ({
            let r = answers_after(m, ops);
            &&& k < 0 ==> (r.contains_key(p) <==> m.contains_key(p)) && r[p] == m[p]
            &&& k >= 0 ==> (ops[k] matches StoreOpV::SaveUtxo(_, o) ==> r.contains_key(p) && r[p]
                == Ok::<TxOutV, Seq<char>>(o))
            &&& k >= 0 && ops[k] is DeleteUtxo ==> !r.contains_key(p)
        }),
    decreases ops.len(),
{
    if ops.len() > 0 && k < ops.len() - 1 {
        let rest = ops.drop_last();
        assert forall|j: int| k < j < rest.len() implies !is_about(#[trigger] rest[j], p) by {
            assert(rest[j] == ops[j]);
        }
        if k >= 0 {
            assert(rest[k] == ops[k]);
        }
        law_last_write_decides(m, rest, p, k);
        assert(!is_about(ops[ops.len() - 1], p));
    }
}

/// A batch that is taken in stands at the end of the chain in its order, with its timestamps, and
/// at the end of what was synchronised; what was there before stays.
pub proof fn law_batch_extends_the_chain(
    before: Node,
    after: Node,
    blocks: Seq<Block>,
    start: Height,
    k: nat,
    i: int,
)
    requires
        chain_grown(before, after, blocks, start, k),
        k <= blocks.len(),
        0 <= i < k,
    ensures
        after.blocks@.len() == before.blocks@.len() + k,
        after.timestamps@.len() == before.timestamps@.len() + k,
        after.blocks@.take(before.blocks@.len() as int) == before.blocks@,
        after.timestamps@.take(before.timestamps@.len() as int) == before.timestamps@,
        after.blocks@[before.blocks@.len() + i] == blocks[i].header,
        after.timestamps@[before.timestamps@.len() + i] == blocks[i].header.timestamp,
        after.mempool == before.mempool,
        after.total_emitted == before.total_emitted,
{
}

/// The writes of a batch: for each block in its order, the block at its height and then what it
/// does to the outputs.
pub proof fn law_writes_of_a_batch(blocks: Seq<Block>, start: Height, n: nat)
    requires
        n < blocks.len(),
        start + n < u64::MAX,
    ensures
        batch_ops(blocks, start, 0).len() == 0,
        ({
            let before = batch_ops(blocks, start, n);
            let after = batch_ops(blocks, start, n + 1);
            let k = before.len() as int;
            &&& after.take(k) == before
            &&& after[k] == StoreOpV::SaveBlock((start + n + 1) as u64)
            &&& after.skip(k + 1) == block_ops(blocks[n as int]@.transactions)
        }),
{
    let before = batch_ops(blocks, start, n);
    let after = batch_ops(blocks, start, n + 1);
    let k = before.len() as int;
    assert(after.take(k) =~= before);
    assert(after.skip(k + 1) =~= block_ops(blocks[n as int]@.transactions));
}

} // verus!
