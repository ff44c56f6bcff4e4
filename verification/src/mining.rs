//! Putting blocks together and searching for their nonces.
use crate::block::{
    coinbase_transaction, fee_of, header_bytes, output_sum, output_views, p2pkh_output,
    transaction_views, with_nonce, Block, BlockHeader, LookupMap, Transaction, TransactionV, TxOut,
    TxOutV, UtxoLookups,
};
use crate::bytes::{array_less, be_value, le_bytes, lemma_be_value_injective};
use crate::collections::{lemma_sum_prefix, lemma_sum_push, sum_of, OrdSet};
use crate::constants::{
    BLOCK_REWARD_LYT, EPOCH_BLOCKS, MINING_BATCH_SIZE, SHARE_DIFFICULTY_RATIO,
    SHARE_PREFILTER_RATIO, TARGET_BLOCK_TIME,
};
use crate::crypto::{bumped, passes_prefilter, pow_hash_of, Argon2Cache};
use crate::mempool::{lemma_txid_array, txid_array};
use crate::miner::{capped_sum, Share};
use crate::node::{
    block_ops, block_seal, checkpoint_made, epoch_ended, epoch_ops, next_target, op_views,
    retarget_defined, seal, share_added, tip_hash_array, update_utxo_set, wallet_view, Node,
    StoreOp, StoreOpV,
};
use crate::p2p::{
    all_spent_once, capped_height, law_no_output_is_spent_twice, paid_out, root_of_transactions,
    spent_in, transactions_root, validate_block_no_double_spend,
};
use crate::storage::backup_due;
use crate::types::{current_timestamp, saturated_product, Hash32, Height, Target, Timestamp, Txid};
use vstd::prelude::*;

verus! {

/// The share target of a target.
pub open spec fn share_target_from(t: Target) -> Target {
    choose|s: Target|
        be_value(s.0@) == saturated_product(be_value(t.0@), SHARE_DIFFICULTY_RATIO as nat)
}

/// The prefilter target of a target.
pub open spec fn prefilter_target_from(t: Target) -> Target {
    choose|s: Target|
        be_value(s.0@) == saturated_product(
            saturated_product(be_value(t.0@), SHARE_DIFFICULTY_RATIO as nat),
            SHARE_PREFILTER_RATIO as nat,
        )
}

/// A target is determined by the number that it writes.
pub proof fn lemma_target_unique(a: Target, b: Target)
    requires
        be_value(a.0@) == be_value(b.0@),
    ensures
        a == b,
{
    lemma_be_value_injective(a.0@, b.0@);
    assert(a.0 =~= b.0);
}

/// Where a search for a nonce stands.
#[derive(Debug, Clone, Copy, PartialEq, Eq)]
pub struct SearchResult {
    pub found: bool,
    pub nonce: u64,
    pub hash: Hash32,
}

/// What a search knows.
#[verifier::ext_equal]
pub struct SearchState {
    pub found: bool,
    pub nonce: u64,
    pub hash: Seq<u8>,
}

impl View for SearchResult {
    type V = SearchState;

    open spec fn view(&self) -> SearchState {
        SearchState { found: self.found, nonce: self.nonce, hash: self.hash@ }
    }
}

/// The proof-of-work hash of a header with a nonce.
pub open spec fn work_of(h: BlockHeader, nonce: u64) -> Seq<u8> {
    pow_hash_of(header_bytes(with_nonce(h, nonce)))
}

/// What a search knows after the first `n` nonces: a nonce that passes the prefilter and whose
/// hash meets the target ends it; until then it keeps the first nonce with the lowest hash that
/// meets the share target.
pub open spec fn search_state(h: BlockHeader, n: nat) -> SearchState
    decreases n,
{
    if n == 0 {
        SearchState { found: false, nonce: 0, hash: Seq::new(32, |i: int| 0xFFu8) }
    } else {
        let s = search_state(h, (n - 1) as nat);
        let nonce = (n - 1) as u64;
        let work = work_of(h, nonce);
        if s.found || !passes_prefilter(
            header_bytes(h),
            nonce,
            prefilter_target_from(h.difficulty).0@,
        ) {
            s
        } else if be_value(work) <= be_value(h.difficulty.0@) {
            SearchState { found: true, nonce, hash: work }
        } else if be_value(work) <= be_value(share_target_from(h.difficulty).0@) && be_value(work)
            < be_value(s.hash) {
            SearchState { found: false, nonce, hash: work }
        } else {
            s
        }
    }
}

proof fn lemma_search_found(h: BlockHeader, m: nat, n: nat)
    requires
        m <= n,
        search_state(h, m).found,
    ensures
        search_state(h, n) == search_state(h, m),
    decreases n,
{
    if m < n {
        lemma_search_found(h, m, (n - 1) as nat);
    }
}

/// A search that ends hands back a nonce whose hash meets the target; one that does not, but that
/// kept a nonce, kept one whose hash meets the share target.
pub proof fn law_search_finds_work(h: BlockHeader, n: nat)
    requires
        n <= u64::MAX,
    ensures
        ({
            let s = search_state(h, n);
            &&& s.found ==> s.hash == work_of(h, s.nonce) && be_value(s.hash) <= be_value(
                h.difficulty.0@,
            ) && s.nonce < n
            &&& !s.found && s.hash != Seq::new(32, |i: int| 0xFFu8) ==> s.hash == work_of(
                h,
                s.nonce,
            ) && be_value(s.hash) <= be_value(share_target_from(h.difficulty).0@) && s.nonce < n
        }),
    decreases n,
{
    if n > 0 {
        law_search_finds_work(h, (n - 1) as nat);
    }
}

/// Searches the first `count` nonces of a header.
pub fn search_nonces(header: &BlockHeader, count: u64, argon2: &mut Argon2Cache) -> (r:
    SearchResult)
    ensures
        r@ == search_state(*header, count as nat),
        final(argon2).max_size() == old(argon2).max_size(),
{
    let difficulty = header.difficulty;
    let target_share = difficulty.share_target();
    let target_prefilter = difficulty.prefilter_target();
    proof {
        lemma_target_unique(target_share, share_target_from(difficulty));
        lemma_target_unique(target_prefilter, prefilter_target_from(difficulty));
    }
    let bytes = header.to_bytes();
    let ones: Hash32 = [0xFFu8; 32];
    let mut best = SearchResult { found: false, nonce: 0, hash: ones };
    assert(best@ =~= search_state(*header, 0)) by {
        assert(ones@ =~= Seq::new(32, |i: int| 0xFFu8));
    }
    let mut nonce: u64 = 0;
    while nonce < count
        invariant
            nonce <= count,
            difficulty == header.difficulty,
            target_share == share_target_from(difficulty),
            target_prefilter == prefilter_target_from(difficulty),
            bytes@ == header_bytes(*header),
            best@ == search_state(*header, nonce as nat),
            !best.found,
            argon2.max_size() == old(argon2).max_size(),
        decreases count - nonce,
    {
        if Argon2Cache::prefilter(&bytes, nonce, &target_prefilter) {
            let hash = header.hash_with_nonce(nonce, argon2);
            if difficulty.is_met_by(&hash) {
                proof {
                    lemma_search_found(*header, (nonce + 1) as nat, count as nat);
                }
                return SearchResult { found: true, nonce, hash };
            }
            if target_share.is_met_by(&hash) && array_less(&hash, &best.hash) {
                best = SearchResult { found: false, nonce, hash };
            }
        }
        nonce += 1;
    }
    best
}

/// The transactions that go into a block, and their fees: in order, as long as they take up no
/// more than a megabyte together, those whose fee can be told.
pub open spec fn chosen_from(
    list: Seq<TransactionV>,
    sizes: Seq<usize>,
    utxos: LookupMap,
    i: int,
    size: nat,
    fees: u64,
    chosen: Seq<TransactionV>,
) -> (Seq<TransactionV>, u64)
    decreases list.len() - i,
{
    if i < 0 || i >= list.len() || size + sizes[i] > 1_000_000 {
        (chosen, fees)
    } else {
        match fee_of(list[i], utxos) {
            Ok(fee) => chosen_from(
                list,
                sizes,
                utxos,
                i + 1,
                size + sizes[i] as nat,
                capped_sum(fees, fee as u64),
                chosen.push(list[i]),
            ),
            Err(_) => chosen_from(list, sizes, utxos, i + 1, size, fees, chosen),
        }
    }
}

/// The transactions that go into a block, and their fees, given the sizes of the transactions
/// and what the store answers on the outputs that they spend.
pub fn select_transactions(list: &Vec<Transaction>, sizes: &Vec<usize>, utxos: &UtxoLookups) -> (r:
    (Vec<Transaction>, u64))
    requires
        sizes@.len() == list@.len(),
    ensures
        (transaction_views(r.0@), r.1) == chosen_from(
            transaction_views(list@),
            sizes@,
            utxos@,
            0,
            0,
            0,
            Seq::empty(),
        ),
{
    let ghost views = transaction_views(list@);
    let mut chosen: Vec<Transaction> = Vec::new();
    let mut fees: u64 = 0;
    let mut size: usize = 0;
    let mut i: usize = 0;
    assert(transaction_views(chosen@) =~= Seq::<TransactionV>::empty());
    while i < list.len()
        invariant
            i <= list@.len(),
            sizes@.len() == list@.len(),
            views == transaction_views(list@),
            size <= 1_000_000,
            chosen_from(views, sizes@, utxos@, 0, 0, 0, Seq::empty()) == chosen_from(
                views,
                sizes@,
                utxos@,
                i as int,
                size as nat,
                fees,
                transaction_views(chosen@),
            ),
        decreases list@.len() - i,
    {
        let tx_size: usize = sizes[i];
        if tx_size > 1_000_000 - size {
            return (chosen, fees);
        }
        assert(views[i as int] == list@[i as int]@);
        match list[i].fee(utxos) {
            Ok(fee) => {
                fees = fees.saturating_add(fee);
                let ghost before = transaction_views(chosen@);
                chosen.push(list[i].clone());
                assert(transaction_views(chosen@) =~= before.push(views[i as int]));
                size = size + tx_size;
            },
            Err(_) => {},
        }
        i += 1;
    }
    (chosen, fees)
}

/// Whether `t` pays `outputs` as the coinbase of the block at a height.
pub open spec fn coinbase_for(t: TransactionV, outputs: Seq<TxOutV>, height: Height) -> bool {
    &&& coinbase_transaction(t)
    &&& t.version == 1
    &&& t.inputs[0].script_sig == le_bytes(height as nat, 8)
    &&& t.inputs[0].sequence == 0xFFFF_FFFF
    &&& t.outputs == outputs
    &&& t.locktime == 0
}

/// A block before its nonce is known.
#[derive(Debug)]
pub struct BlockTemplate {
    pub header: BlockHeader,
    pub transactions: Vec<Transaction>,
}

/// Whether a node can pay itself for a block.
pub open spec fn reward_payable(n: Node) -> bool {
    wallet_view(n.wallet) matches Some(w) && p2pkh_output(w.address) is Ok
}

/// Whether `t` is the block that a node puts together at `now`.
pub open spec fn template_made(
    n: Node,
    sizes: Seq<usize>,
    utxos: LookupMap,
    now: Timestamp,
    header: BlockHeader,
    txs: Seq<TransactionV>,
) -> bool {
    let (chosen, fees) = chosen_from(
        transaction_views(n.mempool@),
        sizes,
        utxos,
        0,
        0,
        0,
        Seq::empty(),
    );
    let reward = TxOutV {
        value: capped_sum(BLOCK_REWARD_LYT, fees),
        ..p2pkh_output(wallet_view(n.wallet)->0.address)->Ok_0
    };
    &&& txs.len() == chosen.len() + 1
    &&& coinbase_for(txs[0], seq![reward], capped_height(n.height, 1))
    &&& txs.drop_first() == chosen
    &&& header.version == 1
    &&& header.prev_hash == tip_hash_array(n.blocks@)
    &&& header.merkle_root@ == transactions_root(txs)
    &&& header.timestamp == now
    &&& be_value(header.difficulty.0@) == next_target(n.height, n.blocks@, n.timestamps@)
    &&& header.nonce == 0
    &&& header.epoch_index == n.epoch
}

/// Whether it is time for a block at `now`: a minute has passed since the last one.
pub open spec fn mining_due(blocks: Seq<BlockHeader>, now: Timestamp) -> bool {
    blocks.len() > 0 ==> now - blocks.last().timestamp >= TARGET_BLOCK_TIME
}

/// Whether two transactions of a block that create no coins have one identifier.
pub open spec fn repeats_txid(txs: Seq<TransactionV>) -> bool {
    exists|i: int, j: int|
        0 <= i < j < txs.len() && !coinbase_transaction(#[trigger] txs[i]) && !coinbase_transaction(
            #[trigger] txs[j],
        ) && txid_array(txs[i]) == txid_array(txs[j])
}

/// Whether two transactions of a block that create no coins have one identifier.
pub fn has_repeated_txid(txs: &Vec<Transaction>) -> (r: bool)
    ensures
        r == repeats_txid(transaction_views(txs@)),
{
    let ghost views = transaction_views(txs@);
    let mut seen: OrdSet<Txid> = OrdSet::new();
    let mut i: usize = 0;
    while i < txs.len()
        invariant
            i <= txs@.len(),
            views == transaction_views(txs@),
            forall|t: Txid| #[trigger]
                seen@.contains(t) <==> exists|k: int|
                    0 <= k < i && !coinbase_transaction(#[trigger] views[k]) && txid_array(views[k])
                        == t,
            forall|a: int, b: int|
                0 <= a < b < i && !coinbase_transaction(#[trigger] views[a])
                    && !coinbase_transaction(#[trigger] views[b]) ==> txid_array(views[a])
                    != txid_array(views[b]),
        decreases txs@.len() - i,
    {
        assert(views[i as int] == txs@[i as int]@);
        if !txs[i].is_coinbase() {
            let txid = txs[i].compute_txid();
            proof {
                lemma_txid_array(views[i as int], txid);
            }
            if seen.contains(&txid) {
                return true;
            }
            let ghost was = seen@;
            seen.insert(txid);
            assert forall|t: Txid| #[trigger] seen@.contains(t) implies exists|k: int|
                0 <= k < i + 1 && !coinbase_transaction(#[trigger] views[k]) && txid_array(views[k])
                    == t by {
                if t == txid {
                    assert(!coinbase_transaction(views[i as int]));
                } else {
                    assert(was.contains(t));
                }
            }
        }
        i += 1;
    }
    false
}

/// The known identifiers with those of the transactions of a block that create no coins.
pub open spec fn with_txids(known: Set<Txid>, txs: Seq<TransactionV>) -> Set<Txid>
    decreases txs.len(),
{
    if txs.len() == 0 {
        known
    } else if coinbase_transaction(txs.last()) {
        with_txids(known, txs.drop_last())
    } else {
        with_txids(known, txs.drop_last()).insert(txid_array(txs.last()))
    }
}

/// Adds the identifiers of the transactions of a block that create no coins.
pub fn insert_txids(known: &mut OrdSet<Txid>, txs: &Vec<Transaction>)
    ensures
        final(known)@ == with_txids(old(known)@, transaction_views(txs@)),
{
    let ghost views = transaction_views(txs@);
    let ghost start = known@;
    let mut i: usize = 0;
    assert(views.take(0) =~= Seq::<TransactionV>::empty());
    while i < txs.len()
        invariant
            i <= txs@.len(),
            views == transaction_views(txs@),
            known@ == with_txids(start, views.take(i as int)),
        decreases txs@.len() - i,
    {
        assert(views[i as int] == txs@[i as int]@);
        assert(views.take(i + 1).drop_last() =~= views.take(i as int));
        if !txs[i].is_coinbase() {
            let txid = txs[i].compute_txid();
            proof {
                lemma_txid_array(views[i as int], txid);
            }
            known.insert(txid);
        }
        i += 1;
    }
    assert(views.take(i as int) =~= views);
}

/// A number held to the largest one.
pub open spec fn capped_total(x: nat) -> u64 {
    if x <= u64::MAX {
        x as u64
    } else {
        u64::MAX
    }
}

/// The node after a block of its own was put at the end of the chain.
pub open spec fn own_block_appended(
    before: Node,
    after: Node,
    header: BlockHeader,
    txs: Seq<TransactionV>,
    hash: Hash32,
) -> bool {
    let height = capped_height(before.height, 1);
    &&& after == (Node {
        height,
        blocks: after.blocks,
        block_hashes: after.block_hashes,
        timestamps: after.timestamps,
        blocks_found: bumped(before.blocks_found),
        total_emitted: capped_sum(
            before.total_emitted,
            capped_total(output_sum(txs[0].outputs)),
        ),
        processed_txids: after.processed_txids,
        mempool: after.mempool,
        ..before
    })
    &&& after.blocks@ == before.blocks@.push(header)
    &&& after.block_hashes@ == before.block_hashes@.insert(hash, height)
    &&& after.timestamps@ == before.timestamps@.push(header.timestamp)
    &&& after.processed_txids@ == with_txids(before.processed_txids@, txs)
    &&& after.mempool@ == Seq::<Transaction>::empty()
}

/// The writes for a block of the node's own.
pub open spec fn own_block_ops(after: Node, txs: Seq<TransactionV>) -> Seq<StoreOpV> {
    seq![StoreOpV::SaveBlock(after.height), StoreOpV::SaveEmitted(after.total_emitted)]
        + block_ops(txs) + seq![StoreOpV::SaveMempool]
}

impl Node {
    /// Whether it is time for a block at `now`.
    pub fn is_mining_due(&self, now: Timestamp) -> (r: bool)
        ensures
            r == mining_due(self.blocks@, now),
    {
        let n: usize = self.blocks.len();
        if n == 0 {
            return true;
        }
        let last: Timestamp = self.blocks[n - 1].timestamp;
        now >= last && now - last >= TARGET_BLOCK_TIME
    }

    /// Puts the next block together at `now`, where the node can pay itself for it.
    pub fn prepare_block(&mut self, sizes: &Vec<usize>, utxos: &UtxoLookups, now: Timestamp) -> (r:
        Option<BlockTemplate>)
        requires
            retarget_defined(old(self).height, old(self).timestamps@),
            sizes@.len() == old(self).mempool@.len(),
        ensures
            *final(self) == (Node { argon2: final(self).argon2, ..*old(self) }),
            match r {
                None => !reward_payable(*old(self)),
                Some(t) => reward_payable(*old(self)) && template_made(
                    *old(self),
                    sizes@,
                    utxos@,
                    now,
                    t.header,
                    transaction_views(t.transactions@),
                ),
            },
    {
        let (chosen, fees) = select_transactions(&self.mempool, sizes, utxos);
        let reward: Option<TxOut> = match &self.wallet {
            Some(w) => match TxOut::create_p2pkh(w.address.as_str()) {
                Ok(output) => Some(output),
                Err(_) => None,
            },
            None => None,
        };
        let mut output = match reward {
            Some(output) => output,
            None => {
                return None;
            },
        };
        output.value = BLOCK_REWARD_LYT.saturating_add(fees);
        let outputs: Vec<TxOut> = vec![output];
        assert(output_views(outputs@) =~= seq![output@]);
        let coinbase = Transaction::coinbase(outputs, self.height.saturating_add(1));
        let mut transactions: Vec<Transaction> = vec![coinbase];
        let mut rest: Vec<Transaction> = chosen;
        transactions.append(&mut rest);
        let ghost views = transaction_views(transactions@);
        proof {
            assert(views[0] == coinbase@);
            assert(views.drop_first() =~= transaction_views(chosen@));
        }
        let prev_hash = self.last_hash();
        let difficulty = self.last_difficulty();
        let mut header = BlockHeader::new_at(prev_hash, self.epoch, difficulty, now);
        header.merkle_root = root_of_transactions(transactions.as_slice());
        Some(BlockTemplate { header, transactions })
    }

    /// Puts a block of the node's own, with its hash, at the end of the chain. The writes are
    /// handed back.
    pub fn append_own_block(&mut self, block: &Block, hash: Hash32) -> (r: Vec<StoreOp>)
        requires
            block.transactions@.len() > 0,
        ensures
            own_block_appended(
                *old(self),
                *final(self),
                block.header,
                block@.transactions,
                hash,
            ),
            op_views(r@) == own_block_ops(*final(self), block@.transactions),
            old(self).wf() ==> final(self).wf(),
    {
        let ghost txs = block@.transactions;
        let new_height: Height = self.height.saturating_add(1);
        self.blocks.push(block.header);
        self.block_hashes.insert(hash, new_height);
        self.timestamps.push(block.header.timestamp);
        self.height = new_height;
        self.blocks_found = self.blocks_found.saturating_add(1);
        assert(txs[0] == block.transactions@[0]@);
        let out: u128 = paid_out(&block.transactions[0]);
        let coinbase_out: u64 = if out > u64::MAX as u128 {
            u64::MAX
        } else {
            out as u64
        };
        self.total_emitted = self.total_emitted.saturating_add(coinbase_out);
        let mut ops: Vec<StoreOp> = Vec::new();
        let op_block = StoreOp::SaveBlock(new_height);
        let op_emitted = StoreOp::SaveEmitted(self.total_emitted);
        ops.push(op_block);
        ops.push(op_emitted);
        assert(op_views(ops@) =~= seq![
            StoreOpV::SaveBlock(self.height),
            StoreOpV::SaveEmitted(self.total_emitted),
        ]);
        let ghost head = op_views(ops@);
        let mut changes = update_utxo_set(&block.transactions);
        let ghost tail = op_views(changes@);
        ops.append(&mut changes);
        assert(op_views(ops@) =~= head + tail);
        insert_txids(&mut self.processed_txids, &block.transactions);
        self.mempool.clear();
        let ghost nearly = op_views(ops@);
        let op_mempool = StoreOp::SaveMempool;
        ops.push(op_mempool);
        assert(op_views(ops@) =~= nearly.push(op_mempool@));
        assert(op_views(ops@) =~= own_block_ops(*self, txs));
        ops
    }
}

/// A block that was found.
pub struct MinedBlock {
    pub block: Block,
    pub hash: Hash32,
    pub ops: Vec<StoreOp>,
    pub share_saved: bool,
    pub backup: bool,
}

/// What came of an attempt to mine a block.
pub enum MineOutcome {
    /// It is too early for a block.
    NotDue,
    /// The node cannot pay itself for a block.
    NoReward,
    /// The block repeats a transaction or spends an output twice.
    Refused,
    /// A block was found.
    Mined(MinedBlock),
    /// No block was found, but a share; says whether it was taken in.
    Share(bool, Hash32),
    /// Nothing was found.
    Nothing,
}

/// The times and the states that an attempt to mine a block goes through.
pub struct MiningTrace {
    pub started: Timestamp,
    pub ended: Timestamp,
    pub closed: Timestamp,
    pub header: BlockHeader,
    pub txs: Seq<TransactionV>,
    pub sought: Node,
    pub searched: Node,
    pub shared: Node,
    pub appended: Node,
    pub settled: Node,
}

/// The block that a node makes of its template with a nonce.
pub open spec fn sealed_block(n: Node, t: MiningTrace, nonce: u64) -> crate::block::BlockV {
    let h = with_nonce(t.header, nonce);
    let (signature, pubkey) = block_seal(wallet_view(n.wallet), pow_hash_of(header_bytes(h)));
    crate::block::BlockV { header: h, transactions: t.txs, signature, pubkey }
}

/// The states and the writes after a block was found: its share is handed in, the block is put at
/// the end of the chain, the epoch ends where it is the last of one, and the chain is recorded
/// where that is due.
pub open spec fn block_kept(n: Node, after: Node, t: MiningTrace, m: MinedBlock) -> bool {
    let h = m.block.header;
    let interval = n.config.advanced.checkpoint_interval;
    let ends = t.appended.height as int % EPOCH_BLOCKS as int == 0;
    let records = t.settled.height as int % interval as int == 0;
    &&& share_added(
        t.searched,
        t.shared,
        (Share {
            miner_id: n.miner_id,
            header: h,
            nonce: h.nonce,
            hash: m.hash,
            timestamp: t.ended,
        }),
        m.share_saved,
    )
    &&& own_block_appended(t.shared, t.appended, h, t.txs, m.hash)
    &&& if ends {
        epoch_ended(t.appended, t.settled, t.ended)
    } else {
        t.settled == t.appended
    }
    &&& if records {
        checkpoint_made(t.settled, after, t.closed, true)
    } else {
        after == t.settled
    }
    &&& op_views(m.ops@) == own_block_ops(t.appended, t.txs) + (if ends {
        epoch_ops(t.appended, t.settled)
    } else {
        Seq::empty()
    }) + seq![StoreOpV::SaveHeight(t.settled.height), StoreOpV::SaveEpoch(t.settled.epoch)] + (
    if records {
        seq![StoreOpV::SaveCheckpoint(t.settled.height)]
    } else {
        Seq::empty()
    })
    &&& m.backup == (after.height > 0 && after.height as int
        % n.config.advanced.backup_interval_blocks as int == 0)
}

/// What comes of a search that ended in a state, along a trace: a block that was found is refused
/// or kept, else the best share is handed in.
pub open spec fn search_settled(
    n: Node,
    after: Node,
    s: SearchState,
    r: MineOutcome,
    t: MiningTrace,
) -> bool {
    &&& t.searched == (Node { argon2: t.searched.argon2, ..n })
    &&& if s.found {
        if repeats_txid(t.txs) || !spent_in(t.txs).no_duplicates() {
            r is Refused && after == n
        } else {
            r matches MineOutcome::Mined(m) && m.block@ == sealed_block(n, t, s.nonce) && m.hash@
                == s.hash && block_kept(n, after, t, m)
        }
    } else if s.hash != Seq::new(32, |i: int| 0xFFu8) {
        r matches MineOutcome::Share(saved, hash) && hash@ == s.hash && share_added(
            n,
            after,
            (Share {
                miner_id: n.miner_id,
                header: t.header,
                nonce: s.nonce,
                hash,
                timestamp: t.ended,
            }),
            saved,
        )
    } else {
        r is Nothing && after == n
    }
}

/// What comes of an attempt to mine a block, along a trace: `t.sought` is the node after the
/// search.
pub open spec fn mined(
    n: Node,
    after: Node,
    sizes: Seq<usize>,
    utxos: LookupMap,
    r: MineOutcome,
    t: MiningTrace,
) -> bool {
    if !mining_due(n.blocks@, t.started) {
        r is NotDue && after == n
    } else if !reward_payable(n) {
        r is NoReward && after == (Node { argon2: after.argon2, ..n })
    } else {
        &&& template_made(n, sizes, utxos, t.started, t.header, t.txs)
        &&& t.sought == (Node { argon2: t.sought.argon2, ..n })
        &&& search_settled(
            t.sought,
            after,
            search_state(t.header, MINING_BATCH_SIZE as nat),
            r,
            t,
        )
    }
}

/// The next block and the outcome of the search for its nonce.
#[derive(Debug)]
pub struct SearchedBlock {
    pub template: BlockTemplate,
    pub search: SearchResult,
}

/// What came of the search for a block.
pub enum SearchOutcome {
    /// It is too early for a block.
    NotDue,
    /// The node cannot pay itself for a block.
    NoReward,
    /// A block was put together and a batch of nonces searched for it.
    Searched(SearchedBlock),
}

/// What comes of the search for a block that starts at a time.
pub open spec fn block_searched(
    n: Node,
    after: Node,
    sizes: Seq<usize>,
    utxos: LookupMap,
    started: Timestamp,
    r: SearchOutcome,
) -> bool {
    &&& after == (Node { argon2: after.argon2, ..n })
    &&& if !mining_due(n.blocks@, started) {
        r is NotDue && after == n
    } else if !reward_payable(n) {
        r is NoReward
    } else {
        &&& r matches SearchOutcome::Searched(w)
        &&& template_made(
            n,
            sizes,
            utxos,
            started,
            w.template.header,
            transaction_views(w.template.transactions@),
        )
        &&& w.search@ == search_state(w.template.header, MINING_BATCH_SIZE as nat)
    }
}

impl Node {
    /// Puts the next block together at `started`, where it is time for one, and searches a batch of
    /// nonces for it.
    pub fn search_block_at(
        &mut self,
        sizes: &Vec<usize>,
        utxos: &UtxoLookups,
        started: Timestamp,
    ) -> (r: SearchOutcome)
        requires
            retarget_defined(old(self).height, old(self).timestamps@),
            sizes@.len() == old(self).mempool@.len(),
        ensures
            block_searched(*old(self), *final(self), sizes@, utxos@, started, r),
            old(self).wf() ==> final(self).wf(),
    {
        if !self.is_mining_due(started) {
            return SearchOutcome::NotDue;
        }
        let template = match self.prepare_block(sizes, utxos, started) {
            Some(template) => template,
            None => {
                return SearchOutcome::NoReward;
            },
        };
        let search = search_nonces(&template.header, MINING_BATCH_SIZE, &mut self.argon2);
        SearchOutcome::Searched(SearchedBlock { template, search })
    }

    /// Settles a search that ended at `ended`. A block that was found is put at the end of the
    /// chain, which is recorded at `closed` where that is due; otherwise the best share is handed
    /// in. The writes are handed back.
    pub fn settle_search_at(
        &mut self,
        work: SearchedBlock,
        ended: Timestamp,
        closed: Timestamp,
    ) -> (r: MineOutcome)
        requires
            old(self).wf(),
            work.template.transactions@.len() > 0,
            retarget_defined(old(self).height, old(self).timestamps@),
            old(self).share_pool.current_epoch < u32::MAX,
            old(self).config.advanced.checkpoint_interval != 0,
            old(self).config.advanced.backup_interval_blocks != 0,
        ensures
            final(self).wf(),
            exists|t: MiningTrace|
                t.ended == ended && t.closed == closed && t.header == work.template.header && t.txs
                    == transaction_views(work.template.transactions@) && #[trigger] search_settled(
                    *old(self),
                    *final(self),
                    work.search@,
                    r,
                    t,
                ),
    {
        let ghost n = *self;
        let mut header = work.template.header;
        let transactions = work.template.transactions;
        let search = work.search;
        let ghost mut t = MiningTrace {
            started: 0,
            ended,
            closed,
            header,
            txs: transaction_views(transactions@),
            sought: n,
            searched: n,
            shared: n,
            appended: n,
            settled: n,
        };
        if search.found {
            header.nonce = search.nonce;
            if has_repeated_txid(&transactions) {
                assert(search_settled(n, *self, search@, MineOutcome::Refused, t));
                return MineOutcome::Refused;
            }
            let preview = Block { header, transactions, signature: None, pubkey: None };
            if validate_block_no_double_spend(&preview).is_err() {
                proof {
                    let k = choose|k: int| #[trigger]
                        crate::p2p::first_repeat(spent_in(preview@.transactions), k);
                    let s = spent_in(preview@.transactions);
                    let j = choose|j: int| 0 <= j < k && s.take(k)[j] == s[k];
                    assert(s[j] == s[k]);
                    assert(!s.no_duplicates());
                    assert(search_settled(n, *self, search@, MineOutcome::Refused, t));
                }
                return MineOutcome::Refused;
            }
            let block_hash = header.hash(&mut self.argon2);
            let hash: Hash32 = search.hash;
            proof {
                assert(header == with_nonce(t.header, search.nonce));
                t = MiningTrace { searched: *self, ..t };
            }
            let (signature, pubkey) = seal(&self.wallet, &block_hash);
            let block = Block {
                header,
                transactions: preview.transactions,
                signature,
                pubkey,
            };
            assert(block@ =~= sealed_block(n, t, search.nonce));
            let share = Share::new_at(self.miner_id, header, search.nonce, hash, ended);
            let share_saved: bool = self.add_share(share);
            proof {
                t = MiningTrace { shared: *self, ..t };
            }
            let mut ops = self.append_own_block(&block, hash);
            proof {
                t = MiningTrace { appended: *self, ..t };
            }
            let ghost ops_1 = op_views(ops@);
            if self.height % EPOCH_BLOCKS == 0 {
                let mut more = self.process_epoch_end(ended);
                let ghost extra = op_views(more@);
                ops.append(&mut more);
                assert(op_views(ops@) =~= ops_1 + extra);
            } else {
                assert(op_views(ops@) =~= ops_1 + Seq::<StoreOpV>::empty());
            }
            proof {
                t = MiningTrace { settled: *self, ..t };
            }
            let ghost ops_2 = op_views(ops@);
            let op_height = StoreOp::SaveHeight(self.height);
            let op_epoch = StoreOp::SaveEpoch(self.epoch);
            ops.push(op_height);
            ops.push(op_epoch);
            assert(op_views(ops@) =~= ops_2 + seq![op_height@, op_epoch@]);
            let ghost ops_3 = op_views(ops@);
            if self.height % self.config.advanced.checkpoint_interval == 0 {
                self.create_checkpoint(closed);
                let op_checkpoint = StoreOp::SaveCheckpoint(self.height);
                ops.push(op_checkpoint);
                assert(op_views(ops@) =~= ops_3 + seq![op_checkpoint@]);
            } else {
                assert(op_views(ops@) =~= ops_3 + Seq::<StoreOpV>::empty());
            }
            let backup: bool = backup_due(
                self.height,
                self.config.advanced.backup_interval_blocks,
            );
            let outcome = MinedBlock { block, hash, ops, share_saved, backup };
            assert(block_kept(n, *self, t, outcome));
            assert(search_settled(n, *self, search@, MineOutcome::Mined(outcome), t));
            return MineOutcome::Mined(outcome);
        }
        let ones: Hash32 = [0xFFu8; 32];
        assert(ones@ =~= Seq::new(32, |i: int| 0xFFu8));
        proof {
            if search.hash@ == ones@ {
                assert(search.hash =~= ones);
            }
        }
        if !crate::bytes::arrays_equal(&search.hash, &ones) {
            let share = Share::new_at(self.miner_id, header, search.nonce, search.hash, ended);
            let saved: bool = self.add_share(share);
            assert(search_settled(n, *self, search@, MineOutcome::Share(saved, search.hash), t));
            return MineOutcome::Share(saved, search.hash);
        }
        assert(search_settled(n, *self, search@, MineOutcome::Nothing, t));
        MineOutcome::Nothing
    }

    /// Mines a block: puts the next block together at `started`, where it is time for one, and
    /// searches a batch of nonces for it; the search ends at `ended`. A block that is found is put
    /// at the end of the chain, which is recorded at `closed` where that is due; otherwise the best
    /// share is handed in. The sizes of the waiting transactions and what the store answers on the
    /// outputs that they spend are given; the writes are handed back.
    pub fn mine_block_at(
        &mut self,
        sizes: &Vec<usize>,
        utxos: &UtxoLookups,
        started: Timestamp,
        ended: Timestamp,
        closed: Timestamp,
    ) -> (r: MineOutcome)
        requires
            old(self).wf(),
            retarget_defined(old(self).height, old(self).timestamps@),
            sizes@.len() == old(self).mempool@.len(),
            old(self).share_pool.current_epoch < u32::MAX,
            old(self).config.advanced.checkpoint_interval != 0,
            old(self).config.advanced.backup_interval_blocks != 0,
        ensures
            final(self).wf(),
            exists|t: MiningTrace|
                t.started == started && t.ended == ended && t.closed == closed
                    && #[trigger] mined(*old(self), *final(self), sizes@, utxos@, r, t),
    {
        let ghost n = *self;
        let outcome = self.search_block_at(sizes, utxos, started);
        let ghost sought = *self;
        match outcome {
            SearchOutcome::NotDue => {
                assert(mined(n, *self, sizes@, utxos@, MineOutcome::NotDue, idle(
                    n,
                    started,
                    ended,
                    closed,
                )));
                MineOutcome::NotDue
            },
            SearchOutcome::NoReward => {
                assert(mined(n, *self, sizes@, utxos@, MineOutcome::NoReward, idle(
                    n,
                    started,
                    ended,
                    closed,
                )));
                MineOutcome::NoReward
            },
            SearchOutcome::Searched(work) => {
                let ghost h = work.template.header;
                let ghost txs = transaction_views(work.template.transactions@);
                let r = self.settle_search_at(work, ended, closed);
                proof {
                    lemma_mined(n, sought, *self, sizes@, utxos@, started, ended, closed, h, txs, r);
                }
                r
            },
        }
    }

    /// Mines a block at the times that the clock shows when the search starts and when it ended.
    pub fn mine_block(&mut self, sizes: &Vec<usize>, utxos: &UtxoLookups) -> (r: MineOutcome)
        requires
            old(self).wf(),
            retarget_defined(old(self).height, old(self).timestamps@),
            sizes@.len() == old(self).mempool@.len(),
            old(self).share_pool.current_epoch < u32::MAX,
            old(self).config.advanced.checkpoint_interval != 0,
            old(self).config.advanced.backup_interval_blocks != 0,
        ensures
            final(self).wf(),
            exists|t: MiningTrace| #[trigger]
                mined(*old(self), *final(self), sizes@, utxos@, r, t),
    {
        let ghost n = *self;
        let started: Timestamp = current_timestamp();
        let outcome = self.search_block_at(sizes, utxos, started);
        let ghost sought = *self;
        match outcome {
            SearchOutcome::NotDue => {
                assert(mined(n, *self, sizes@, utxos@, MineOutcome::NotDue, idle(
                    n,
                    started,
                    0,
                    0,
                )));
                MineOutcome::NotDue
            },
            SearchOutcome::NoReward => {
                assert(mined(n, *self, sizes@, utxos@, MineOutcome::NoReward, idle(
                    n,
                    started,
                    0,
                    0,
                )));
                MineOutcome::NoReward
            },
            SearchOutcome::Searched(work) => {
                let ended: Timestamp = current_timestamp();
                let closed: Timestamp = current_timestamp();
                let ghost h = work.template.header;
                let ghost txs = transaction_views(work.template.transactions@);
                let r = self.settle_search_at(work, ended, closed);
                proof {
                    lemma_mined(n, sought, *self, sizes@, utxos@, started, ended, closed, h, txs, r);
                }
                r
            },
        }
    }
}

/// The trace of an attempt that did not get to a search.
spec fn idle(n: Node, started: Timestamp, ended: Timestamp, closed: Timestamp) -> MiningTrace {
    MiningTrace {
        started,
        ended,
        closed,
        header: arbitrary(),
        txs: Seq::empty(),
        sought: n,
        searched: n,
        shared: n,
        appended: n,
        settled: n,
    }
}

/// A search and its settlement make up an attempt to mine a block.
proof fn lemma_mined(
    n: Node,
    sought: Node,
    after: Node,
    sizes: Seq<usize>,
    utxos: LookupMap,
    started: Timestamp,
    ended: Timestamp,
    closed: Timestamp,
    header: BlockHeader,
    txs: Seq<TransactionV>,
    r: MineOutcome,
)
    requires
        mining_due(n.blocks@, started),
        reward_payable(n),
        template_made(n, sizes, utxos, started, header, txs),
        sought == (Node { argon2: sought.argon2, ..n }),
        exists|t: MiningTrace|
            t.ended == ended && t.closed == closed && t.header == header && t.txs == txs
                && #[trigger] search_settled(
                sought,
                after,
                search_state(header, MINING_BATCH_SIZE as nat),
                r,
                t,
            ),
    ensures
        exists|t: MiningTrace|
            t.started == started && t.ended == ended && t.closed == closed && #[trigger] mined(
                n,
                after,
                sizes,
                utxos,
                r,
                t,
            ),
{
    let s = search_state(header, MINING_BATCH_SIZE as nat);
    let t = choose|t: MiningTrace|
        t.ended == ended && t.closed == closed && t.header == header && t.txs == txs
            && #[trigger] search_settled(sought, after, s, r, t);
    let whole = MiningTrace { started, sought, ..t };
    assert(search_settled(sought, after, s, r, whole)) by {
        if r is Mined {
            assert(sealed_block(sought, whole, s.nonce) == sealed_block(sought, t, s.nonce));
        }
    }
    assert(mined(n, after, sizes, utxos, r, whole));
}

/// The fees of transactions, zero where one cannot be told.
pub open spec fn fees_in(txs: Seq<TransactionV>, utxos: LookupMap) -> Seq<nat> {
    txs.map_values(
        |t: TransactionV|
            match fee_of(t, utxos) {
                Ok(fee) => fee,
                Err(_) => 0,
            },
    )
}

/// A number, or the largest that fits.
pub open spec fn at_most_max(x: nat) -> nat {
    if x <= u64::MAX {
        x
    } else {
        u64::MAX as nat
    }
}

proof fn lemma_chosen_fees(
    list: Seq<TransactionV>,
    sizes: Seq<usize>,
    utxos: LookupMap,
    i: int,
    size: nat,
    fees: u64,
    chosen: Seq<TransactionV>,
)
    requires
        0 <= i <= list.len(),
        fees == at_most_max(sum_of(fees_in(chosen, utxos))),
        forall|j: int| 0 <= j < chosen.len() ==> fee_of(#[trigger] chosen[j], utxos) is Ok,
    ensures
        ({
            let r = chosen_from(list, sizes, utxos, i, size, fees, chosen);
            &&& r.1 == at_most_max(sum_of(fees_in(r.0, utxos)))
            &&& forall|j: int| 0 <= j < r.0.len() ==> fee_of(#[trigger] r.0[j], utxos) is Ok
        }),
    decreases list.len() - i,
{
    if i < list.len() && size + sizes[i] <= 1_000_000 {
        match fee_of(list[i], utxos) {
            Ok(fee) => {
                let more = chosen.push(list[i]);
                lemma_sum_push(fees_in(chosen, utxos), fee);
                assert(fees_in(more, utxos) =~= fees_in(chosen, utxos).push(fee));
                assert forall|j: int| 0 <= j < more.len() implies fee_of(
                    #[trigger] more[j],
                    utxos,
                ) is Ok by {
                    if j < chosen.len() {
                        assert(fee_of(chosen[j], utxos) is Ok);
                    }
                }
                lemma_chosen_fees(
                    list,
                    sizes,
                    utxos,
                    i + 1,
                    size + sizes[i] as nat,
                    capped_sum(fees, fee as u64),
                    more,
                );
            },
            Err(_) => {
                lemma_chosen_fees(list, sizes, utxos, i + 1, size, fees, chosen);
            },
        }
    }
}

/// The fees that come with the chosen transactions are those of all of them together, or the
/// largest number, and each can be told.
pub proof fn law_chosen_fees_add_up(
    list: Seq<TransactionV>,
    sizes: Seq<usize>,
    utxos: LookupMap,
)
    ensures
        ({
            let (chosen, fees) = chosen_from(list, sizes, utxos, 0, 0, 0, Seq::empty());
            &&& fees == at_most_max(sum_of(fees_in(chosen, utxos)))
            &&& forall|j: int| 0 <= j < chosen.len() ==> fee_of(#[trigger] chosen[j], utxos) is Ok
        }),
{
    let none = Seq::<TransactionV>::empty();
    lemma_sum_push(Seq::<nat>::empty(), 0);
    assert(fees_in(none, utxos) =~= Seq::<nat>::empty());
    lemma_chosen_fees(list, sizes, utxos, 0, 0, 0, none);
}

/// Whether `chosen` are the entries of a list at rising places, which take up no more than a
/// megabyte together.
pub open spec fn places_fit(
    list: Seq<TransactionV>,
    sizes: Seq<usize>,
    chosen: Seq<TransactionV>,
    at: Seq<int>,
) -> bool {
    &&& at.len() == chosen.len()
    &&& forall|j: int| 0 <= j < at.len() ==> 0 <= #[trigger] at[j] < list.len()
    &&& forall|j: int| 0 <= j < at.len() ==> chosen[j] == list[#[trigger] at[j]]
    &&& forall|j: int, l: int| 0 <= j < l < at.len() ==> #[trigger] at[j] < #[trigger] at[l]
    &&& sum_of(at.map_values(|p: int| sizes[p] as nat)) <= 1_000_000
}

proof fn lemma_chosen_places(
    list: Seq<TransactionV>,
    sizes: Seq<usize>,
    utxos: LookupMap,
    i: int,
    size: nat,
    fees: u64,
    chosen: Seq<TransactionV>,
    at: Seq<int>,
)
    requires
        0 <= i <= list.len(),
        places_fit(list, sizes, chosen, at),
        forall|j: int| 0 <= j < at.len() ==> #[trigger] at[j] < i,
        size == sum_of(at.map_values(|p: int| sizes[p] as nat)),
    ensures
        exists|to: Seq<int>| #[trigger]
            places_fit(
                list,
                sizes,
                chosen_from(list, sizes, utxos, i, size, fees, chosen).0,
                to,
            ),
    decreases list.len() - i,
{
    let f = |p: int| sizes[p] as nat;
    if i < list.len() && size + sizes[i] <= 1_000_000 {
        match fee_of(list[i], utxos) {
            Ok(fee) => {
                let more = at.push(i);
                lemma_sum_push(at.map_values(f), f(i));
                assert(more.map_values(f) =~= at.map_values(f).push(f(i)));
                assert(places_fit(list, sizes, chosen.push(list[i]), more));
                lemma_chosen_places(
                    list,
                    sizes,
                    utxos,
                    i + 1,
                    size + sizes[i] as nat,
                    capped_sum(fees, fee as u64),
                    chosen.push(list[i]),
                    more,
                );
                let rest = chosen_from(
                    list,
                    sizes,
                    utxos,
                    i + 1,
                    size + sizes[i] as nat,
                    capped_sum(fees, fee as u64),
                    chosen.push(list[i]),
                );
                assert(chosen_from(list, sizes, utxos, i, size, fees, chosen) == rest);
                let to = choose|to: Seq<int>| #[trigger] places_fit(list, sizes, rest.0, to);
                assert(places_fit(list, sizes, rest.0, to));
            },
            Err(_) => {
                lemma_chosen_places(list, sizes, utxos, i + 1, size, fees, chosen, at);
                let rest = chosen_from(list, sizes, utxos, i + 1, size, fees, chosen);
                assert(chosen_from(list, sizes, utxos, i, size, fees, chosen) == rest);
                let to = choose|to: Seq<int>| #[trigger] places_fit(list, sizes, rest.0, to);
                assert(places_fit(list, sizes, rest.0, to));
            },
        }
    } else {
        assert(places_fit(
            list,
            sizes,
            chosen_from(list, sizes, utxos, i, size, fees, chosen).0,
            at,
        ));
    }
}

/// The chosen transactions wait in the list, stand in its order, and take up no more than a
/// megabyte together.
pub proof fn law_chosen_transactions_fit(
    list: Seq<TransactionV>,
    sizes: Seq<usize>,
    utxos: LookupMap,
)
    ensures
        exists|at: Seq<int>| #[trigger]
            places_fit(
                list,
                sizes,
                chosen_from(list, sizes, utxos, 0, 0, 0, Seq::empty()).0,
                at,
            ),
{
    let none = Seq::<int>::empty();
    lemma_sum_push(Seq::<nat>::empty(), 0);
    assert(none.map_values(|p: int| sizes[p] as nat) =~= Seq::<nat>::empty());
    lemma_chosen_places(list, sizes, utxos, 0, 0, 0, Seq::empty(), none);
}

proof fn lemma_all_chosen(
    list: Seq<TransactionV>,
    sizes: Seq<usize>,
    utxos: LookupMap,
    i: int,
    fees: u64,
)
    requires
        0 <= i <= list.len(),
        sizes.len() == list.len(),
        forall|j: int| 0 <= j < list.len() ==> fee_of(#[trigger] list[j], utxos) is Ok,
        sum_of(sizes.map_values(|x: usize| x as nat)) <= 1_000_000,
    ensures
        chosen_from(
            list,
            sizes,
            utxos,
            i,
            sum_of(sizes.take(i).map_values(|x: usize| x as nat)),
            fees,
            list.take(i),
        ).0 == list,
    decreases list.len() - i,
{
    let f = |x: usize| x as nat;
    if i == list.len() {
        assert(list.take(i) =~= list);
    } else {
        let head = sizes.take(i).map_values(f);
        lemma_sum_push(head, sizes[i] as nat);
        assert(sizes.take(i + 1).map_values(f) =~= head.push(sizes[i] as nat));
        lemma_sum_prefix(sizes.map_values(f), i + 1);
        assert(sizes.map_values(f).take(i + 1) =~= sizes.take(i + 1).map_values(f));
        assert(list.take(i).push(list[i]) =~= list.take(i + 1));
        assert(fee_of(list[i], utxos) is Ok);
        lemma_all_chosen(
            list,
            sizes,
            utxos,
            i + 1,
            capped_sum(fees, fee_of(list[i], utxos)->Ok_0 as u64),
        );
    }
}

/// Where all waiting transactions fit into a megabyte and their fees can be told, all are chosen.
pub proof fn law_all_that_fit_are_chosen(
    list: Seq<TransactionV>,
    sizes: Seq<usize>,
    utxos: LookupMap,
)
    requires
        sizes.len() == list.len(),
        forall|j: int| 0 <= j < list.len() ==> fee_of(#[trigger] list[j], utxos) is Ok,
        sum_of(sizes.map_values(|x: usize| x as nat)) <= 1_000_000,
    ensures
        chosen_from(list, sizes, utxos, 0, 0, 0, Seq::empty()).0 == list,
{
    lemma_sum_push(Seq::<nat>::empty(), 0);
    assert(sizes.take(0).map_values(|x: usize| x as nat) =~= Seq::<nat>::empty());
    assert(list.take(0) =~= Seq::<TransactionV>::empty());
    lemma_all_chosen(list, sizes, utxos, 0, 0);
}

/// The first transaction of a block that a node puts together has one output, which pays the block
/// reward of 500000 and the fees of all the other transactions, or the largest number; it carries
/// the height of the block, and the block follows the tip of the chain.
pub proof fn law_template_pays_reward_and_fees(
    n: Node,
    sizes: Seq<usize>,
    utxos: LookupMap,
    now: Timestamp,
    header: BlockHeader,
    txs: Seq<TransactionV>,
)
    requires
        template_made(n, sizes, utxos, now, header, txs),
    ensures
        txs.len() > 0,
        txs[0].outputs.len() == 1,
        txs[0].outputs[0].value == at_most_max(
            500_000 + sum_of(fees_in(txs.drop_first(), utxos)),
        ),
        n.height < u64::MAX ==> txs[0].inputs[0].script_sig == le_bytes((n.height + 1) as nat, 8),
        header.merkle_root@ == transactions_root(txs),
        header.timestamp == now,
        header.epoch_index == n.epoch,
        forall|j: int| 1 <= j < txs.len() ==> fee_of(#[trigger] txs[j], utxos) is Ok,
{
    let list = transaction_views(n.mempool@);
    law_chosen_fees_add_up(list, sizes, utxos);
    let chosen = chosen_from(list, sizes, utxos, 0, 0, 0, Seq::empty()).0;
    assert forall|j: int| 1 <= j < txs.len() implies fee_of(#[trigger] txs[j], utxos) is Ok by {
        assert(txs.drop_first()[j - 1] == txs[j]);
        assert(fee_of(chosen[j - 1], utxos) is Ok);
    }
}

/// A search stops at the first nonce that passes the prefilter and whose work meets the target.
/// Where there is none, what it keeps is no higher than the work of any nonce that passes the
/// prefilter and meets the share target.
pub proof fn law_search_keeps_the_best(h: BlockHeader, n: nat, k: u64)
    requires
        n <= u64::MAX,
        k < n,
        passes_prefilter(header_bytes(h), k, prefilter_target_from(h.difficulty).0@),
    ensures
        ({
            let s = search_state(h, n);
            &&& be_value(work_of(h, k)) <= be_value(h.difficulty.0@) ==> s.found && s.nonce <= k
            &&& !s.found && be_value(work_of(h, k)) <= be_value(
                share_target_from(h.difficulty).0@,
            ) ==> be_value(s.hash) <= be_value(work_of(h, k))
        }),
    decreases n,
{
    let m = (n - 1) as nat;
    if k < m {
        law_search_keeps_the_best(h, m, k);
    } else {
        law_search_finds_work(h, m);
    }
}

/// A block that was mined is work that meets the target of the next block, follows the old tip,
/// holds the root of its transactions and spends no output twice; it is the new tip, one higher.
/// Its first transaction pays the node the reward of 500000 and all the fees, which is what is
/// emitted besides the rewards of an epoch that ends with it, and no transaction waits any more.
pub proof fn law_mined_block_is_the_tip(
    n: Node,
    after: Node,
    sizes: Seq<usize>,
    utxos: LookupMap,
    m: MinedBlock,
    t: MiningTrace,
)
    requires
        mined(n, after, sizes, utxos, MineOutcome::Mined(m), t),
        n.height < u64::MAX,
    ensures
        ({
            let h = m.block.header;
            let txs = m.block@.transactions;
            &&& n.blocks@.len() > 0 ==> t.started >= n.blocks@.last().timestamp + 60
            &&& h.prev_hash == tip_hash_array(n.blocks@)
            &&& m.hash@ == pow_hash_of(header_bytes(h))
            &&& be_value(pow_hash_of(header_bytes(h))) <= next_target(
                n.height,
                n.blocks@,
                n.timestamps@,
            )
            &&& h.merkle_root@ == transactions_root(txs)
            &&& h.epoch_index == n.epoch
            &&& h.timestamp == t.started
            &&& all_spent_once(txs)
            &&& txs.len() > 0
            &&& coinbase_transaction(txs[0])
            &&& txs[0].outputs.len() == 1
            &&& txs[0].outputs[0].value == at_most_max(
                500_000 + sum_of(fees_in(txs.drop_first(), utxos)),
            )
            &&& after.height == n.height + 1
            &&& after.blocks@ == n.blocks@.push(h)
            &&& after.timestamps@ == n.timestamps@.push(t.started)
            &&& after.block_hashes@.contains_key(m.hash)
            &&& after.block_hashes@[m.hash] == n.height + 1
            &&& after.mempool@.len() == 0
            &&& n.blocks_found < u64::MAX ==> after.blocks_found == n.blocks_found + 1
            &&& (n.height + 1) % 1440 != 0 ==> after.total_emitted == at_most_max(
                n.total_emitted as nat + txs[0].outputs[0].value as nat,
            ) && after.epoch == n.epoch
            &&& (n.height + 1) % 1440 == 0 && n.epoch < u32::MAX ==> after.epoch == n.epoch + 1
        }),
{
    let s = search_state(t.header, MINING_BATCH_SIZE as nat);
    law_search_finds_work(t.header, MINING_BATCH_SIZE as nat);
    law_template_pays_reward_and_fees(n, sizes, utxos, t.started, t.header, t.txs);
    law_no_output_is_spent_twice(t.txs);
    let txs = m.block@.transactions;
    assert(txs == t.txs);
    let outs = txs[0].outputs;
    crate::block::law_outputs_add_up(outs);
    lemma_sum_push(Seq::<nat>::empty(), outs[0].value as nat);
    assert(crate::block::output_values(outs) =~= Seq::<nat>::empty().push(outs[0].value as nat));
}

/// A block is due a minute after the last one, and at any time where there is none.
pub proof fn law_a_block_is_due_after_a_minute(blocks: Seq<BlockHeader>, now: Timestamp)
    ensures
        mining_due(blocks, now) <==> (blocks.len() == 0 || now >= blocks.last().timestamp + 60),
{
}

/// What comes of a search: a block is mined exactly when one was found that repeats no transaction
/// and spends no output twice; it is the template with the nonce that was found. One that does is
/// refused. Without a block the best share is handed in, if there is one. A refusal and a search
/// without a result leave the node as it was.
pub proof fn law_what_a_search_brings(
    n: Node,
    after: Node,
    s: SearchState,
    r: MineOutcome,
    t: MiningTrace,
)
    requires
        search_settled(n, after, s, r, t),
    ensures
        ({
            let sound = !repeats_txid(t.txs) && all_spent_once(t.txs);
            let nothing = forall|i: int| 0 <= i < 32 ==> #[trigger] s.hash[i] == 0xFF;
            &&& r is Mined <==> s.found && sound
            &&& r is Refused <==> s.found && !sound
            &&& s.hash.len() == 32 ==> (r is Nothing <==> !s.found && nothing)
            &&& s.hash.len() == 32 ==> (r is Share <==> !s.found && !nothing)
            &&& r is Refused || r is Nothing ==> after == n
            &&& (r matches MineOutcome::Mined(m) ==> m.block.header == with_nonce(t.header, s.nonce)
                && m.block@.transactions == t.txs && m.hash@ == s.hash)
            &&& (r matches MineOutcome::Share(_, hash) ==> hash@ == s.hash)
        }),
{
    law_no_output_is_spent_twice(t.txs);
    let ones = Seq::new(32, |i: int| 0xFFu8);
    if s.hash.len() == 32 && (forall|i: int| 0 <= i < 32 ==> #[trigger] s.hash[i] == 0xFF) {
        assert(s.hash =~= ones);
    }
}

/// After a block of its own a node knows what it knew before and the identifiers of all
/// transactions of the block that create no coins, and nothing else.
pub proof fn law_mined_identifiers_are_known(known: Set<Txid>, txs: Seq<TransactionV>, x: Txid)
    ensures
        with_txids(known, txs).contains(x) <==> known.contains(x) || exists|i: int|
            0 <= i < txs.len() && !coinbase_transaction(#[trigger] txs[i]) && txid_array(txs[i])
                == x,
    decreases txs.len(),
{
    if txs.len() > 0 {
        let rest = txs.drop_last();
        law_mined_identifiers_are_known(known, rest, x);
        assert(txs[txs.len() - 1] == txs.last());
        if exists|i: int|
            0 <= i < rest.len() && !coinbase_transaction(#[trigger] rest[i]) && txid_array(rest[i])
                == x {
            let i = choose|i: int|
                0 <= i < rest.len() && !coinbase_transaction(#[trigger] rest[i]) && txid_array(
                    rest[i],
                ) == x;
            assert(txs[i] == rest[i]);
        }
        if exists|i: int|
            0 <= i < txs.len() && !coinbase_transaction(#[trigger] txs[i]) && txid_array(txs[i])
                == x {
            let i = choose|i: int|
                0 <= i < txs.len() && !coinbase_transaction(#[trigger] txs[i]) && txid_array(txs[i])
                    == x;
            if i < rest.len() {
                assert(rest[i] == txs[i]);
            }
        }
    }
}

/// The writes for a block of the node's own: the block at its height and what was emitted, then
/// what the block does to the outputs, and last the pool.
pub proof fn law_writes_of_an_own_block(after: Node, txs: Seq<TransactionV>)
    ensures
        ({
            let ops = own_block_ops(after, txs);
            &&& ops.len() == block_ops(txs).len() + 3
            &&& ops[0] == StoreOpV::SaveBlock(after.height)
            &&& ops[1] == StoreOpV::SaveEmitted(after.total_emitted)
            &&& ops.subrange(2, ops.len() - 1) == block_ops(txs)
            &&& ops.last() == StoreOpV::SaveMempool
        }),
{
    let ops = own_block_ops(after, txs);
    assert(ops.subrange(2, ops.len() - 1) =~= block_ops(txs));
}

/// A block of the node's own is its template with the nonce, carries the public key of the wallet,
/// and is signed by it over its work.
pub proof fn law_own_blocks_are_signed(n: Node, t: MiningTrace, nonce: u64)
    ensures
        ({
            let b = sealed_block(n, t, nonce);
            &&& b.header == with_nonce(t.header, nonce)
            &&& b.transactions == t.txs
            &&& (wallet_view(n.wallet) matches Some(w) ==> b.pubkey == Some(w.public_key) && (
            crate::wallet::signing_fault(w.secret_key) is None ==> b.signature == Some(
                crate::primitives::ecdsa_signature(
                    w.secret_key,
                    pow_hash_of(header_bytes(with_nonce(t.header, nonce))),
                ),
            )))
            &&& wallet_view(n.wallet) is None ==> b.signature is None && b.pubkey is None
        }),
{
}

/// A search looks for shares up to 256 times the target, and lets the cheap digest pass up to 65536
/// times that, as far as 32 bytes can write it.
pub proof fn law_targets_of_a_search(t: Target, s: Target, p: Target)
    requires
        be_value(s.0@) == 256 * be_value(t.0@),
        be_value(p.0@) == 16_777_216 * be_value(t.0@),
    ensures
        be_value(share_target_from(t).0@) == be_value(s.0@),
        be_value(prefilter_target_from(t).0@) == be_value(p.0@),
{
    let v = be_value(t.0@);
    crate::bytes::lemma_be_value_bound(s.0@);
    crate::bytes::lemma_be_value_bound(p.0@);
    crate::types::law_share_target_ratios(v);
    assert(be_value(s.0@) == saturated_product(v, SHARE_DIFFICULTY_RATIO as nat));
    assert(be_value(p.0@) == saturated_product(
        saturated_product(v, SHARE_DIFFICULTY_RATIO as nat),
        SHARE_PREFILTER_RATIO as nat,
    ));
}

} // verus!
