//! The state of a node and what changes it.
use crate::block::{
    header_bytes, p2pkh_output, transaction_views, txid_of, with_nonce, Block, BlockHeader,
    Transaction, TransactionV, TxOut, TxOutV, UtxoLookups,
};
use crate::bytes::{arrays_equal, be_value, le_bytes, lemma_be_value_injective, push_le, vec_of};
use crate::collections::{
    lemma_map_of, lemma_sum_push, map_of, sorted_by_key, sum_of, OrdKey, OrdMap, OrdSet,
};
use crate::config::Config;
use crate::consensus::{
    calculate_poci, poci_outcome, reward_of, reward_total, EquivocationProof, PociInput,
};
use crate::constants::{
    ARGON2_CACHE_SIZE, DIFFICULTY_ADJUSTMENT_INTERVAL, EPOCH_REWARD_LYT, GENESIS_TIMESTAMP,
    MAX_SUPPLY_LYT, MINIMUM_BOND_LYT, SHARE_DIFFICULTY_RATIO,
};
use crate::crypto::{bumped, pow_hash_of, Argon2Cache};
use crate::difficulty::{adjust_difficulty, adjusted_value};
use crate::genesis::{create_genesis_block, genesis_header, genesis_transaction, GENESIS_OUTPUT_LYT};
use crate::mempool::{
    at_most, forgotten, lemma_txid_array, pool_fault, sorted_by_fee, take_transaction, txid_array,
};
use crate::median::{median_of, median_of_last};
use crate::miner::{
    ban_after, capped_sum, count_of, loyalty_after, pool_step, share_fault, InvalidRatio,
    LoyaltyData, MinerData, Share, SharePool,
};
use crate::network::{unlimited, unsuspecting, AttackDetection, DDoSProtection};
use crate::p2p::{header_hash, lemma_header_hash, sync_idle, SyncManager};
use crate::primitives::{sha256, sha256_of};
use crate::storage::{lock_end, Bond, Checkpoint};
use crate::types::{
    genesis_bytes, saturated_product, Hash32, Height, MinerId, OutPoint, Target, Timestamp, Txid,
};
use crate::wallet::{Wallet, WalletV};
use vstd::prelude::*;

verus! {

/// A node.
pub struct Node {
    pub height: Height,
    pub epoch: u32,
    pub blocks: Vec<BlockHeader>,
    pub block_hashes: OrdMap<Hash32, Height>,
    pub timestamps: Vec<Timestamp>,
    pub mempool: Vec<Transaction>,
    pub miners: OrdMap<MinerId, MinerData>,
    pub bonds: OrdMap<MinerId, Bond>,
    pub loyalty: OrdMap<MinerId, LoyaltyData>,
    pub share_pool: SharePool,
    pub argon2: Argon2Cache,
    pub blocks_found: u64,
    pub shares_found: u64,
    pub start_time: Timestamp,
    pub miner_id: MinerId,
    pub last_hash_rate: u64,
    pub peak_hash_rate: u64,
    pub wallet: Option<Wallet>,
    pub config: Config,
    pub equivocation_proofs: OrdMap<MinerId, Vec<EquivocationProof>>,
    pub attack_detection: AttackDetection,
    pub checkpoints: Vec<Checkpoint>,
    pub ddos_protection: DDoSProtection,
    pub processed_txids: OrdSet<Txid>,
    pub sync_manager: SyncManager,
    pub total_emitted: u64,
}

/// What is to be written to the store. A miner, a loyalty, the pool of transactions and a
/// checkpoint are written as they stand in the node.
pub enum StoreOp {
    SaveBlock(Height),
    SaveUtxo(OutPoint, TxOut),
    DeleteUtxo(OutPoint),
    SaveMiner(MinerId),
    SaveLoyalty(MinerId),
    SaveEmitted(u64),
    SaveMempool,
    SaveHeight(Height),
    SaveEpoch(u32),
    SaveCheckpoint(Height),
}

/// What a write to the store holds.
#[verifier::ext_equal]
pub enum StoreOpV {
    SaveBlock(Height),
    SaveUtxo(OutPoint, TxOutV),
    DeleteUtxo(OutPoint),
    SaveMiner(MinerId),
    SaveLoyalty(MinerId),
    SaveEmitted(u64),
    SaveMempool,
    SaveHeight(Height),
    SaveEpoch(u32),
    SaveCheckpoint(Height),
}

impl View for StoreOp {
    type V = StoreOpV;

    open spec fn view(&self) -> StoreOpV {
        match *self {
            StoreOp::SaveBlock(h) => StoreOpV::SaveBlock(h),
            StoreOp::SaveUtxo(p, o) => StoreOpV::SaveUtxo(p, o@),
            StoreOp::DeleteUtxo(p) => StoreOpV::DeleteUtxo(p),
            StoreOp::SaveMiner(m) => StoreOpV::SaveMiner(m),
            StoreOp::SaveLoyalty(m) => StoreOpV::SaveLoyalty(m),
            StoreOp::SaveEmitted(x) => StoreOpV::SaveEmitted(x),
            StoreOp::SaveMempool => StoreOpV::SaveMempool,
            StoreOp::SaveHeight(h) => StoreOpV::SaveHeight(h),
            StoreOp::SaveEpoch(e) => StoreOpV::SaveEpoch(e),
            StoreOp::SaveCheckpoint(h) => StoreOpV::SaveCheckpoint(h),
        }
    }
}

/// What a list of writes holds.
pub open spec fn op_views(s: Seq<StoreOp>) -> Seq<StoreOpV> {
    s.map_values(|o: StoreOp| o@)
}

/// The proof-of-work hash of the last header; zeros where there is none.
pub open spec fn tip_hash(blocks: Seq<BlockHeader>) -> Seq<u8> {
    if blocks.len() == 0 {
        Seq::new(32, |i: int| 0u8)
    } else {
        pow_hash_of(header_bytes(blocks.last()))
    }
}

/// The proof-of-work hash of the last header, as an array.
pub open spec fn tip_hash_array(blocks: Seq<BlockHeader>) -> Hash32 {
    choose|a: Hash32| a@ == tip_hash(blocks)
}

/// The target of the last header, or the easiest where there is none.
pub open spec fn tip_target(blocks: Seq<BlockHeader>) -> nat {
    if blocks.len() == 0 {
        be_value(genesis_bytes())
    } else {
        be_value(blocks.last().difficulty.0@)
    }
}

/// Whether the target is adjusted at a height.
pub open spec fn retargets(height: Height) -> bool {
    height >= DIFFICULTY_ADJUSTMENT_INTERVAL && height as int
        % DIFFICULTY_ADJUSTMENT_INTERVAL as int == 0
}

/// Whether the times of the last interval are known and did not run backwards, at a height at
/// which the target is adjusted.
pub open spec fn retarget_defined(height: Height, timestamps: Seq<Timestamp>) -> bool {
    retargets(height) ==> height < timestamps.len() && timestamps[height
        - DIFFICULTY_ADJUSTMENT_INTERVAL] <= timestamps[height as int]
}

/// The target of the next block.
pub open spec fn next_target(
    height: Height,
    blocks: Seq<BlockHeader>,
    timestamps: Seq<Timestamp>,
) -> nat {
    if retargets(height) {
        adjusted_value(
            timestamps.subrange(height - DIFFICULTY_ADJUSTMENT_INTERVAL, height + 1),
            tip_target(blocks),
        )
    } else {
        tip_target(blocks)
    }
}

/// The target that the shares of a node have to meet.
pub open spec fn share_target_of(n: Node) -> Target {
    choose|t: Target|
        be_value(t.0@) == saturated_product(
            next_target(n.height, n.blocks@, n.timestamps@),
            SHARE_DIFFICULTY_RATIO as nat,
        )
}

/// A miner after one more share.
pub open spec fn shared(d: MinerData, now: Timestamp) -> MinerData {
    MinerData {
        shares: bumped(d.shares),
        total_shares_historical: bumped(d.total_shares_historical),
        last_share_time: now,
        ..d
    }
}

/// Whether a miner is new.
pub open spec fn fresh_miner(d: MinerData, id: MinerId, bond: u64, epoch: u32, time: Timestamp) -> bool {
    &&& d.miner_id == id
    &&& d.pubkey@ == Seq::<u8>::empty()
    &&& d.shares == 0
    &&& d.bond == bond
    &&& d.loyalty == 0
    &&& d.last_epoch == epoch
    &&& d.invalid_ratio == (InvalidRatio { invalid: 0, total: 0 })
    &&& d.banned_until is None
    &&& d.last_share_time == time
    &&& d.total_shares_historical == 0
    &&& d.blocks_found == 0
    &&& d.total_rewards == 0
    &&& d.payout_address is None
    &&& d.first_seen == time
}

/// The loyalty of a miner, a new one where none is known.
pub open spec fn loyalty_or_new(m: Map<MinerId, LoyaltyData>, id: MinerId) -> LoyaltyData {
    if m.contains_key(id) {
        m[id]
    } else {
        LoyaltyData {
            value: 0,
            last_epoch: 0,
            missed_epochs: 0,
            consecutive_epochs: 0,
            grace_remaining: 0,
        }
    }
}

/// Whether the shares of a miner are looked at: it is not banned and has an active bond.
pub open spec fn share_considered(n: Node, share: Share) -> bool {
    &&& !(n.miners@.contains_key(share.miner_id) && (
    n.miners@[share.miner_id].banned_until matches Some(until) && share.timestamp < until))
    &&& n.bonds@.contains_key(share.miner_id)
    &&& n.bonds@[share.miner_id].created_at <= n.height < n.bonds@[share.miner_id].lock_until
}

/// Whether a share is valid work for the next block of a node.
pub open spec fn share_valid(n: Node, share: Share) -> bool {
    share_fault(
        share,
        share_target_of(n),
        tip_hash_array(n.blocks@),
        n.epoch,
        share.timestamp,
    ) is None
}

/// The node after a share was handed in, and whether it was taken in.
pub open spec fn share_added(before: Node, after: Node, share: Share, r: bool) -> bool {
    let id = share.miner_id;
    let now = share.timestamp;
    &&& after == (Node {
        share_pool: after.share_pool,
        argon2: after.argon2,
        miners: after.miners,
        loyalty: after.loyalty,
        shares_found: after.shares_found,
        ..before
    })
    &&& if !share_considered(before, share) {
        !r && after == before
    } else {
        exists|answer: Result<bool, &'static str>|
            {
                &&& #[trigger] pool_step(
                    before.share_pool,
                    after.share_pool,
                    share,
                    share_valid(before, share),
                    answer,
                )
                &&& r == (answer is Ok && answer->Ok_0)
                &&& if r {
                    &&& after.miners@.contains_key(id)
                    &&& after.miners@ == before.miners@.insert(id, after.miners@[id])
                    &&& if before.miners@.contains_key(id) {
                        after.miners@[id] == shared(before.miners@[id], now)
                    } else {
                        exists|d: MinerData|
                            after.miners@[id] == shared(d, now) && #[trigger] fresh_miner(
                                d,
                                id,
                                before.bonds@[id].amount,
                                before.epoch,
                                now,
                            )
                    }
                    &&& after.loyalty@ == before.loyalty@.insert(
                        id,
                        loyalty_after(loyalty_or_new(before.loyalty@, id), before.epoch, true),
                    )
                    &&& after.shares_found == bumped(before.shares_found)
                } else {
                    &&& after.loyalty@ == before.loyalty@
                    &&& after.shares_found == before.shares_found
                    &&& if answer is Err && before.miners@.contains_key(id) {
                        let total = count_of(after.share_pool.total_shares@, id);
                        let ratio = InvalidRatio {
                            total,
                            invalid: if total == 0 {
                                0
                            } else {
                                count_of(after.share_pool.invalid_shares@, id)
                            },
                        };
                        after.miners@ == before.miners@.insert(
                            id,
                            MinerData {
                                invalid_ratio: ratio,
                                banned_until: ban_after(
                                    ratio,
                                    now,
                                    before.miners@[id].banned_until,
                                ),
                                ..before.miners@[id]
                            },
                        )
                    } else {
                        after.miners@ == before.miners@
                    }
                }
            }
    }
}

impl Node {
    /// What every operation on a node keeps: its share pool is sound, and its miners are filed
    /// under their identifiers.
    pub open spec fn wf(self) -> bool {
        &&& self.share_pool.wf()
        &&& forall|m: MinerId| #[trigger]
            self.miners@.contains_key(m) ==> self.miners@[m].miner_id == m
    }

    /// A node with a wallet at a height and an epoch of the chain, before its state is loaded.
    pub fn create(config: Config, wallet: Wallet, height: Height, epoch: u32, now: Timestamp) -> (r:
        Self)
        ensures
            r.wf(),
            r.height == height,
            r.epoch == epoch,
            r.blocks@ == Seq::<BlockHeader>::empty(),
            r.block_hashes@ == Map::<Hash32, Height>::empty(),
            r.timestamps@ == Seq::<Timestamp>::empty(),
            r.mempool@ == Seq::<Transaction>::empty(),
            r.miners@ == Map::<MinerId, MinerData>::empty(),
            r.bonds@ == Map::<MinerId, Bond>::empty(),
            r.loyalty@ == Map::<MinerId, LoyaltyData>::empty(),
            r.share_pool.shares@ == Map::<MinerId, Vec<Share>>::empty(),
            r.share_pool.current_epoch == epoch,
            r.share_pool.max_memory_bytes == if config.advanced.share_pool_memory_mb * 1048576
                <= usize::MAX {
                (config.advanced.share_pool_memory_mb * 1048576) as usize
            } else {
                usize::MAX
            },
            r.share_pool.share_hashes@ == Set::<Hash32>::empty(),
            r.share_pool.invalid_shares@ == Map::<MinerId, u64>::empty(),
            r.share_pool.total_shares@ == Map::<MinerId, u64>::empty(),
            r.share_pool.memory_used == 0,
            r.share_pool.created_at == now,
            r.argon2.max_size() == ARGON2_CACHE_SIZE,
            r.argon2.entries() == Seq::<(Seq<u8>, Hash32, u64)>::empty(),
            r.argon2.hits() == 0,
            r.argon2.misses() == 0,
            r.argon2.timed() == 0,
            r.argon2.spent() == 0,
            r.blocks_found == 0,
            r.shares_found == 0,
            r.start_time == now,
            r.miner_id == wallet.miner_id,
            r.last_hash_rate == 0,
            r.peak_hash_rate == 0,
            r.wallet == Some(wallet),
            r.config == config,
            r.equivocation_proofs@ == Map::<MinerId, Vec<EquivocationProof>>::empty(),
            unsuspecting(r.attack_detection),
            unlimited(r.ddos_protection, now),
            sync_idle(r.sync_manager),
            r.checkpoints@ == Seq::<Checkpoint>::empty(),
            r.processed_txids@ == Set::<Txid>::empty(),
            r.total_emitted == 0,
    {
        let miner_id = wallet.miner_id;
        let mut share_pool = SharePool::new_at(config.advanced.share_pool_memory_mb, now);
        share_pool.current_epoch = epoch;
        Node {
            height,
            epoch,
            blocks: Vec::new(),
            block_hashes: OrdMap::new(),
            timestamps: Vec::new(),
            mempool: Vec::new(),
            miners: OrdMap::new(),
            bonds: OrdMap::new(),
            loyalty: OrdMap::new(),
            share_pool,
            argon2: Argon2Cache::new(ARGON2_CACHE_SIZE),
            blocks_found: 0,
            shares_found: 0,
            start_time: now,
            miner_id,
            last_hash_rate: 0,
            peak_hash_rate: 0,
            wallet: Some(wallet),
            config,
            equivocation_proofs: OrdMap::new(),
            attack_detection: AttackDetection::new(),
            checkpoints: Vec::new(),
            ddos_protection: DDoSProtection::new_at(now),
            processed_txids: OrdSet::new(),
            sync_manager: SyncManager::new(),
            total_emitted: 0,
        }
    }

    /// Puts a stored block at the end of the chain.
    pub fn load_block(&mut self, height: Height, block: &Block)
        ensures
            *final(self) == (Node {
                blocks: final(self).blocks,
                block_hashes: final(self).block_hashes,
                timestamps: final(self).timestamps,
                argon2: final(self).argon2,
                ..*old(self)
            }),
            final(self).blocks@ == old(self).blocks@.push(block.header),
            final(self).block_hashes@ == old(self).block_hashes@.insert(
                header_hash(block.header),
                height,
            ),
            final(self).timestamps@ == old(self).timestamps@.push(block.header.timestamp),
    {
        let hash = block.header.hash(&mut self.argon2);
        proof {
            lemma_header_hash(block.header, hash);
        }
        self.blocks.push(block.header);
        self.block_hashes.insert(hash, height);
        self.timestamps.push(block.header.timestamp);
    }

    /// Takes in a stored miner.
    pub fn load_miner(&mut self, miner: MinerData)
        ensures
            *final(self) == (Node { miners: final(self).miners, ..*old(self) }),
            final(self).miners@ == old(self).miners@.insert(miner.miner_id, miner),
            old(self).wf() ==> final(self).wf(),
    {
        let id = miner.miner_id;
        self.miners.insert(id, miner);
    }

    /// Takes in a stored bond.
    pub fn load_bond(&mut self, bond: Bond)
        ensures
            *final(self) == (Node { bonds: final(self).bonds, ..*old(self) }),
            final(self).bonds@ == old(self).bonds@.insert(bond.miner_id, bond),
    {
        self.bonds.insert(bond.miner_id, bond);
    }

    /// Takes in a loyalty that is stored under a key, where the key names a miner.
    pub fn load_loyalty(&mut self, key: &[u8], loyalty: LoyaltyData) -> (r: bool)
        ensures
            *final(self) == (Node { loyalty: final(self).loyalty, ..*old(self) }),
            r == (crate::storage::miner_of_key(key@) is Some),
            r ==> exists|id: MinerId|
                crate::storage::miner_of_key(key@) == Some(id@) && final(self).loyalty@ == (
                #[trigger] old(self).loyalty@.insert(id, loyalty)),
            !r ==> final(self).loyalty@ == old(self).loyalty@,
    {
        match crate::storage::parse_loyalty_key(key) {
            Some(id) => {
                self.loyalty.insert(id, loyalty);
                true
            },
            None => false,
        }
    }

    /// Takes in the stored emission and the stored pool of transactions.
    pub fn finish_loading(&mut self, total_emitted: Option<u64>, mempool: Vec<Transaction>)
        ensures
            *final(self) == (Node {
                total_emitted: match total_emitted {
                    Some(x) => x,
                    None => 0,
                },
                mempool,
                ..*old(self)
            }),
    {
        self.total_emitted = match total_emitted {
            Some(x) => x,
            None => 0,
        };
        self.mempool = mempool;
    }

    /// Takes in a stored checkpoint.
    pub fn load_checkpoint(&mut self, checkpoint: Checkpoint)
        ensures
            *final(self) == (Node { checkpoints: final(self).checkpoints, ..*old(self) }),
            final(self).checkpoints@ == old(self).checkpoints@.push(checkpoint),
    {
        self.checkpoints.push(checkpoint);
    }

    /// Whether the target of the next block can be told.
    pub fn retarget_known(&self) -> (r: bool)
        ensures
            r == retarget_defined(self.height, self.timestamps@),
    {
        if self.height < DIFFICULTY_ADJUSTMENT_INTERVAL || self.height
            % DIFFICULTY_ADJUSTMENT_INTERVAL != 0 {
            return true;
        }
        if self.height >= self.timestamps.len() as u64 {
            return false;
        }
        self.timestamps[(self.height - DIFFICULTY_ADJUSTMENT_INTERVAL) as usize]
            <= self.timestamps[self.height as usize]
    }

    /// The proof-of-work hash of the last header; zeros where there is none.
    pub fn last_hash(&mut self) -> (r: Hash32)
        ensures
            *final(self) == (Node { argon2: final(self).argon2, ..*old(self) }),
            r@ == tip_hash(old(self).blocks@),
            r == tip_hash_array(old(self).blocks@),
    {
        let n: usize = self.blocks.len();
        let ghost blocks = self.blocks@;
        let r: Hash32 = if n > 0 {
            let header = self.blocks[n - 1];
            header.hash(&mut self.argon2)
        } else {
            let zero: Hash32 = [0u8; 32];
            assert(zero@ =~= Seq::new(32, |i: int| 0u8));
            zero
        };
        assert(tip_hash_array(blocks) =~= r);
        r
    }

    /// The target of the next block.
    pub fn last_difficulty(&self) -> (r: Target)
        requires
            retarget_defined(self.height, self.timestamps@),
        ensures
            be_value(r.0@) == next_target(self.height, self.blocks@, self.timestamps@),
    {
        let n: usize = self.blocks.len();
        let current: Target = if n > 0 {
            self.blocks[n - 1].difficulty
        } else {
            Target::genesis()
        };
        if self.height >= DIFFICULTY_ADJUSTMENT_INTERVAL && self.height
            % DIFFICULTY_ADJUSTMENT_INTERVAL == 0 {
            let total: usize = self.timestamps.len();
            let end: usize = self.height as usize;
            assert(end == self.height && end < total);
            let start: usize = end - DIFFICULTY_ADJUSTMENT_INTERVAL as usize;
            let recent = &self.timestamps[start..end + 1];
            proof {
                assert(recent@[120] == self.timestamps@[end as int]);
                assert(recent@[0] == self.timestamps@[start as int]);
            }
            return adjust_difficulty(recent, &current);
        }
        current
    }

    /// The target that shares have to meet.
    fn current_share_target(&self) -> (r: Target)
        requires
            retarget_defined(self.height, self.timestamps@),
        ensures
            r == share_target_of(*self),
    {
        let r = self.last_difficulty().share_target();
        proof {
            lemma_be_value_injective(r.0@, share_target_of(*self).0@);
            assert(r.0 =~= share_target_of(*self).0);
        }
        r
    }

    /// Whether the node is within a hundredth of the highest peer; a node without peers, or whose
    /// peers have nothing, is.
    pub fn nearly_synced(&self, best_peer: Option<Height>) -> (r: bool)
        ensures
            r == match best_peer {
                Some(best) => 100 * self.height >= 99 * best,
                None => true,
            },
    {
        match best_peer {
            Some(best) => 100 * self.height as u128 >= 99 * best as u128,
            None => true,
        }
    }

    /// Whether the node should mine: mining is on, no synchronisation is under way, and the node is
    /// within a hundredth of the highest peer.
    pub fn should_mine(&self, syncing: bool, best_peer: Option<Height>) -> (r: bool)
        ensures
            r == (self.config.mining.enabled && !syncing && (best_peer matches Some(best) ==> 100
                * self.height >= 99 * best)),
    {
        self.config.mining.enabled && !syncing && self.nearly_synced(best_peer)
    }

    /// The bond that the node should lock for itself, where it has none: that of its configuration,
    /// but at least the smallest that counts.
    pub fn missing_bond(&self) -> (r: Option<u64>)
        ensures
            r == if self.bonds@.contains_key(self.miner_id) {
                None::<u64>
            } else if self.config.mining.bond < MINIMUM_BOND_LYT {
                Some(MINIMUM_BOND_LYT)
            } else {
                Some(self.config.mining.bond)
            },
    {
        if self.bonds.contains_key(&self.miner_id) {
            return None;
        }
        if self.config.mining.bond < MINIMUM_BOND_LYT {
            Some(MINIMUM_BOND_LYT)
        } else {
            Some(self.config.mining.bond)
        }
    }

    /// The middle one of the last eleven timestamps, where there are that many.
    pub fn median_timestamp(&self) -> (r: Option<Timestamp>)
        ensures
            r == median_of(self.timestamps@),
    {
        median_of_last(&self.timestamps)
    }

    /// The first checkpoint at a height.
    pub fn checkpoint_at(&self, height: Height) -> (r: Option<&Checkpoint>)
        ensures
            match r {
                Some(c) => exists|i: int| #[trigger]
                    first_checkpoint(self.checkpoints@, height, i) && *c == self.checkpoints@[i],
                None => forall|i: int|
                    0 <= i < self.checkpoints@.len() ==> (
                    #[trigger] self.checkpoints@[i]).height != height,
            },
    {
        let mut i: usize = 0;
        while i < self.checkpoints.len()
            invariant
                i <= self.checkpoints@.len(),
                forall|j: int| 0 <= j < i ==> (#[trigger] self.checkpoints@[j]).height != height,
            decreases self.checkpoints@.len() - i,
        {
            if self.checkpoints[i].height == height {
                assert(first_checkpoint(self.checkpoints@, height, i as int));
                return Some(&self.checkpoints[i]);
            }
            i += 1;
        }
        None
    }

    /// Locks a bond of a miner, where it is large enough; the bond is to be written to the store.
    pub fn add_bond(&mut self, miner_id: MinerId, amount: u64) -> (r: Option<Bond>)
        ensures
            old(self).wf() ==> final(self).wf(),
            match r {
                None => amount < MINIMUM_BOND_LYT && *final(self) == *old(self),
                Some(b) => {
                    &&& amount >= MINIMUM_BOND_LYT
                    &&& b == (Bond {
                        amount,
                        created_at: old(self).height,
                        lock_until: lock_end(old(self).height),
                        miner_id,
                    })
                    &&& final(self).bonds@ == old(self).bonds@.insert(miner_id, b)
                    &&& final(self).miners@ == if old(self).miners@.contains_key(miner_id) {
                        old(self).miners@.insert(
                            miner_id,
                            MinerData { bond: amount, ..old(self).miners@[miner_id] },
                        )
                    } else {
                        old(self).miners@
                    }
                    &&& *final(self) == (Node {
                        bonds: final(self).bonds,
                        miners: final(self).miners,
                        ..*old(self)
                    })
                },
            },
    {
        if amount < MINIMUM_BOND_LYT {
            return None;
        }
        let bond = Bond::new(amount, self.height, miner_id);
        self.bonds.insert(miner_id, bond);
        let ghost before = self.miners@;
        match self.miners.remove(&miner_id) {
            Some(m) => {
                let mut miner = m;
                miner.bond = amount;
                self.miners.insert(miner_id, miner);
                assert(before.remove(miner_id).insert(miner_id, miner) =~= before.insert(
                    miner_id,
                    miner,
                ));
            },
            None => {
                assert(before.remove(miner_id) =~= before);
            },
        }
        Some(bond)
    }

    /// Takes in a share of a miner with an active bond who is not banned. Valid work is counted
    /// for the miner; a share that the pool refuses is held against it.
    pub fn add_share(&mut self, share: Share) -> (r: bool)
        requires
            old(self).wf(),
            retarget_defined(old(self).height, old(self).timestamps@),
        ensures
            final(self).wf(),
            share_added(*old(self), *final(self), share, r),
    {
        let miner_id = share.miner_id;
        let now: Timestamp = share.timestamp;
        let banned: bool = match self.miners.get(&miner_id) {
            Some(miner) => miner.is_banned(now),
            None => false,
        };
        if banned {
            return false;
        }
        let bond = match self.bonds.get(&miner_id) {
            Some(b) => *b,
            None => {
                return false;
            },
        };
        if !bond.is_active(self.height) {
            return false;
        }
        let target_share = self.current_share_target();
        let expected_prev = self.last_hash();
        let is_valid: bool = share.validate(
            &target_share,
            &expected_prev,
            self.epoch,
            now,
            &mut self.argon2,
        ).is_ok();
        assert(is_valid == share_valid(*old(self), share));
        let ghost before = self.miners@;
        let answer = self.share_pool.add_share(share, is_valid);
        assert(pool_step(
            old(self).share_pool,
            self.share_pool,
            share,
            share_valid(*old(self), share),
            answer,
        ));
        match answer {
            Ok(true) => {
                let ghost was_known = before.contains_key(miner_id);
                let mut miner = match self.miners.remove(&miner_id) {
                    Some(m) => m,
                    None => MinerData::new(miner_id, bond.amount, self.epoch, now),
                };
                let ghost base = miner;
                miner.add_share(now);
                self.miners.insert(miner_id, miner);
                proof {
                    assert(before.remove(miner_id).insert(miner_id, miner) =~= before.insert(
                        miner_id,
                        miner,
                    ));
                    assert(miner == shared(base, now));
                    if !was_known {
                        assert(fresh_miner(base, miner_id, bond.amount, self.epoch, now));
                    }
                }
                let mut loyalty = match self.loyalty.get(&miner_id) {
                    Some(l) => *l,
                    None => LoyaltyData::new(),
                };
                loyalty.update(self.epoch, true);
                self.loyalty.insert(miner_id, loyalty);
                self.shares_found = self.shares_found.saturating_add(1);
                true
            },
            Ok(false) => false,
            Err(_) => {
                let ratio = self.share_pool.invalid_ratio(&miner_id);
                match self.miners.remove(&miner_id) {
                    Some(m) => {
                        let mut miner = m;
                        miner.update_invalid_ratio(ratio, now);
                        self.miners.insert(miner_id, miner);
                        assert(before.remove(miner_id).insert(miner_id, miner) =~= before.insert(
                            miner_id,
                            miner,
                        ));
                    },
                    None => {
                        assert(before.remove(miner_id) =~= before);
                    },
                }
                false
            },
        }
    }

    /// Takes a transaction into the pool, given what the store answers on the outputs that it and
    /// the pool spend.
    pub fn add_transaction_to_mempool(&mut self, tx: Transaction, utxos: &UtxoLookups) -> (r: Result<
        (),
        String,
    >)
        ensures
            *final(self) == (Node {
                mempool: final(self).mempool,
                processed_txids: final(self).processed_txids,
                ..*old(self)
            }),
            ({
                let list = transaction_views(old(self).mempool@);
                let known = old(self).processed_txids@;
                let max = old(self).config.advanced.max_mempool_size;
                match r {
                    Err(words) => pool_fault(list, known, tx@, utxos@) == Some(words@)
                        && *final(self) == *old(self),
                    Ok(()) => {
                        let sorted = sorted_by_fee(list.push(tx@), utxos@);
                        &&& pool_fault(list, known, tx@, utxos@) is None
                        &&& transaction_views(final(self).mempool@) == at_most(sorted, max as nat)
                        &&& final(self).processed_txids@ == forgotten(
                            known.insert(txid_array(tx@)),
                            sorted,
                            max as int,
                        )
                    },
                }
            }),
    {
        let max: usize = self.config.advanced.max_mempool_size;
        take_transaction(&mut self.mempool, &mut self.processed_txids, tx, utxos, max)
    }
}

/// Whether the checkpoint at `i` is the first at a height.
pub open spec fn first_checkpoint(s: Seq<Checkpoint>, height: Height, i: int) -> bool {
    &&& 0 <= i < s.len()
    &&& s[i].height == height
    &&& forall|j: int| 0 <= j < i ==> (#[trigger] s[j]).height != height
}

/// The writes that create the outputs of a transaction.
pub open spec fn created_ops(t: TransactionV) -> Seq<StoreOpV> {
    Seq::new(
        t.outputs.len(),
        |i: int| StoreOpV::SaveUtxo((txid_array(t), (i % 0x1_0000_0000) as u32), t.outputs[i]),
    )
}

/// The writes that delete the outputs that inputs spend.
pub open spec fn deleted_ops(ins: Seq<crate::block::TxInV>) -> Seq<StoreOpV>
    decreases ins.len(),
{
    if ins.len() == 0 {
        Seq::empty()
    } else if crate::block::coinbase_input(ins.last()) {
        deleted_ops(ins.drop_last())
    } else {
        deleted_ops(ins.drop_last()).push(
            StoreOpV::DeleteUtxo(crate::block::outpoint_of(ins.last())),
        )
    }
}

/// The writes that the transactions of a block make to the set of unspent outputs: for each in
/// order, its outputs are created, then what it spends is deleted.
pub open spec fn block_ops(txs: Seq<TransactionV>) -> Seq<StoreOpV>
    decreases txs.len(),
{
    if txs.len() == 0 {
        Seq::empty()
    } else {
        block_ops(txs.drop_last()) + created_ops(txs.last()) + deleted_ops(txs.last().inputs)
    }
}

/// The writes that the transactions of a block make to the set of unspent outputs.
pub fn update_utxo_set(txs: &Vec<Transaction>) -> (r: Vec<StoreOp>)
    ensures
        op_views(r@) == block_ops(transaction_views(txs@)),
{
    let ghost views = transaction_views(txs@);
    let mut ops: Vec<StoreOp> = Vec::new();
    let mut i: usize = 0;
    assert(views.take(0) =~= Seq::<TransactionV>::empty());
    assert(op_views(ops@) =~= Seq::<StoreOpV>::empty());
    while i < txs.len()
        invariant
            i <= txs@.len(),
            views == transaction_views(txs@),
            op_views(ops@) == block_ops(views.take(i as int)),
        decreases txs@.len() - i,
    {
        let tx = &txs[i];
        assert(views[i as int] == tx@);
        assert(views.take(i + 1).drop_last() =~= views.take(i as int));
        let txid = tx.compute_txid();
        proof {
            lemma_txid_array(tx@, txid);
        }
        let ghost start = op_views(ops@);
        let ghost created = created_ops(tx@);
        let mut j: usize = 0;
        assert(start + created.take(0) =~= start);
        while j < tx.outputs.len()
            invariant
                j <= tx.outputs@.len(),
                txid == txid_array(tx@),
                created == created_ops(tx@),
                op_views(ops@) == start + created.take(j as int),
            decreases tx.outputs@.len() - j,
        {
            let index: u32 = (j as u64 % 0x1_0000_0000) as u32;
            let op = StoreOp::SaveUtxo((txid, index), tx.outputs[j].clone());
            assert(op@ == created[j as int]);
            let ghost before = op_views(ops@);
            ops.push(op);
            assert(op_views(ops@) =~= before.push(op@));
            assert(created.take(j + 1) =~= created.take(j as int).push(created[j as int]));
            assert(before.push(op@) =~= start + created.take(j + 1));
            j += 1;
        }
        assert(created.take(j as int) =~= created);
        let ghost middle = op_views(ops@);
        let ghost ins = tx@.inputs;
        let mut k: usize = 0;
        assert(ins.take(0) =~= Seq::empty());
        assert(middle + deleted_ops(ins.take(0)) =~= middle);
        while k < tx.inputs.len()
            invariant
                k <= tx.inputs@.len(),
                ins == tx@.inputs,
                op_views(ops@) == middle + deleted_ops(ins.take(k as int)),
            decreases tx.inputs@.len() - k,
        {
            assert(ins[k as int] == tx.inputs@[k as int]@);
            assert(ins.take(k + 1).drop_last() =~= ins.take(k as int));
            if !tx.inputs[k].is_coinbase() {
                let op = StoreOp::DeleteUtxo(tx.inputs[k].outpoint());
                let ghost before = op_views(ops@);
                ops.push(op);
                assert(op_views(ops@) =~= before.push(op@));
                assert(op_views(ops@) =~= middle + deleted_ops(ins.take(k + 1)));
            }
            k += 1;
        }
        assert(ins.take(k as int) =~= ins);
        i += 1;
    }
    assert(views.take(i as int) =~= views);
    ops
}

/// A set of unspent outputs after writes.
pub open spec fn after_ops(m: Map<OutPoint, TxOutV>, ops: Seq<StoreOpV>) -> Map<OutPoint, TxOutV>
    decreases ops.len(),
{
    if ops.len() == 0 {
        m
    } else {
        let rest = after_ops(m, ops.drop_last());
        match ops.last() {
            StoreOpV::SaveUtxo(p, o) => rest.insert(p, o),
            StoreOpV::DeleteUtxo(p) => rest.remove(p),
            _ => rest,
        }
    }
}

/// Whether a transaction creates an output.
pub open spec fn creates(t: TransactionV, p: OutPoint) -> bool {
    exists|i: int|
        0 <= i < t.outputs.len() && p == (txid_array(t), (#[trigger] (i % 0x1_0000_0000)) as u32)
}

/// Whether a transaction spends an output.
pub open spec fn consumes(t: TransactionV, p: OutPoint) -> bool {
    exists|i: int|
        0 <= i < t.inputs.len() && !crate::block::coinbase_input(#[trigger] t.inputs[i])
            && crate::block::outpoint_of(t.inputs[i]) == p
}

proof fn lemma_after_concat(m: Map<OutPoint, TxOutV>, a: Seq<StoreOpV>, b: Seq<StoreOpV>)
    ensures
        after_ops(m, a + b) == after_ops(after_ops(m, a), b),
    decreases b.len(),
{
    if b.len() == 0 {
        assert(a + b =~= a);
    } else {
        assert((a + b).drop_last() =~= a + b.drop_last());
        lemma_after_concat(m, a, b.drop_last());
    }
}

proof fn lemma_after_created(m: Map<OutPoint, TxOutV>, t: TransactionV, n: int, p: OutPoint)
    requires
        0 <= n <= t.outputs.len(),
    ensures
        after_ops(m, created_ops(t).take(n)).contains_key(p) <==> m.contains_key(p) || exists|
            i: int,
        |
            0 <= i < n && p == (txid_array(t), (#[trigger] (i % 0x1_0000_0000)) as u32),
        !(exists|i: int|
            0 <= i < n && p == (txid_array(t), (#[trigger] (i % 0x1_0000_0000)) as u32)) && m.contains_key(p)
            ==> after_ops(m, created_ops(t).take(n))[p] == m[p],
    decreases n,
{
    let ops = created_ops(t).take(n);
    if n > 0 {
        lemma_after_created(m, t, n - 1, p);
        assert(ops.drop_last() =~= created_ops(t).take(n - 1));
        let q = (txid_array(t), ((n - 1) % 0x1_0000_0000) as u32);
        assert(ops.last() == StoreOpV::SaveUtxo(q, t.outputs[n - 1]));
        if p == q {
            assert(0 <= n - 1 < n && p == (txid_array(t), (((n - 1) % 0x1_0000_0000)) as u32));
        }
    } else {
        assert(ops =~= Seq::<StoreOpV>::empty());
    }
}

proof fn lemma_after_deleted(
    m: Map<OutPoint, TxOutV>,
    ins: Seq<crate::block::TxInV>,
    p: OutPoint,
)
    ensures
        ({
            let gone = exists|i: int|
                0 <= i < ins.len() && !crate::block::coinbase_input(#[trigger] ins[i])
                    && crate::block::outpoint_of(ins[i]) == p;
            &&& after_ops(m, deleted_ops(ins)).contains_key(p) <==> m.contains_key(p) && !gone
            &&& !gone && m.contains_key(p) ==> after_ops(m, deleted_ops(ins))[p] == m[p]
        }),
    decreases ins.len(),
{
    if ins.len() > 0 {
        let rest = ins.drop_last();
        lemma_after_deleted(m, rest, p);
        let ops = deleted_ops(ins);
        if !crate::block::coinbase_input(ins.last()) {
            assert(ops.drop_last() =~= deleted_ops(rest));
        }
        let gone = exists|i: int|
            0 <= i < ins.len() && !crate::block::coinbase_input(#[trigger] ins[i])
                && crate::block::outpoint_of(ins[i]) == p;
        let gone_before = exists|i: int|
            0 <= i < rest.len() && !crate::block::coinbase_input(#[trigger] rest[i])
                && crate::block::outpoint_of(rest[i]) == p;
        if gone_before {
            let i = choose|i: int|
                0 <= i < rest.len() && !crate::block::coinbase_input(#[trigger] rest[i])
                    && crate::block::outpoint_of(rest[i]) == p;
            assert(ins[i] == rest[i]);
            assert(gone);
        }
        if gone {
            let i = choose|i: int|
                0 <= i < ins.len() && !crate::block::coinbase_input(#[trigger] ins[i])
                    && crate::block::outpoint_of(ins[i]) == p;
            if i < rest.len() {
                assert(rest[i] == ins[i]);
            }
        }
        if !crate::block::coinbase_input(ins.last()) && crate::block::outpoint_of(ins.last())
            == p {
            assert(ins[ins.len() - 1] == ins.last());
            assert(gone);
        }
    }
}

/// What one transaction does to the set of unspent outputs.
proof fn lemma_after_transaction(m: Map<OutPoint, TxOutV>, t: TransactionV, p: OutPoint)
    ensures
        ({
            let r = after_ops(m, created_ops(t) + deleted_ops(t.inputs));
            &&& r.contains_key(p) <==> (m.contains_key(p) || creates(t, p)) && !consumes(t, p)
            &&& !creates(t, p) && !consumes(t, p) && m.contains_key(p) ==> r[p] == m[p]
        }),
{
    let mid = after_ops(m, created_ops(t));
    lemma_after_concat(m, created_ops(t), deleted_ops(t.inputs));
    assert(created_ops(t).take(t.outputs.len() as int) =~= created_ops(t));
    lemma_after_created(m, t, t.outputs.len() as int, p);
    lemma_after_deleted(mid, t.inputs, p);
}

/// What a block does to the set of unspent outputs: what it spends and does not create is gone,
/// what it creates and does not spend is there, and everything else is as it was.
pub proof fn law_block_updates_utxos(
    m: Map<OutPoint, TxOutV>,
    txs: Seq<TransactionV>,
    p: OutPoint,
)
    ensures
        ({
            let r = after_ops(m, block_ops(txs));
            let created = exists|i: int| 0 <= i < txs.len() && creates(#[trigger] txs[i], p);
            let spent = exists|i: int| 0 <= i < txs.len() && consumes(#[trigger] txs[i], p);
            &&& spent && !created ==> !r.contains_key(p)
            &&& created && !spent ==> r.contains_key(p)
            &&& !created && !spent ==> r.contains_key(p) == m.contains_key(p) && (m.contains_key(p)
                ==> r[p] == m[p])
        }),
    decreases txs.len(),
{
    if txs.len() > 0 {
        let rest = txs.drop_last();
        let t = txs.last();
        law_block_updates_utxos(m, rest, p);
        let mid = after_ops(m, block_ops(rest));
        let tail = created_ops(t) + deleted_ops(t.inputs);
        assert(block_ops(txs) =~= block_ops(rest) + tail);
        lemma_after_concat(m, block_ops(rest), tail);
        lemma_after_transaction(mid, t, p);
        assert(txs[txs.len() - 1] == t);
        let created = exists|i: int| 0 <= i < txs.len() && creates(#[trigger] txs[i], p);
        let spent = exists|i: int| 0 <= i < txs.len() && consumes(#[trigger] txs[i], p);
        if exists|i: int| 0 <= i < rest.len() && creates(#[trigger] rest[i], p) {
            let i = choose|i: int| 0 <= i < rest.len() && creates(#[trigger] rest[i], p);
            assert(creates(txs[i], p));
        }
        if exists|i: int| 0 <= i < rest.len() && consumes(#[trigger] rest[i], p) {
            let i = choose|i: int| 0 <= i < rest.len() && consumes(#[trigger] rest[i], p);
            assert(consumes(txs[i], p));
        }
        if created {
            let i = choose|i: int| 0 <= i < txs.len() && creates(#[trigger] txs[i], p);
            if i < rest.len() {
                assert(creates(rest[i], p));
            }
        }
        if spent {
            let i = choose|i: int| 0 <= i < txs.len() && consumes(#[trigger] txs[i], p);
            if i < rest.len() {
                assert(consumes(rest[i], p));
            }
        }
    }
}

/// The signature and the public key that a wallet puts on a block with a hash.
pub open spec fn block_seal(wallet: Option<WalletV>, hash: Seq<u8>) -> (
    Option<Seq<u8>>,
    Option<Seq<u8>>,
) {
    match wallet {
        None => (None, None),
        Some(w) => (
            if crate::wallet::signing_fault(w.secret_key) is None {
                Some(crate::primitives::ecdsa_signature(w.secret_key, hash))
            } else {
                None
            },
            Some(w.public_key),
        ),
    }
}

/// What the wallet of a node holds.
pub open spec fn wallet_view(w: Option<Wallet>) -> Option<WalletV> {
    match w {
        Some(wallet) => Some(wallet@),
        None => None,
    }
}

/// The signature and the public key that a wallet puts on a block with a hash.
pub fn seal(wallet: &Option<Wallet>, hash: &Hash32) -> (r: (Option<Vec<u8>>, Option<Vec<u8>>))
    ensures
        (crate::block::optional_bytes(r.0), crate::block::optional_bytes(r.1)) == block_seal(
            wallet_view(*wallet),
            hash@,
        ),
{
    match wallet {
        Some(w) => {
            let signature = match w.sign_block(hash) {
                Ok(s) => Some(s),
                Err(_) => None,
            };
            (signature, Some(vec_of(w.public_key.as_slice())))
        },
        None => (None, None),
    }
}

impl Node {
    /// Begins the chain with the first block. The block and the writes are handed back.
    pub fn init_genesis(&mut self) -> (r: (Block, Vec<StoreOp>))
        ensures
            ({
                let b = r.0@;
                let h = b.header;
                let t = b.transactions[0];
                &&& b.transactions.len() == 1
                &&& genesis_transaction(t)
                &&& h.merkle_root == txid_array(t)
                &&& h.merkle_root@ == txid_of(t)
                &&& exists|g: BlockHeader| #[trigger]
                    genesis_header(g) && h == (BlockHeader { merkle_root: h.merkle_root, ..g })
                &&& (b.signature, b.pubkey) == block_seal(
                    wallet_view(old(self).wallet),
                    pow_hash_of(header_bytes(h)),
                )
                &&& *final(self) == (Node {
                    blocks: final(self).blocks,
                    block_hashes: final(self).block_hashes,
                    timestamps: final(self).timestamps,
                    argon2: final(self).argon2,
                    total_emitted: GENESIS_OUTPUT_LYT,
                    ..*old(self)
                })
                &&& final(self).blocks@ == old(self).blocks@.push(h)
                &&& final(self).block_hashes@ == old(self).block_hashes@.insert(header_hash(h), 0)
                &&& final(self).timestamps@ == old(self).timestamps@.push(GENESIS_TIMESTAMP)
                &&& op_views(r.1@) == seq![
                    StoreOpV::SaveUtxo((txid_array(t), 0), t.outputs[0]),
                    StoreOpV::SaveBlock(0),
                    StoreOpV::SaveHeight(0),
                    StoreOpV::SaveEpoch(1),
                    StoreOpV::SaveEmitted(GENESIS_OUTPUT_LYT),
                ]
            }),
    {
        let (first, coinbase) = create_genesis_block();
        let txid = coinbase.compute_txid();
        proof {
            lemma_txid_array(coinbase@, txid);
            assert(coinbase@.outputs[0] == coinbase.outputs@[0]@);
        }
        let mut header = first;
        header.merkle_root = txid;
        let hash = header.hash(&mut self.argon2);
        proof {
            lemma_header_hash(header, hash);
        }
        let (signature, pubkey) = seal(&self.wallet, &hash);
        let first_output = coinbase.outputs[0].clone();
        let ghost t = coinbase@;
        let transactions: Vec<Transaction> = vec![coinbase];
        assert(transaction_views(transactions@) =~= seq![t]);
        let block = Block { header, transactions, signature, pubkey };
        self.blocks.push(header);
        self.block_hashes.insert(hash, 0);
        self.timestamps.push(GENESIS_TIMESTAMP);
        self.total_emitted = GENESIS_OUTPUT_LYT;
        let mut ops: Vec<StoreOp> = Vec::new();
        ops.push(StoreOp::SaveUtxo((txid, 0), first_output));
        ops.push(StoreOp::SaveBlock(0));
        ops.push(StoreOp::SaveHeight(0));
        ops.push(StoreOp::SaveEpoch(1));
        ops.push(StoreOp::SaveEmitted(GENESIS_OUTPUT_LYT));
        assert(op_views(ops@) =~= seq![
            StoreOpV::SaveUtxo((txid_array(t), 0), t.outputs[0]),
            StoreOpV::SaveBlock(0),
            StoreOpV::SaveHeight(0),
            StoreOpV::SaveEpoch(1),
            StoreOpV::SaveEmitted(GENESIS_OUTPUT_LYT),
        ]);
        (block, ops)
    }

    /// The digest of what is known of miners and bonds, in increasing order of the identifiers.
    pub fn calculate_state_root(&self) -> (r: Hash32)
        ensures
            r@ == state_root_of(self.miners.items(), self.bonds.items()),
    {
        let mut data: Vec<u8> = Vec::new();
        let n: usize = self.miners.len();
        let ghost miners = self.miners.items();
        let mut i: usize = 0;
        assert(miners.take(0) =~= Seq::<(MinerId, MinerData)>::empty());
        while i < n
            invariant
                i <= n,
                n == miners.len(),
                miners == self.miners.items(),
                data@ == miners_bytes(miners.take(i as int)),
            decreases n - i,
        {
            let id = self.miners.key_at(i);
            let miner = self.miners.value_at(i);
            let ghost before = data@;
            data.extend_from_slice(id.as_slice());
            push_le(&mut data, miner.shares, 8);
            push_le(&mut data, miner.bond, 8);
            assert(miners.take(i + 1).drop_last() =~= miners.take(i as int));
            assert(data@ =~= miners_bytes(miners.take(i + 1)));
            i += 1;
        }
        assert(miners.take(n as int) =~= miners);
        let ghost head = data@;
        let m: usize = self.bonds.len();
        let ghost bonds = self.bonds.items();
        let mut j: usize = 0;
        assert(bonds.take(0) =~= Seq::<(MinerId, Bond)>::empty());
        assert(head + bonds_bytes(bonds.take(0)) =~= head);
        while j < m
            invariant
                j <= m,
                m == bonds.len(),
                bonds == self.bonds.items(),
                data@ == head + bonds_bytes(bonds.take(j as int)),
            decreases m - j,
        {
            let id = self.bonds.key_at(j);
            let bond = self.bonds.value_at(j);
            data.extend_from_slice(id.as_slice());
            push_le(&mut data, bond.amount, 8);
            push_le(&mut data, bond.lock_until, 8);
            assert(bonds.take(j + 1).drop_last() =~= bonds.take(j as int));
            assert(data@ =~= head + bonds_bytes(bonds.take(j + 1)));
            j += 1;
        }
        assert(bonds.take(m as int) =~= bonds);
        sha256(data.as_slice())
    }

    /// Records the state of the chain at `now`; the oldest records beyond the limit are dropped.
    /// Says whether there was a block to record.
    pub fn create_checkpoint(&mut self, now: Timestamp) -> (r: bool)
        ensures
            checkpoint_made(*old(self), *final(self), now, r),
            old(self).wf() ==> final(self).wf(),
    {
        let n: usize = self.blocks.len();
        if n == 0 {
            return false;
        }
        let last = self.blocks[n - 1];
        let block_hash = last.hash(&mut self.argon2);
        let state_root = self.calculate_state_root();
        let mut data: Vec<u8> = Vec::new();
        push_le(&mut data, self.height, 8);
        data.extend_from_slice(block_hash.as_slice());
        data.extend_from_slice(state_root.as_slice());
        assert(data@ =~= le_bytes(self.height as nat, 8) + block_hash@ + state_root@);
        let message = sha256(data.as_slice());
        let signature: Vec<u8> = match &self.wallet {
            Some(w) => match w.sign(&message) {
                Ok(s) => s,
                Err(_) => Vec::new(),
            },
            None => Vec::new(),
        };
        let checkpoint = Checkpoint {
            height: self.height,
            block_hash,
            state_root,
            timestamp: now,
            signature,
            verified: false,
        };
        assert(checkpoint_of(*old(self), now, checkpoint));
        self.checkpoints.push(checkpoint);
        let ghost pushed = self.checkpoints@;
        assert(pushed == old(self).checkpoints@.push(checkpoint));
        if self.checkpoints.len() > self.config.advanced.max_checkpoints {
            self.checkpoints.remove(0);
            assert(self.checkpoints@ =~= pushed.drop_first());
        }
        true
    }
}

/// The bytes of what the state root takes from miners.
pub open spec fn miners_bytes(items: Seq<(MinerId, MinerData)>) -> Seq<u8>
    decreases items.len(),
{
    if items.len() == 0 {
        Seq::empty()
    } else {
        let e = items.last();
        miners_bytes(items.drop_last()) + e.0@ + le_bytes(e.1.shares as nat, 8) + le_bytes(
            e.1.bond as nat,
            8,
        )
    }
}

/// The bytes of what the state root takes from bonds.
pub open spec fn bonds_bytes(items: Seq<(MinerId, Bond)>) -> Seq<u8>
    decreases items.len(),
{
    if items.len() == 0 {
        Seq::empty()
    } else {
        let e = items.last();
        bonds_bytes(items.drop_last()) + e.0@ + le_bytes(e.1.amount as nat, 8) + le_bytes(
            e.1.lock_until as nat,
            8,
        )
    }
}

/// The digest of what is known of miners and bonds.
pub open spec fn state_root_of(
    miners: Seq<(MinerId, MinerData)>,
    bonds: Seq<(MinerId, Bond)>,
) -> Seq<u8> {
    sha256_of(miners_bytes(miners) + bonds_bytes(bonds))
}

/// The record of the chain of a node at `now`.
pub open spec fn checkpoint_of(n: Node, now: Timestamp, c: Checkpoint) -> bool {
    let hash = tip_hash(n.blocks@);
    let root = state_root_of(n.miners.items(), n.bonds.items());
    let digest = sha256_of(le_bytes(n.height as nat, 8) + hash + root);
    &&& c.height == n.height
    &&& c.block_hash@ == hash
    &&& c.state_root@ == root
    &&& c.timestamp == now
    &&& c.signature@ == match wallet_view(n.wallet) {
        Some(w) => if crate::wallet::signing_fault(w.secret_key) is None {
            crate::primitives::ecdsa_signature(w.secret_key, digest)
        } else {
            Seq::empty()
        },
        None => Seq::empty(),
    }
    &&& !c.verified
}

/// The node after its chain was recorded at `now`.
pub open spec fn checkpoint_made(before: Node, after: Node, now: Timestamp, r: bool) -> bool {
    &&& r == (before.blocks@.len() > 0)
    &&& after == (Node { argon2: after.argon2, checkpoints: after.checkpoints, ..before })
    &&& !r ==> after == before
    &&& r ==> exists|c: Checkpoint| #[trigger]
        checkpoint_of(before, now, c) && after.checkpoints@ == {
            let pushed = before.checkpoints@.push(c);
            if pushed.len() > before.config.advanced.max_checkpoints {
                pushed.drop_first()
            } else {
                pushed
            }
        }
}

/// What the contribution index of a node is computed from.
pub open spec fn poci_input(n: Node) -> PociInput {
    PociInput {
        miners: n.miners.items(),
        bonds: n.bonds@,
        loyalty: n.loyalty@,
        height: n.height,
    }
}

/// What may still be emitted.
pub open spec fn available(emitted: u64) -> nat {
    if emitted >= MAX_SUPPLY_LYT {
        0
    } else {
        (MAX_SUPPLY_LYT - emitted) as nat
    }
}

/// What a miner is paid at the end of an epoch: its reward, cut in proportion where the rewards
/// together are more than may still be emitted.
pub open spec fn paid(p: PociInput, emitted: u64, i: int) -> nat {
    let requested = reward_total(p, p.miners.len() as int);
    if requested > available(emitted) {
        reward_of(p, i) * available(emitted) / requested
    } else {
        reward_of(p, i)
    }
}

/// What the first `n` miners are paid.
pub open spec fn paid_total(p: PociInput, emitted: u64, n: int) -> nat
    decreases n,
{
    if n <= 0 {
        0
    } else {
        paid_total(p, emitted, n - 1) + paid(p, emitted, n - 1)
    }
}

proof fn lemma_paid_scaled(p: PociInput, emitted: u64, n: int)
    requires
        reward_total(p, p.miners.len() as int) > available(emitted),
    ensures
        paid_total(p, emitted, n) * reward_total(p, p.miners.len() as int) <= reward_total(p, n)
            * available(emitted),
    decreases n,
{
    let t = reward_total(p, p.miners.len() as int);
    let a = available(emitted);
    if n > 0 {
        lemma_paid_scaled(p, emitted, n - 1);
        let x = reward_of(p, n - 1);
        let q = x * a / t;
        let s = paid_total(p, emitted, n - 1);
        let b = reward_total(p, n - 1);
        assert(q * t <= x * a) by (nonlinear_arith)
            requires
                q == x * a / t,
                t > 0,
        ;
        assert((s + q) * t <= (b + x) * a) by (nonlinear_arith)
            requires
                s * t <= b * a,
                q * t <= x * a,
        ;
        assert(paid_total(p, emitted, n) == s + q);
        assert(reward_total(p, n) == b + x);
    } else {
        assert(0 * t == 0) by (nonlinear_arith);
    }
}

proof fn lemma_paid_is_reward(p: PociInput, emitted: u64, n: int)
    requires
        reward_total(p, p.miners.len() as int) <= available(emitted),
    ensures
        paid_total(p, emitted, n) == reward_total(p, n),
    decreases n,
{
    if n > 0 {
        lemma_paid_is_reward(p, emitted, n - 1);
    }
}

/// The end of an epoch emits no more than the epoch's reward, and never carries the emission
/// beyond the maximal supply.
pub proof fn law_supply_is_capped(p: PociInput, emitted: u64)
    ensures
        paid_total(p, emitted, p.miners.len() as int) <= EPOCH_REWARD_LYT,
        paid_total(p, emitted, p.miners.len() as int) <= available(emitted),
        emitted <= MAX_SUPPLY_LYT ==> emitted + paid_total(p, emitted, p.miners.len() as int)
            <= MAX_SUPPLY_LYT,
{
    let n = p.miners.len() as int;
    let t = reward_total(p, n);
    crate::consensus::law_rewards_within_budget(p);
    if t > available(emitted) {
        lemma_paid_scaled(p, emitted, n);
        let s = paid_total(p, emitted, n);
        let a = available(emitted);
        assert(s <= a) by (nonlinear_arith)
            requires
                s * t <= t * a,
                t > 0,
        ;
    } else {
        lemma_paid_is_reward(p, emitted, n);
    }
}

/// The bytes `ACCUM-EPOCH-REWARD`.
pub open spec fn reward_tag() -> Seq<u8> {
    seq![
        0x41u8, 0x43u8, 0x43u8, 0x55u8, 0x4Du8, 0x2Du8, 0x45u8, 0x50u8, 0x4Fu8, 0x43u8, 0x48u8,
        0x2Du8, 0x52u8, 0x45u8, 0x57u8, 0x41u8, 0x52u8, 0x44u8,
    ]
}

/// The identifier of the transaction that stands for a reward.
pub open spec fn reward_txid(height: Height, epoch: u32, miner_id: MinerId) -> Seq<u8> {
    sha256_of(
        reward_tag() + le_bytes(height as nat, 8) + le_bytes(epoch as nat, 4) + miner_id@,
    )
}

/// The identifier of the transaction that stands for a reward, as an array.
pub open spec fn reward_txid_array(height: Height, epoch: u32, miner_id: MinerId) -> Txid {
    choose|a: Txid| a@ == reward_txid(height, epoch, miner_id)
}

/// The identifier of the transaction that stands for a reward.
fn reward_id(height: Height, epoch: u32, miner_id: &MinerId) -> (r: Txid)
    ensures
        r == reward_txid_array(height, epoch, *miner_id),
{
    let mut data: Vec<u8> = vec![
        0x41u8, 0x43u8, 0x43u8, 0x55u8, 0x4Du8, 0x2Du8, 0x45u8, 0x50u8, 0x4Fu8, 0x43u8, 0x48u8,
        0x2Du8, 0x52u8, 0x45u8, 0x57u8, 0x41u8, 0x52u8, 0x44u8,
    ];
    assert(data@ =~= reward_tag());
    push_le(&mut data, height, 8);
    push_le(&mut data, epoch as u64, 4);
    data.extend_from_slice(miner_id.as_slice());
    assert(data@ =~= reward_tag() + le_bytes(height as nat, 8) + le_bytes(epoch as nat, 4)
        + miner_id@);
    let r = sha256(data.as_slice());
    assert(reward_txid_array(height, epoch, *miner_id) =~= r);
    r
}

/// The address that the reward of a miner goes to.
pub open spec fn payee(n: Node, id: MinerId) -> Option<Seq<char>> {
    if id == n.miner_id {
        match wallet_view(n.wallet) {
            Some(w) => Some(w.address),
            None => None,
        }
    } else if n.miners@.contains_key(id) {
        match n.miners@[id].payout_address {
            Some(a) => Some(a@),
            None => None,
        }
    } else {
        None
    }
}

/// The writes for the reward of miner `i`: the output that pays it, where there is an address to
/// pay to, and the miner.
pub open spec fn payment_ops(n: Node, i: int) -> Seq<StoreOpV> {
    let p = poci_input(n);
    let id = p.miners[i].0;
    let amount = paid(p, n.total_emitted, i);
    let output = match payee(n, id) {
        Some(address) => match p2pkh_output(address) {
            Ok(o) => seq![
                StoreOpV::SaveUtxo(
                    (reward_txid_array(n.height, n.epoch, id), 0),
                    TxOutV { value: amount as u64, ..o },
                ),
            ],
            Err(_) => Seq::empty(),
        },
        None => Seq::empty(),
    };
    if amount == 0 {
        Seq::empty()
    } else {
        output.push(StoreOpV::SaveMiner(id))
    }
}

/// The writes for the rewards of the first `k` miners.
pub open spec fn payments_ops(n: Node, k: int) -> Seq<StoreOpV>
    decreases k,
{
    if k <= 0 {
        Seq::empty()
    } else {
        payments_ops(n, k - 1) + payment_ops(n, k - 1)
    }
}

/// The writes at the end of an epoch.
pub open spec fn epoch_ops(before: Node, after: Node) -> Seq<StoreOpV> {
    let ids = before.miners.items();
    payments_ops(before, ids.len() as int) + Seq::new(
        ids.len(),
        |i: int| StoreOpV::SaveLoyalty(ids[i].0),
    ) + Seq::new(ids.len(), |i: int| StoreOpV::SaveMiner(ids[i].0)) + seq![
        StoreOpV::SaveEmitted(after.total_emitted),
        StoreOpV::SaveEpoch(after.epoch),
    ]
}

/// A miner after the end of an epoch in which it was paid `amount`.
pub open spec fn settled(d: MinerData, amount: nat) -> MinerData {
    MinerData { shares: 0, total_rewards: capped_sum(d.total_rewards, amount as u64), ..d }
}

/// The node after the end of an epoch at `now`: the miners are paid and begin with no shares, their
/// loyalties account for the epoch, and the next epoch begins with an empty pool of shares.
pub open spec fn epoch_ended(before: Node, after: Node, now: Timestamp) -> bool {
    let p = poci_input(before);
    let ids = before.miners.items();
    &&& after == (Node {
        epoch: after.epoch,
        share_pool: after.share_pool,
        miners: after.miners,
        loyalty: after.loyalty,
        total_emitted: after.total_emitted,
        ..before
    })
    &&& after.epoch == if before.epoch < u32::MAX {
        (before.epoch + 1) as u32
    } else {
        u32::MAX
    }
    &&& after.share_pool.wf()
    &&& after.share_pool.shares@ == Map::<MinerId, Vec<Share>>::empty()
    &&& after.share_pool.share_hashes@ == Set::<Hash32>::empty()
    &&& after.share_pool.invalid_shares@ == Map::<MinerId, u64>::empty()
    &&& after.share_pool.total_shares@ == Map::<MinerId, u64>::empty()
    &&& after.share_pool.max_memory_bytes == before.share_pool.max_memory_bytes
    &&& after.share_pool.current_epoch == before.share_pool.current_epoch + 1
    &&& after.share_pool.created_at == now
    &&& after.total_emitted == before.total_emitted + paid_total(
        p,
        before.total_emitted,
        ids.len() as int,
    )
    &&& after.miners@.dom() == before.miners@.dom()
    &&& forall|i: int|
        0 <= i < ids.len() ==> after.miners@[(#[trigger] ids[i]).0] == settled(
            before.miners@[ids[i].0],
            paid(p, before.total_emitted, i),
        )
    &&& forall|m: MinerId| #[trigger]
        after.loyalty@.contains_key(m) <==> before.loyalty@.contains_key(m)
            || before.miners@.contains_key(m)
    &&& forall|m: MinerId| #[trigger]
        after.loyalty@.contains_key(m) ==> after.loyalty@[m] == if before.miners@.contains_key(
            m,
        ) {
            loyalty_after(
                loyalty_or_new(before.loyalty@, m),
                before.epoch,
                before.miners@[m].shares > 0,
            )
        } else {
            before.loyalty@[m]
        }
}

impl Node {
    /// The writes for the reward of a miner, and whether it was paid.
    fn pay(&self, id: &MinerId, amount: u64, ops: &mut Vec<StoreOp>, i: Ghost<int>)
        requires
            0 <= i@ < self.miners.items().len(),
            self.miners.items()[i@].0 == *id,
            amount == paid(poci_input(*self), self.total_emitted, i@),
        ensures
            op_views(final(ops)@) == op_views(old(ops)@) + payment_ops(*self, i@),
    {
        let ghost start = op_views(ops@);
        if amount == 0 {
            assert(start + payment_ops(*self, i@) =~= start);
            return;
        }
        let address: Option<&String> = if arrays_equal(id, &self.miner_id) {
            match &self.wallet {
                Some(w) => Some(&w.address),
                None => None,
            }
        } else {
            match self.miners.get(id) {
                Some(miner) => match &miner.payout_address {
                    Some(a) => Some(a),
                    None => None,
                },
                None => None,
            }
        };
        match address {
            Some(a) => match TxOut::create_p2pkh(a.as_str()) {
                Ok(output) => {
                    let mut payment = output;
                    payment.value = amount;
                    let txid = reward_id(self.height, self.epoch, id);
                    let op = StoreOp::SaveUtxo((txid, 0), payment);
                    ops.push(op);
                    assert(op_views(ops@) =~= start.push(op@));
                },
                Err(_) => {},
            },
            None => {},
        }
        let ghost middle = op_views(ops@);
        let op = StoreOp::SaveMiner(*id);
        ops.push(op);
        assert(op_views(ops@) =~= middle.push(op@));
        assert(op_views(ops@) =~= start + payment_ops(*self, i@));
    }

    /// Ends the epoch at `now`. The writes are handed back.
    pub fn process_epoch_end(&mut self, now: Timestamp) -> (r: Vec<StoreOp>)
        requires
            old(self).wf(),
            old(self).share_pool.current_epoch < u32::MAX,
        ensures
            final(self).wf(),
            epoch_ended(*old(self), *final(self), now),
            op_views(r@) == epoch_ops(*old(self), *final(self)),
            old(self).total_emitted <= MAX_SUPPLY_LYT ==> final(self).total_emitted
                <= MAX_SUPPLY_LYT,
    {
        let ghost before = *self;
        let ghost p = poci_input(*self);
        let ghost ids = self.miners.items();
        let ghost emitted = self.total_emitted;
        let completed_epoch: u32 = self.epoch;
        let results = calculate_poci(&self.miners, &self.bonds, &self.loyalty, self.height);
        let n: usize = self.miners.len();
        let mut requested: u128 = 0;
        let mut i: usize = 0;
        while i < n
            invariant
                i <= n,
                n == results@.len(),
                n == p.miners.len(),
                forall|k: int| 0 <= k < n ==> poci_outcome(p, k, #[trigger] results@[k]),
                requested == reward_total(p, i as int),
                requested <= i * 0xFFFF_FFFF_FFFF_FFFF,
            decreases n - i,
        {
            assert(poci_outcome(p, i as int, results@[i as int]));
            requested = requested + results[i].reward as u128;
            i += 1;
        }
        let left: u64 = if self.total_emitted >= MAX_SUPPLY_LYT {
            0
        } else {
            MAX_SUPPLY_LYT - self.total_emitted
        };
        let mut amounts: Vec<u64> = Vec::new();
        let mut ops: Vec<StoreOp> = Vec::new();
        let mut total: u64 = 0;
        let mut j: usize = 0;
        proof {
            law_supply_is_capped(p, emitted);
            assert(op_views(ops@) =~= payments_ops(before, 0));
        }
        while j < n
            invariant
                j <= n,
                n == results@.len(),
                n == p.miners.len(),
                *self == before,
                p == poci_input(before),
                ids == p.miners,
                emitted == before.total_emitted,
                left == available(emitted),
                requested == reward_total(p, n as int),
                paid_total(p, emitted, n as int) <= EPOCH_REWARD_LYT,
                reward_total(p, n as int) <= EPOCH_REWARD_LYT,
                forall|k: int| 0 <= k < n ==> poci_outcome(p, k, #[trigger] results@[k]),
                amounts@.len() == j,
                forall|k: int| 0 <= k < j ==> amounts@[k] == #[trigger] paid(p, emitted, k),
                total == paid_total(p, emitted, j as int),
                op_views(ops@) == payments_ops(before, j as int),
            decreases n - j,
        {
            let result = results[j];
            assert(poci_outcome(p, j as int, result));
            proof {
                lemma_paid_monotonic(p, emitted, j + 1, n as int);
            }
            let amount: u64 = if requested > left as u128 {
                let x: u128 = result.reward as u128;
                proof {
                    let l = left as nat;
                    let y = x as nat;
                    let t = requested as nat;
                    assert(y * l <= 0xFFFF_FFFF_FFFF_FFFF * 0xFFFF_FFFF_FFFF_FFFF)
                        by (nonlinear_arith)
                        requires
                            y <= 0xFFFF_FFFF_FFFF_FFFF,
                            l <= 0xFFFF_FFFF_FFFF_FFFF,
                    ;
                    assert(paid(p, emitted, j as int) == y * l / t);
                }
                (x * left as u128 / requested) as u64
            } else {
                result.reward
            };
            assert(amount == paid(p, emitted, j as int));
            total = total + amount;
            amounts.push(amount);
            let id = result.miner_id;
            self.pay(&id, amount, &mut ops, Ghost(j as int));
            j += 1;
        }
        let mut k: usize = 0;
        let ghost paying = op_views(ops@);
        let ghost loyal = Seq::new(ids.len(), |i: int| StoreOpV::SaveLoyalty(ids[i].0));
        assert(paying + loyal.take(0) =~= paying);
        while k < n
            invariant
                k <= n,
                n == ids.len(),
                ids == before.miners.items(),
                before.miners == self.miners,
                sorted_by_key(ids),
                forall|q: int|
                    0 <= q < ids.len() ==> before.miners@.contains_key((#[trigger] ids[q]).0)
                        && before.miners@[ids[q].0] == ids[q].1,
                completed_epoch == before.epoch,
                *self == (Node { loyalty: self.loyalty, ..before }),
                loyal == Seq::new(ids.len(), |i: int| StoreOpV::SaveLoyalty(ids[i].0)),
                op_views(ops@) == paying + loyal.take(k as int),
                forall|m: MinerId| #[trigger]
                    self.loyalty@.contains_key(m) <==> before.loyalty@.contains_key(m) || exists|
                        q: int,
                    |
                        0 <= q < k && (#[trigger] ids[q]).0 == m,
                forall|q: int|
                    0 <= q < k ==> self.loyalty@[(#[trigger] ids[q]).0] == loyalty_after(
                        loyalty_or_new(before.loyalty@, ids[q].0),
                        before.epoch,
                        before.miners@[ids[q].0].shares > 0,
                    ),
                forall|m: MinerId|
                    before.loyalty@.contains_key(m) && !(exists|q: int|
                        0 <= q < k && (#[trigger] ids[q]).0 == m) ==> #[trigger] self.loyalty@[m]
                        == before.loyalty@[m],
            decreases n - k,
        {
            let id = self.miners.key_at(k);
            let participated: bool = self.miners.value_at(k).shares > 0;
            assert(ids[k as int].0 == id);
            assert forall|q: int| 0 <= q < k implies (#[trigger] ids[q]).0 != id by {
                if ids[q].0 == id {
                    crate::collections::lemma_sorted_distinct(ids, q, k as int);
                }
            }
            let ghost was = self.loyalty@;
            let mut loyalty = match self.loyalty.get(&id) {
                Some(l) => *l,
                None => LoyaltyData::new(),
            };
            assert(loyalty == loyalty_or_new(before.loyalty@, id));
            loyalty.update(completed_epoch, participated);
            self.loyalty.insert(id, loyalty);
            let op = StoreOp::SaveLoyalty(id);
            let ghost earlier = op_views(ops@);
            ops.push(op);
            proof {
                assert(op_views(ops@) =~= earlier.push(op@));
                assert(loyal.take(k + 1) =~= loyal.take(k as int).push(loyal[k as int]));
                assert(op_views(ops@) =~= paying + loyal.take(k + 1));
                assert forall|m: MinerId| #[trigger] self.loyalty@.contains_key(m) <==> (
                before.loyalty@.contains_key(m) || exists|q: int|
                    0 <= q < k + 1 && (#[trigger] ids[q]).0 == m) by {
                    if m == id {
                        assert(ids[k as int].0 == m);
                    } else {
                        assert(self.loyalty@.contains_key(m) == was.contains_key(m));
                        if exists|q: int| 0 <= q < k + 1 && (#[trigger] ids[q]).0 == m {
                            let q = choose|q: int| 0 <= q < k + 1 && (#[trigger] ids[q]).0 == m;
                            assert(q < k);
                        }
                    }
                }
                assert forall|m: MinerId|
                    before.loyalty@.contains_key(m) && !(exists|q: int|
                        0 <= q < k + 1 && (#[trigger] ids[q]).0
                            == m) implies #[trigger] self.loyalty@[m] == before.loyalty@[m] by {
                    assert(ids[k as int].0 != m);
                    assert(!(exists|q: int| 0 <= q < k && (#[trigger] ids[q]).0 == m));
                    assert(was[m] == before.loyalty@[m]);
                }
            }
            k += 1;
        }
        assert(loyal.take(n as int) =~= loyal);
        let ghost after_loyalty = self.loyalty@;
        let ghost accounted = op_views(ops@);
        let ghost reset = Seq::new(ids.len(), |i: int| StoreOpV::SaveMiner(ids[i].0));
        assert(accounted + reset.take(0) =~= accounted);
        let mut q: usize = 0;
        let mut keys: Vec<MinerId> = Vec::new();
        while q < n
            invariant
                q <= n,
                n == ids.len(),
                ids == self.miners.items(),
                keys@.len() == q,
                forall|x: int| 0 <= x < q ==> keys@[x] == (#[trigger] ids[x]).0,
            decreases n - q,
        {
            keys.push(self.miners.key_at(q));
            q += 1;
        }
        let mut s: usize = 0;
        while s < n
            invariant
                s <= n,
                n == ids.len(),
                n == keys@.len(),
                n == amounts@.len(),
                ids == before.miners.items(),
                p == poci_input(before),
                emitted == before.total_emitted,
                sorted_by_key(ids),
                forall|x: int| 0 <= x < n ==> keys@[x] == (#[trigger] ids[x]).0,
                forall|x: int|
                    0 <= x < ids.len() ==> before.miners@.contains_key((#[trigger] ids[x]).0)
                        && before.miners@[ids[x].0] == ids[x].1,
                forall|x: int| 0 <= x < n ==> amounts@[x] == #[trigger] paid(p, emitted, x),
                *self == (Node { loyalty: self.loyalty, miners: self.miners, ..before }),
                self.loyalty@ == after_loyalty,
                reset == Seq::new(ids.len(), |i: int| StoreOpV::SaveMiner(ids[i].0)),
                op_views(ops@) == accounted + reset.take(s as int),
                self.miners@.dom() == before.miners@.dom(),
                forall|x: int|
                    0 <= x < s ==> self.miners@[(#[trigger] ids[x]).0] == settled(
                        before.miners@[ids[x].0],
                        paid(p, emitted, x),
                    ),
                forall|x: int|
                    s <= x < n ==> self.miners@[(#[trigger] ids[x]).0] == before.miners@[ids[x].0],
            decreases n - s,
        {
            let id = keys[s];
            assert(ids[s as int].0 == id);
            assert(amounts@[s as int] == paid(p, emitted, s as int));
            let ghost was = self.miners@;
            assert(was.dom().contains(id));
            match self.miners.remove(&id) {
                Some(m) => {
                    let mut miner = m;
                    miner.total_rewards = miner.total_rewards.saturating_add(amounts[s]);
                    miner.shares = 0;
                    self.miners.insert(id, miner);
                    proof {
                        assert(was.remove(id).insert(id, miner) =~= was.insert(id, miner));
                        assert(self.miners@.dom() =~= before.miners@.dom());
                        assert forall|x: int| 0 <= x < n && x != s implies (
                        #[trigger] ids[x]).0 != id by {
                            if ids[x].0 == id {
                                crate::collections::lemma_sorted_distinct(ids, x, s as int);
                            }
                        }
                    }
                },
                None => {},
            }
            let op = StoreOp::SaveMiner(id);
            let ghost earlier = op_views(ops@);
            ops.push(op);
            proof {
                assert(op_views(ops@) =~= earlier.push(op@));
                assert(reset.take(s + 1) =~= reset.take(s as int).push(reset[s as int]));
                assert(op_views(ops@) =~= accounted + reset.take(s + 1));
            }
            s += 1;
        }
        assert(reset.take(n as int) =~= reset);
        self.share_pool.new_epoch_at(now);
        self.epoch = self.epoch.saturating_add(1);
        proof {
            law_supply_is_capped(p, emitted);
        }
        self.total_emitted = self.total_emitted + total;
        let ghost nearly = op_views(ops@);
        let op_emitted = StoreOp::SaveEmitted(self.total_emitted);
        let op_epoch = StoreOp::SaveEpoch(self.epoch);
        ops.push(op_emitted);
        ops.push(op_epoch);
        proof {
            assert(op_views(ops@) =~= nearly.push(op_emitted@).push(op_epoch@));
            assert(op_views(ops@) =~= epoch_ops(before, *self));
            assert forall|m: MinerId| #[trigger] before.miners@.contains_key(m) implies exists|
                x: int,
            |
                0 <= x < ids.len() && (#[trigger] ids[x]).0 == m by {}
            assert forall|m: MinerId| #[trigger] self.miners@.contains_key(m) implies self.miners@[
                m
            ].miner_id == m by {
                assert(before.miners@.dom().contains(m));
                let x = choose|x: int| 0 <= x < ids.len() && (#[trigger] ids[x]).0 == m;
                assert(self.miners@[ids[x].0] == settled(
                    before.miners@[ids[x].0],
                    paid(p, emitted, x),
                ));
            }
            assert forall|m: MinerId| #[trigger] self.loyalty@.contains_key(m) implies self.loyalty@[
                m
            ] == if before.miners@.contains_key(m) {
                loyalty_after(
                    loyalty_or_new(before.loyalty@, m),
                    before.epoch,
                    before.miners@[m].shares > 0,
                )
            } else {
                before.loyalty@[m]
            } by {
                if before.miners@.contains_key(m) {
                    let x = choose|x: int| 0 <= x < ids.len() && (#[trigger] ids[x]).0 == m;
                    assert(ids[x].0 == m);
                } else {
                    assert(!(exists|x: int| 0 <= x < ids.len() && (#[trigger] ids[x]).0 == m));
                }
            }
        }
        ops
    }
}

proof fn lemma_paid_monotonic(p: PociInput, emitted: u64, m: int, n: int)
    requires
        0 <= m <= n,
    ensures
        paid_total(p, emitted, m) <= paid_total(p, emitted, n),
    decreases n,
{
    if m < n {
        lemma_paid_monotonic(p, emitted, m, n - 1);
    }
}

/// The next target comes from that of the last block. It stays that one between adjustments, and
/// where the last 120 blocks took the 7200 seconds that they should; otherwise it moves by a
/// quarter at the most, and only the bounds keep it from moving the way that the time asks for.
pub proof fn law_next_target_follows_the_tip(
    height: Height,
    blocks: Seq<BlockHeader>,
    timestamps: Seq<Timestamp>,
)
    requires
        blocks.len() > 0,
        height >= 120 && height % 120 == 0 ==> height < timestamps.len() && timestamps[height - 120]
            <= timestamps[height as int],
    ensures
        ({
            let tip = be_value(blocks.last().difficulty.0@);
            let next = next_target(height, blocks, timestamps);
            let easiest = be_value(genesis_bytes());
            let span = timestamps[height as int] - timestamps[height - 120];
            &&& !(height >= 120 && height % 120 == 0) ==> next == tip
            &&& height >= 120 && height % 120 == 0 ==> {
                &&& span == 7200 && easiest / 1000 <= tip <= easiest ==> next == tip
                &&& span > 0 ==> easiest / 1000 <= next <= easiest
                &&& span > 0 && easiest / 1000 < next < easiest ==> 4 * next <= 5 * tip && 4 * next
                    + 4 > 3 * tip
                &&& span >= 7200 ==> next <= tip || next == easiest / 1000
                &&& 0 < span <= 7200 ==> next >= tip || next == easiest
                &&& span == 0 ==> next == tip
            }
        }),
{
    if height >= 120 && height % 120 == 0 {
        let tip = be_value(blocks.last().difficulty.0@);
        let recent = timestamps.subrange(height - 120, height + 1);
        let span = (timestamps[height as int] - timestamps[height - 120]) as nat;
        assert(recent.last() == timestamps[height as int]);
        assert(recent[recent.len() - 120 - 1] == timestamps[height - 120]);
        if span > 0 {
            crate::difficulty::law_adjusted_target_is_bounded(tip, span);
            let next = next_target(height, blocks, timestamps);
            if easiest_thousandth() < next < be_value(genesis_bytes()) {
                crate::difficulty::law_adjustment_is_a_quarter(tip, span);
            }
            if span == 7200 && easiest_thousandth() <= tip <= be_value(genesis_bytes()) {
                crate::difficulty::law_expected_span_keeps_target(tip);
            }
            let c = crate::difficulty::clamped_span(span);
            let q = tip * 7200nat / c;
            assert(c >= 7200 ==> q <= tip) by (nonlinear_arith)
                requires
                    c >= 1,
                    q == tip * 7200nat / c,
            ;
            assert(c <= 7200 ==> q >= tip) by (nonlinear_arith)
                requires
                    c >= 1,
                    q == tip * 7200nat / c,
            ;
        }
    }
}

spec fn easiest_thousandth() -> nat {
    be_value(genesis_bytes()) / 1000
}

/// What the miners of a node are credited by the end of an epoch.
pub open spec fn credits(before: Node, after: Node) -> Seq<nat> {
    before.miners.items().map_values(
        |e: (MinerId, MinerData)|
            (after.miners@[e.0].total_rewards - before.miners@[e.0].total_rewards) as nat,
    )
}

proof fn lemma_paid_adds_up(p: PociInput, emitted: u64, n: int)
    requires
        0 <= n,
    ensures
        paid_total(p, emitted, n) == sum_of(Seq::new(n as nat, |i: int| paid(p, emitted, i))),
    decreases n,
{
    let v = Seq::new(n as nat, |i: int| paid(p, emitted, i));
    if n == 0 {
        lemma_sum_push(Seq::<nat>::empty(), 0);
        assert(v =~= Seq::<nat>::empty());
    } else {
        lemma_paid_adds_up(p, emitted, n - 1);
        let w = Seq::new((n - 1) as nat, |i: int| paid(p, emitted, i));
        lemma_sum_push(w, paid(p, emitted, n - 1));
        assert(v =~= w.push(paid(p, emitted, n - 1)));
    }
}

proof fn lemma_paid_bounds(p: PociInput, emitted: u64, i: int)
    requires
        0 <= i < p.miners.len(),
    ensures
        paid(p, emitted, i) <= reward_of(p, i) <= EPOCH_REWARD_LYT,
        ({
            let asked = reward_total(p, p.miners.len() as int);
            let left = available(emitted);
            &&& asked <= left ==> paid(p, emitted, i) == reward_of(p, i)
            &&& asked > left ==> paid(p, emitted, i) * asked <= reward_of(p, i) * left < (paid(
                p,
                emitted,
                i,
            ) + 1) * asked
        }),
{
    let n = p.miners.len() as int;
    let asked = reward_total(p, n);
    let left = available(emitted);
    crate::consensus::law_rewards_within_budget(p);
    lemma_reward_within(p, i, n);
    if asked > left {
        let x = reward_of(p, i);
        let q = x * left / asked;
        assert(q <= x && q * asked <= x * left && x * left < (q + 1) * asked) by (nonlinear_arith)
            requires
                q == x * left / asked,
                asked > left,
        ;
    }
}

proof fn lemma_reward_within(p: PociInput, i: int, n: int)
    requires
        0 <= i < n,
    ensures
        reward_of(p, i) <= reward_total(p, n),
    decreases n,
{
    if i < n - 1 {
        lemma_reward_within(p, i, n - 1);
    }
}

/// The end of an epoch credits to its miners together exactly what it adds to the emission, which
/// stays within the supply of 1500000000000000. Each miner is credited its reward, or, where the
/// rewards together are more than is left, its part of what is left. Nobody keeps a share, and
/// nobody who took no part gains loyalty.
pub proof fn law_epoch_end_credits_what_it_emits(
    before: Node,
    after: Node,
    now: Timestamp,
    i: int,
)
    requires
        before.wf(),
        epoch_ended(before, after, now),
        0 <= i < before.miners.items().len(),
        sorted_by_key(before.miners.items()),
        before.miners@ == map_of(before.miners.items()),
        forall|m: MinerId| #[trigger]
            before.miners@.contains_key(m) ==> before.miners@[m].total_rewards + 720_000_000
                <= u64::MAX,
    ensures
        after.total_emitted == before.total_emitted + sum_of(credits(before, after)),
        before.total_emitted <= 1_500_000_000_000_000 ==> after.total_emitted
            <= 1_500_000_000_000_000,
        ({
            let p = poci_input(before);
            let id = before.miners.items()[i].0;
            let got = after.miners@[id].total_rewards - before.miners@[id].total_rewards;
            let asked = reward_total(p, p.miners.len() as int);
            let left = if before.total_emitted < 1_500_000_000_000_000 {
                1_500_000_000_000_000 - before.total_emitted
            } else {
                0
            };
            &&& asked <= left ==> got == reward_of(p, i)
            &&& asked > left ==> got * asked <= reward_of(p, i) * left < (got + 1) * asked
            &&& after.miners@[id].shares == 0
            &&& after.miners@[id].bond == before.miners@[id].bond
            &&& before.miners@[id].shares == 0 && before.loyalty@.contains_key(id)
                ==> after.loyalty@[id].value <= before.loyalty@[id].value
            &&& before.miners@[id].shares > 0 && before.loyalty@.contains_key(id)
                && before.loyalty@[id].last_epoch + 1 == before.epoch
                && before.loyalty@[id].value < u64::MAX ==> after.loyalty@[id].value
                == before.loyalty@[id].value + 1
        }),
        after.share_pool.shares@ == Map::<MinerId, Vec<Share>>::empty(),
        before.epoch < u32::MAX ==> after.epoch == before.epoch + 1,
{
    let p = poci_input(before);
    let ids = before.miners.items();
    let n = ids.len() as int;
    let emitted = before.total_emitted;
    lemma_map_of(ids);
    law_supply_is_capped(p, emitted);
    lemma_paid_adds_up(p, emitted, n);
    let given = credits(before, after);
    assert forall|j: int| 0 <= j < n implies #[trigger] given[j] == paid(p, emitted, j)
        && after.miners@[ids[j].0] == settled(before.miners@[ids[j].0], paid(p, emitted, j)) by {
        lemma_paid_bounds(p, emitted, j);
        assert(before.miners@.contains_key(ids[j].0));
        assert(after.miners@[ids[j].0] == settled(
            before.miners@[ids[j].0],
            paid(p, emitted, j),
        ));
    }
    assert(given =~= Seq::new(n as nat, |j: int| paid(p, emitted, j)));
    lemma_paid_bounds(p, emitted, i);
    let id = ids[i].0;
    assert(given[i] == paid(p, emitted, i));
    assert(before.miners@.contains_key(id));
    assert(after.loyalty@.contains_key(id));
    if before.loyalty@.contains_key(id) {
        let l = before.loyalty@[id];
        if before.epoch > l.last_epoch {
            crate::miner::law_missed_epochs_lower_loyalty(
                l.value,
                l.grace_remaining > 0,
                (before.epoch - l.last_epoch) as nat,
            );
        }
    }
}

/// The value that a write adds to the unspent outputs.
pub open spec fn value_saved(op: StoreOpV) -> nat {
    match op {
        StoreOpV::SaveUtxo(_, o) => o.value as nat,
        _ => 0,
    }
}

/// The values that writes add.
pub open spec fn values_saved(ops: Seq<StoreOpV>) -> Seq<nat> {
    ops.map_values(|op: StoreOpV| value_saved(op))
}

proof fn lemma_values_concat(a: Seq<StoreOpV>, b: Seq<StoreOpV>)
    ensures
        sum_of(values_saved(a + b)) == sum_of(values_saved(a)) + sum_of(values_saved(b)),
    decreases b.len(),
{
    if b.len() == 0 {
        lemma_sum_push(Seq::<nat>::empty(), 0);
        assert(a + b =~= a);
        assert(values_saved(b) =~= Seq::<nat>::empty());
    } else {
        let rest = b.drop_last();
        let x = value_saved(b.last());
        lemma_values_concat(a, rest);
        lemma_sum_push(values_saved(a + rest), x);
        lemma_sum_push(values_saved(rest), x);
        assert(values_saved(a + b) =~= values_saved(a + rest).push(x));
        assert(values_saved(b) =~= values_saved(rest).push(x));
    }
}

proof fn lemma_no_values(ops: Seq<StoreOpV>)
    requires
        forall|i: int| 0 <= i < ops.len() ==> !((#[trigger] ops[i]) is SaveUtxo),
    ensures
        sum_of(values_saved(ops)) == 0,
    decreases ops.len(),
{
    lemma_sum_push(Seq::<nat>::empty(), 0);
    if ops.len() == 0 {
        assert(values_saved(ops) =~= Seq::<nat>::empty());
    } else {
        let rest = ops.drop_last();
        assert forall|i: int| 0 <= i < rest.len() implies !((#[trigger] rest[i]) is SaveUtxo) by {
            assert(rest[i] == ops[i]);
        }
        lemma_no_values(rest);
        assert(!(ops[ops.len() - 1] is SaveUtxo));
        lemma_sum_push(values_saved(rest), 0);
        assert(values_saved(ops) =~= values_saved(rest).push(0));
    }
}

proof fn lemma_payments_within(n: Node, k: int)
    requires
        0 <= k <= n.miners.items().len(),
    ensures
        sum_of(values_saved(payments_ops(n, k))) <= paid_total(
            poci_input(n),
            n.total_emitted,
            k,
        ),
    decreases k,
{
    lemma_sum_push(Seq::<nat>::empty(), 0);
    if k == 0 {
        assert(values_saved(payments_ops(n, k)) =~= Seq::<nat>::empty());
    } else {
        lemma_payments_within(n, k - 1);
        let ops = payment_ops(n, k - 1);
        lemma_values_concat(payments_ops(n, k - 1), ops);
        lemma_paid_bounds(poci_input(n), n.total_emitted, k - 1);
        let amount = paid(poci_input(n), n.total_emitted, k - 1);
        if ops.len() == 0 {
            assert(values_saved(ops) =~= Seq::<nat>::empty());
        } else if ops.len() == 1 {
            assert(values_saved(ops) =~= Seq::<nat>::empty().push(0));
            lemma_sum_push(Seq::<nat>::empty(), 0);
        } else {
            assert(ops.len() == 2);
            lemma_sum_push(Seq::<nat>::empty(), amount);
            lemma_sum_push(Seq::<nat>::empty().push(amount), 0);
            assert(values_saved(ops) =~= Seq::<nat>::empty().push(amount).push(0));
        }
    }
}

/// The outputs that the end of an epoch creates are worth no more than it adds to the emission.
pub proof fn law_epoch_outputs_within_emission(before: Node, after: Node, now: Timestamp)
    requires
        epoch_ended(before, after, now),
    ensures
        sum_of(values_saved(epoch_ops(before, after))) <= after.total_emitted
            - before.total_emitted,
{
    let ids = before.miners.items();
    let n = ids.len() as int;
    let pay = payments_ops(before, n);
    let loyal = Seq::new(ids.len(), |i: int| StoreOpV::SaveLoyalty(ids[i].0));
    let miners = Seq::new(ids.len(), |i: int| StoreOpV::SaveMiner(ids[i].0));
    let last = seq![
        StoreOpV::SaveEmitted(after.total_emitted),
        StoreOpV::SaveEpoch(after.epoch),
    ];
    lemma_payments_within(before, n);
    lemma_no_values(loyal);
    lemma_no_values(miners);
    lemma_no_values(last);
    lemma_values_concat(pay, loyal);
    lemma_values_concat(pay + loyal, miners);
    lemma_values_concat(pay + loyal + miners, last);
}

/// A share is taken in only from a miner who is not banned and whose bond is locked, and only where
/// it is work on the tip of the chain in the current epoch that meets the share target. It counts
/// one for its miner and for the node, and for no other miner; a share that is not looked at
/// changes nothing.
pub proof fn law_shares_need_a_bond_and_work(before: Node, after: Node, share: Share, r: bool)
    requires
        share_added(before, after, share, r),
    ensures
        ({
            let id = share.miner_id;
            let bonded = before.bonds@.contains_key(id) && before.bonds@[id].created_at
                <= before.height && before.height < before.bonds@[id].lock_until;
            let banned = before.miners@.contains_key(id) && (
            before.miners@[id].banned_until matches Some(until) && share.timestamp < until);
            &&& !bonded || banned ==> !r && after == before
            &&& r ==> {
                &&& share.header.prev_hash == tip_hash_array(before.blocks@)
                &&& share.header.epoch_index == before.epoch
                &&& share.hash@ == pow_hash_of(
                    header_bytes(with_nonce(share.header, share.nonce)),
                )
                &&& be_value(share.hash@) <= be_value(share_target_of(before).0@)
                &&& before.shares_found < u64::MAX ==> after.shares_found == before.shares_found
                    + 1
                &&& after.miners@.contains_key(id)
                &&& before.miners@.contains_key(id) && before.miners@[id].shares < u64::MAX
                    ==> after.miners@[id].shares == before.miners@[id].shares + 1
                &&& !before.miners@.contains_key(id) ==> after.miners@[id].shares == 1
                    && after.miners@[id].bond == before.bonds@[id].amount
            }
            &&& !r ==> after.shares_found == before.shares_found
            &&& forall|m: MinerId|
                m != id ==> (#[trigger] after.miners@.contains_key(m)
                    <==> before.miners@.contains_key(m)) && (before.miners@.contains_key(m)
                    ==> after.miners@[m] == before.miners@[m])
            &&& after.blocks == before.blocks && after.total_emitted == before.total_emitted
        }),
{
}

/// The last record of the chain that a node keeps is of its tip at its height; no more records are
/// kept than may be, and the oldest goes first.
pub proof fn law_checkpoint_records_the_tip(before: Node, after: Node, now: Timestamp, r: bool)
    requires
        checkpoint_made(before, after, now, r),
        before.blocks@.len() > 0,
        before.config.advanced.max_checkpoints > 0,
    ensures
        r,
        after.checkpoints@.len() > 0,
        after.checkpoints@.last().height == before.height,
        after.checkpoints@.last().block_hash@ == pow_hash_of(header_bytes(before.blocks@.last())),
        after.checkpoints@.last().timestamp == now,
        after.checkpoints@.last().state_root@ == state_root_of(
            before.miners.items(),
            before.bonds.items(),
        ),
        before.checkpoints@.len() <= before.config.advanced.max_checkpoints
            ==> after.checkpoints@.len() <= before.config.advanced.max_checkpoints,
        before.checkpoints@.len() < before.config.advanced.max_checkpoints
            ==> after.checkpoints@.drop_last() == before.checkpoints@,
        after.blocks == before.blocks,
        after.height == before.height,
{
    let c = choose|c: Checkpoint| #[trigger]
        checkpoint_of(before, now, c) && after.checkpoints@ == {
            let pushed = before.checkpoints@.push(c);
            if pushed.len() > before.config.advanced.max_checkpoints {
                pushed.drop_first()
            } else {
                pushed
            }
        };
    assert(before.checkpoints@.push(c).drop_last() =~= before.checkpoints@);
}

proof fn lemma_created_value(m: Map<OutPoint, TxOutV>, t: TransactionV, n: int, j: int)
    requires
        0 <= j < n <= t.outputs.len() < 0x1_0000_0000,
    ensures
        ({
            let p = (txid_array(t), j as u32);
            let r = after_ops(m, created_ops(t).take(n));
            r.contains_key(p) && r[p] == t.outputs[j]
        }),
    decreases n,
{
    let ops = created_ops(t).take(n);
    assert(ops.drop_last() =~= created_ops(t).take(n - 1));
    assert(ops.last() == StoreOpV::SaveUtxo(
        (txid_array(t), ((n - 1) % 0x1_0000_0000) as u32),
        t.outputs[n - 1],
    ));
    if j < n - 1 {
        lemma_created_value(m, t, n - 1, j);
    }
}

/// An output that a transaction of a block creates is there after the block, with the value and the
/// script that the transaction gave it, unless that transaction or a later one spends it or a later
/// one has its identifier.
pub proof fn law_created_outputs_hold_what_was_paid(
    m: Map<OutPoint, TxOutV>,
    txs: Seq<TransactionV>,
    i: int,
    j: int,
)
    requires
        0 <= i < txs.len(),
        0 <= j < txs[i].outputs.len() < 0x1_0000_0000,
        forall|k: int|
            i <= k < txs.len() ==> !consumes(#[trigger] txs[k], (txid_array(txs[i]), j as u32)),
        forall|k: int|
            i < k < txs.len() ==> !creates(#[trigger] txs[k], (txid_array(txs[i]), j as u32)),
    ensures
        ({
            let r = after_ops(m, block_ops(txs));
            let p = (txid_array(txs[i]), j as u32);
            r.contains_key(p) && r[p].value == txs[i].outputs[j].value && r[p].script_pubkey
                == txs[i].outputs[j].script_pubkey
        }),
    decreases txs.len(),
{
    let rest = txs.drop_last();
    let t = txs.last();
    let p = (txid_array(txs[i]), j as u32);
    let mid = after_ops(m, block_ops(rest));
    let tail = created_ops(t) + deleted_ops(t.inputs);
    assert(block_ops(txs) =~= block_ops(rest) + tail);
    lemma_after_concat(m, block_ops(rest), tail);
    assert(txs[txs.len() - 1] == t);
    assert(!consumes(txs[txs.len() - 1], p));
    if i < rest.len() {
        assert(rest[i] == txs[i]);
        assert forall|k: int| i <= k < rest.len() implies !consumes(#[trigger] rest[k], p) by {
            assert(rest[k] == txs[k]);
        }
        assert forall|k: int| i < k < rest.len() implies !creates(#[trigger] rest[k], p) by {
            assert(rest[k] == txs[k]);
        }
        law_created_outputs_hold_what_was_paid(m, rest, i, j);
        assert(!creates(txs[txs.len() - 1], p));
        lemma_after_transaction(mid, t, p);
    } else {
        let n = t.outputs.len() as int;
        lemma_created_value(mid, t, n, j);
        assert(created_ops(t).take(n) =~= created_ops(t));
        lemma_after_concat(mid, created_ops(t), deleted_ops(t.inputs));
        lemma_after_deleted(after_ops(mid, created_ops(t)), t.inputs, p);
    }
}

/// An output that a transaction of a block spends is gone after the block, also where the block
/// created it before; only a later transaction with its identifier brings it back.
pub proof fn law_spent_outputs_are_gone(
    m: Map<OutPoint, TxOutV>,
    txs: Seq<TransactionV>,
    i: int,
    p: OutPoint,
)
    requires
        0 <= i < txs.len(),
        consumes(txs[i], p),
        forall|k: int| i < k < txs.len() ==> !creates(#[trigger] txs[k], p),
    ensures
        !after_ops(m, block_ops(txs)).contains_key(p),
    decreases txs.len(),
{
    let rest = txs.drop_last();
    let t = txs.last();
    let mid = after_ops(m, block_ops(rest));
    let tail = created_ops(t) + deleted_ops(t.inputs);
    assert(block_ops(txs) =~= block_ops(rest) + tail);
    lemma_after_concat(m, block_ops(rest), tail);
    lemma_after_transaction(mid, t, p);
    assert(txs[txs.len() - 1] == t);
    if i < rest.len() {
        assert(rest[i] == txs[i]);
        assert forall|k: int| i < k < rest.len() implies !creates(#[trigger] rest[k], p) by {
            assert(rest[k] == txs[k]);
        }
        law_spent_outputs_are_gone(m, rest, i, p);
        assert(!creates(txs[txs.len() - 1], p));
    }
}

/// Whether two lists agree on what the state root takes from miners.
pub open spec fn same_miners(a: Seq<(MinerId, MinerData)>, b: Seq<(MinerId, MinerData)>) -> bool {
    a.len() == b.len() && forall|i: int|
        #![trigger a[i]]
        #![trigger b[i]]
        0 <= i < a.len() ==> a[i].0 == b[i].0 && a[i].1.shares == b[i].1.shares && a[i].1.bond
            == b[i].1.bond
}

/// Whether two lists agree on what the state root takes from bonds.
pub open spec fn same_bonds(a: Seq<(MinerId, Bond)>, b: Seq<(MinerId, Bond)>) -> bool {
    a.len() == b.len() && forall|i: int|
        #![trigger a[i]]
        #![trigger b[i]]
        0 <= i < a.len() ==> a[i].0 == b[i].0 && a[i].1.amount == b[i].1.amount
            && a[i].1.lock_until == b[i].1.lock_until
}

proof fn lemma_last_36(
    a: Seq<u8>,
    b: Seq<u8>,
    p: Seq<u8>,
    q: Seq<u8>,
    x: nat,
    y: nat,
    u: nat,
    v: nat,
)
    requires
        p.len() == 20,
        q.len() == 20,
        x < 0x1_0000_0000_0000_0000,
        y < 0x1_0000_0000_0000_0000,
        u < 0x1_0000_0000_0000_0000,
        v < 0x1_0000_0000_0000_0000,
        a + p + le_bytes(x, 8) + le_bytes(u, 8) == b + q + le_bytes(y, 8) + le_bytes(v, 8),
    ensures
        a == b,
        p == q,
        x == y,
        u == v,
{
    crate::bytes::lemma_pow256_words();
    crate::bytes::lemma_le_bytes_len(x, 8);
    crate::bytes::lemma_le_bytes_len(y, 8);
    crate::bytes::lemma_le_bytes_len(u, 8);
    crate::bytes::lemma_le_bytes_len(v, 8);
    let l = a + p + le_bytes(x, 8) + le_bytes(u, 8);
    let r = b + q + le_bytes(y, 8) + le_bytes(v, 8);
    let n = a.len() as int;
    assert(l.len() == n + 36);
    assert(r.len() == b.len() + 36);
    assert(l.subrange(0, n) =~= a && r.subrange(0, n) =~= b);
    assert(l.subrange(n, n + 20) =~= p && r.subrange(n, n + 20) =~= q);
    assert(l.subrange(n + 20, n + 28) =~= le_bytes(x, 8));
    assert(r.subrange(n + 20, n + 28) =~= le_bytes(y, 8));
    assert(l.subrange(n + 28, n + 36) =~= le_bytes(u, 8));
    assert(r.subrange(n + 28, n + 36) =~= le_bytes(v, 8));
    crate::bytes::lemma_le_value_of_bytes(x, 8);
    crate::bytes::lemma_le_value_of_bytes(y, 8);
    crate::bytes::lemma_le_value_of_bytes(u, 8);
    crate::bytes::lemma_le_value_of_bytes(v, 8);
}

proof fn lemma_state_bytes_len(miners: Seq<(MinerId, MinerData)>, bonds: Seq<(MinerId, Bond)>)
    ensures
        miners_bytes(miners).len() == 36 * miners.len(),
        bonds_bytes(bonds).len() == 36 * bonds.len(),
    decreases miners.len() + bonds.len(),
{
    if miners.len() > 0 {
        lemma_state_bytes_len(miners.drop_last(), bonds);
        crate::bytes::lemma_le_bytes_len(miners.last().1.shares as nat, 8);
        crate::bytes::lemma_le_bytes_len(miners.last().1.bond as nat, 8);
    } else if bonds.len() > 0 {
        lemma_state_bytes_len(miners, bonds.drop_last());
        crate::bytes::lemma_le_bytes_len(bonds.last().1.amount as nat, 8);
        crate::bytes::lemma_le_bytes_len(bonds.last().1.lock_until as nat, 8);
    }
}

/// What the state root hashes tells the miners with their shares and their bonds, each in its
/// place: 36 bytes for every miner, from which no two lists with as many miners are the same.
pub proof fn law_state_root_tells_the_miners(
    a: Seq<(MinerId, MinerData)>,
    b: Seq<(MinerId, MinerData)>,
)
    ensures
        miners_bytes(a).len() == 36 * a.len(),
        miners_bytes(a) == miners_bytes(b) <==> same_miners(a, b),
    decreases a.len(),
{
    lemma_state_bytes_len(a, Seq::empty());
    lemma_state_bytes_len(b, Seq::empty());
    if a.len() == b.len() && a.len() > 0 {
        let (x, y) = (a.last(), b.last());
        let (ra, rb) = (a.drop_last(), b.drop_last());
        law_state_root_tells_the_miners(ra, rb);
        if miners_bytes(a) == miners_bytes(b) {
            lemma_last_36(
                miners_bytes(ra),
                miners_bytes(rb),
                x.0@,
                y.0@,
                x.1.shares as nat,
                y.1.shares as nat,
                x.1.bond as nat,
                y.1.bond as nat,
            );
            assert(x.0 =~= y.0);
            assert forall|i: int|
                #![trigger a[i]]
                #![trigger b[i]]
                0 <= i < a.len() implies a[i].0 == b[i].0 && a[i].1.shares == b[i].1.shares
                && a[i].1.bond == b[i].1.bond by {
                if i < ra.len() {
                    assert(ra[i] == a[i] && rb[i] == b[i]);
                }
            }
        }
        if same_miners(a, b) {
            assert(a[a.len() - 1] == x && b[b.len() - 1] == y);
            assert forall|i: int|
                #![trigger ra[i]]
                #![trigger rb[i]]
                0 <= i < ra.len() implies ra[i].0 == rb[i].0 && ra[i].1.shares == rb[i].1.shares
                && ra[i].1.bond == rb[i].1.bond by {
                assert(ra[i] == a[i] && rb[i] == b[i]);
            }
        }
    }
}

/// What the state root hashes tells the bonds with their amounts and ends, each in its place.
pub proof fn law_state_root_tells_the_bonds(a: Seq<(MinerId, Bond)>, b: Seq<(MinerId, Bond)>)
    ensures
        bonds_bytes(a).len() == 36 * a.len(),
        bonds_bytes(a) == bonds_bytes(b) <==> same_bonds(a, b),
    decreases a.len(),
{
    lemma_state_bytes_len(Seq::empty(), a);
    lemma_state_bytes_len(Seq::empty(), b);
    if a.len() == b.len() && a.len() > 0 {
        let (x, y) = (a.last(), b.last());
        let (ra, rb) = (a.drop_last(), b.drop_last());
        law_state_root_tells_the_bonds(ra, rb);
        if bonds_bytes(a) == bonds_bytes(b) {
            lemma_last_36(
                bonds_bytes(ra),
                bonds_bytes(rb),
                x.0@,
                y.0@,
                x.1.amount as nat,
                y.1.amount as nat,
                x.1.lock_until as nat,
                y.1.lock_until as nat,
            );
            assert(x.0 =~= y.0);
            assert forall|i: int|
                #![trigger a[i]]
                #![trigger b[i]]
                0 <= i < a.len() implies a[i].0 == b[i].0 && a[i].1.amount == b[i].1.amount
                && a[i].1.lock_until == b[i].1.lock_until by {
                if i < ra.len() {
                    assert(ra[i] == a[i] && rb[i] == b[i]);
                }
            }
        }
        if same_bonds(a, b) {
            assert(a[a.len() - 1] == x && b[b.len() - 1] == y);
            assert forall|i: int|
                #![trigger ra[i]]
                #![trigger rb[i]]
                0 <= i < ra.len() implies ra[i].0 == rb[i].0 && ra[i].1.amount == rb[i].1.amount
                && ra[i].1.lock_until == rb[i].1.lock_until by {
                assert(ra[i] == a[i] && rb[i] == b[i]);
            }
        }
    }
}

/// The state root is the digest of the miners followed by the bonds.
pub proof fn law_state_root_is_over_miners_and_bonds(
    miners: Seq<(MinerId, MinerData)>,
    bonds: Seq<(MinerId, Bond)>,
    preimage: Seq<u8>,
)
    requires
        preimage.take(36int * miners.len()) == miners_bytes(miners),
        preimage.skip(36int * miners.len()) == bonds_bytes(bonds),
        preimage.len() >= 36 * miners.len(),
    ensures
        state_root_of(miners, bonds) == crate::primitives::sha256_of(preimage),
{
    assert(preimage =~= miners_bytes(miners) + bonds_bytes(bonds));
}

/// A record of the chain is signed by the wallet of the node over the digest of the height, the tip
/// and the state root, in this order; without a wallet that can sign it carries no signature.
pub proof fn law_records_are_signed(n: Node, now: Timestamp, c: Checkpoint, b: Seq<u8>)
    requires
        checkpoint_of(n, now, c),
        b.len() == 72,
        b.subrange(0, 8) == le_bytes(c.height as nat, 8),
        b.subrange(8, 40) == c.block_hash@,
        b.subrange(40, 72) == c.state_root@,
    ensures
        wallet_view(n.wallet) is None ==> c.signature@.len() == 0,
        wallet_view(n.wallet) matches Some(w) ==> crate::wallet::signing_fault(w.secret_key) is None
            ==> c.signature@ == crate::primitives::ecdsa_signature(
            w.secret_key,
            crate::primitives::sha256_of(b),
        ),
{
    assert(b =~= b.subrange(0, 8) + b.subrange(8, 40) + b.subrange(40, 72));
}

/// A share that is taken in keeps its miner loyal: in the first one of an epoch the miner misses
/// nothing any more and has one more epoch in a row. A share that is refused changes no loyalty.
pub proof fn law_shares_keep_a_miner_loyal(before: Node, after: Node, share: Share, r: bool)
    requires
        share_added(before, after, share, r),
        before.epoch > 0,
        before.loyalty@.contains_key(share.miner_id)
            ==> before.loyalty@[share.miner_id].consecutive_epochs < u32::MAX,
    ensures
        ({
            let id = share.miner_id;
            let known = before.loyalty@.contains_key(id);
            &&& !r ==> after.loyalty@ == before.loyalty@
            &&& r ==> after.loyalty@.contains_key(id)
            &&& r && !known ==> after.loyalty@[id].value == 1 && after.loyalty@[id].last_epoch
                == before.epoch && after.loyalty@[id].consecutive_epochs == 1
            &&& r && known && before.loyalty@[id].last_epoch < before.epoch
                ==> after.loyalty@[id].missed_epochs == 0 && after.loyalty@[id].last_epoch
                == before.epoch && after.loyalty@[id].consecutive_epochs
                == before.loyalty@[id].consecutive_epochs + 1
            &&& r && known && before.loyalty@[id].last_epoch >= before.epoch ==> after.loyalty@[id]
                == before.loyalty@[id]
            &&& forall|m: MinerId|
                m != id ==> (#[trigger] after.loyalty@.contains_key(m)
                    <==> before.loyalty@.contains_key(m)) && after.loyalty@[m]
                    == before.loyalty@[m]
        }),
{
    crate::miner::law_missed_epochs_lower_loyalty(0, false, (before.epoch - 1) as nat);
}

/// What a share that is refused does to its miner: one of another epoch than the pool's has the
/// miner judged anew by its invalid shares, one that is known does nothing; its shares stay.
pub proof fn law_refused_shares_and_the_miner(before: Node, after: Node, share: Share, r: bool)
    requires
        share_added(before, after, share, r),
        share_considered(before, share),
        before.miners@.contains_key(share.miner_id),
        !r,
    ensures
        ({
            let id = share.miner_id;
            let pool = before.share_pool;
            &&& after.miners@.contains_key(id)
            &&& after.miners@[id].shares == before.miners@[id].shares
            &&& after.miners@[id].bond == before.miners@[id].bond
            &&& share.header.epoch_index != pool.current_epoch
                ==> after.miners@[id].invalid_ratio.total == count_of(pool.total_shares@, id)
                && after.share_pool == pool
            &&& share.header.epoch_index == pool.current_epoch && crate::miner::knows(pool, share)
                ==> after.miners@ == before.miners@ && after.share_pool == pool
            &&& share.header.epoch_index == pool.current_epoch && !share_valid(before, share)
                ==> after.miners@ == before.miners@
        }),
{
}

/// The target of the shares of a node is 256 times the target of its next block, as far as 32 bytes
/// can write it; a share that is taken in meets it.
pub proof fn law_shares_meet_256_times_the_target(
    before: Node,
    after: Node,
    share: Share,
    r: bool,
    t: Target,
)
    requires
        share_added(before, after, share, r),
        be_value(t.0@) == 256 * next_target(before.height, before.blocks@, before.timestamps@),
    ensures
        be_value(share_target_of(before).0@) == be_value(t.0@),
        r ==> be_value(share.hash@) <= be_value(t.0@),
{
    let v = next_target(before.height, before.blocks@, before.timestamps@);
    crate::bytes::lemma_be_value_bound(t.0@);
    crate::types::law_share_target_ratios(v);
    assert(be_value(t.0@) == crate::types::saturated_product(v, SHARE_DIFFICULTY_RATIO as nat));
    law_shares_need_a_bond_and_work(before, after, share, r);
}

} // verus!
