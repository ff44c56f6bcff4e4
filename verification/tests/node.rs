use accum::block::{Block, BlockHeader, Transaction, TxOut};
use accum::chain::Refusal;
use accum::collections::OrdMap;
use accum::config::Config;
use accum::crypto::Argon2Cache;
use accum::miner::{LoyaltyData, MinerData, Share};
use accum::mining::{
    has_repeated_txid, search_nonces, select_transactions, BlockTemplate, MineOutcome,
    SearchOutcome, SearchResult, SearchedBlock,
};
use accum::node::{seal, update_utxo_set, Node, StoreOp};
use accum::p2p::{root_of_transactions, SyncManager};
use accum::storage::{loyalty_key, Bond, Checkpoint};
use accum::types::Target;
use accum::wallet::Wallet;
use sha2::Digest;

fn wallet() -> Wallet {
    let mut key = vec![0u8; 32];
    key[31] = 3;
    Wallet::from_secret_key(&key).unwrap()
}

fn node() -> Node {
    Node::create(Config::default(), wallet(), 0, 1, 1_000)
}

fn coinbase(value: u64) -> Transaction {
    let mut output = TxOut::create_p2pkh(&wallet().address).unwrap();
    output.value = value;
    Transaction::coinbase(vec![output], 1)
}

fn header(timestamp: u64) -> BlockHeader {
    BlockHeader {
        version: 1,
        prev_hash: [0; 32],
        merkle_root: [0; 32],
        timestamp,
        difficulty: Target([0xFF; 32]),
        nonce: 0,
        epoch_index: 1,
    }
}

fn first_block() -> Block {
    let transactions = vec![coinbase(500_000)];
    let mut h = header(50_000);
    h.merkle_root = root_of_transactions(&transactions);
    Block { header: h, transactions, signature: None, pubkey: Some(wallet().public_key) }
}

/// A signature that covers the digest of the hash.
fn signed(mut block: Block, hash: &[u8; 32]) -> Block {
    let digest: [u8; 32] = sha2::Sha256::digest(hash).into();
    block.signature = Some(wallet().sign(&digest).unwrap());
    block
}

#[test]
fn the_chain_begins() {
    let mut n = node();
    let (block, ops) = n.init_genesis();
    assert_eq!(block.header.merkle_root, block.transactions[0].compute_txid());
    assert_eq!(n.blocks.len(), 1);
    assert_eq!(n.timestamps, vec![1741353600]);
    assert_eq!(n.total_emitted, 500_000_000);
    assert_eq!(ops.len(), 5);
    assert!(matches!(&ops[0], StoreOp::SaveUtxo(_, o) if o.value == 500_000_000));
    assert!(matches!(ops[4], StoreOp::SaveEmitted(500_000_000)));
    let hash = n.last_hash();
    assert_eq!(n.block_hashes.get(&hash), Some(&0));
    assert_eq!(block.signature, Some(wallet().sign_block(&hash).unwrap()));
    assert_eq!(n.argon2.stats().1, 1);
}

#[test]
fn state_is_loaded() {
    let mut n = node();
    n.load_miner(MinerData::new([1; 20], 5, 1, 7));
    n.load_bond(Bond::new(10_000_000, 0, [1; 20]));
    assert!(n.load_loyalty(&loyalty_key(&[1; 20]), LoyaltyData::new()));
    assert!(!n.load_loyalty(b"height", LoyaltyData::new()));
    n.finish_loading(Some(77), vec![coinbase(5)]);
    assert_eq!(n.total_emitted, 77);
    assert_eq!(n.mempool.len(), 1);
    assert!(n.miners.contains_key(&[1; 20]));
    assert!(n.bonds.contains_key(&[1; 20]));
    assert!(n.loyalty.contains_key(&[1; 20]));
}

#[test]
fn targets_and_medians() {
    let mut n = node();
    assert_eq!(n.last_difficulty().0, Target::genesis().0);
    n.blocks.push(header(5));
    assert_eq!(n.last_difficulty().0, [0xFF; 32]);
    assert_eq!(n.median_timestamp(), None);
    n.height = 120;
    assert!(!n.retarget_known());
    n.timestamps = (0..121).map(|i| i * 60).collect();
    assert!(n.retarget_known());
    assert_eq!(n.last_difficulty().0, Target::genesis().0);
    assert_eq!(n.median_timestamp(), Some(115 * 60));
}

#[test]
fn when_to_mine() {
    let mut n = node();
    n.height = 99;
    assert!(n.should_mine(false, None));
    assert!(n.should_mine(false, Some(100)));
    assert!(!n.should_mine(false, Some(101)));
    assert!(!n.should_mine(true, None));
    n.config.mining.enabled = false;
    assert!(!n.should_mine(false, None));
    assert!(n.is_mining_due(0));
    n.blocks.push(header(1_000));
    assert!(!n.is_mining_due(1_059));
    assert!(n.is_mining_due(1_060));
}

#[test]
fn bonds_of_a_node() {
    let mut n = node();
    let id = n.miner_id;
    assert_eq!(n.missing_bond(), Some(10_000_000));
    assert!(n.add_bond(id, 9_999_999).is_none());
    assert!(n.add_bond(id, 10_000_000).is_some());
    assert_eq!(n.missing_bond(), None);
}

#[test]
fn shares_need_a_bond_and_work() {
    let mut n = node();
    let id = n.miner_id;
    let share = Share::new_at(id, header(5), 1, [0; 32], 5);
    assert!(!n.add_share(share));
    assert_eq!(n.share_pool.invalid_ratio(&id).total, 0);
    n.add_bond(id, 10_000_000);
    assert!(!n.add_share(share));
    assert_eq!(n.share_pool.invalid_ratio(&id).invalid, 1);
    assert_eq!(n.shares_found, 0);
    assert_eq!(n.argon2.stats().1, 0);
}

#[test]
fn an_epoch_ends() {
    let mut n = node();
    let id = n.miner_id;
    n.add_bond(id, 10_000_000);
    let mut miner = MinerData::new(id, 10_000_000, 1, 5);
    miner.shares = 9;
    n.load_miner(miner);
    n.load_miner(MinerData::new([1; 20], 0, 1, 5));
    let ops = n.process_epoch_end(500);
    assert_eq!((n.epoch, n.share_pool.current_epoch), (2, 2));
    assert_eq!(n.total_emitted, 720_000_000);
    let settled = n.miners.get(&id).unwrap();
    assert_eq!((settled.shares, settled.total_rewards), (0, 720_000_000));
    assert_eq!(n.loyalty.get(&id).unwrap().value, 1);
    assert_eq!(n.loyalty.get(&[1; 20]).unwrap().missed_epochs, 1);
    let paid = ops.iter().any(|o| matches!(o, StoreOp::SaveUtxo(_, o) if o.value == 720_000_000));
    assert!(paid);
}

#[test]
fn the_supply_is_capped() {
    let mut n = node();
    let id = n.miner_id;
    let mut miner = MinerData::new(id, 0, 1, 5);
    miner.shares = 9;
    n.load_miner(miner);
    n.total_emitted = 1_500_000_000_000_000 - 10;
    n.process_epoch_end(500);
    assert!(n.total_emitted <= 1_500_000_000_000_000);
}

#[test]
fn states_have_a_root() {
    let mut n = node();
    let empty: [u8; 32] = sha2::Sha256::digest(b"").into();
    assert_eq!(n.calculate_state_root(), empty);
    n.load_bond(Bond::new(10_000_000, 0, [1; 20]));
    let mut data = vec![1u8; 20];
    data.extend_from_slice(&10_000_000u64.to_le_bytes());
    data.extend_from_slice(&20_160u64.to_le_bytes());
    let expected: [u8; 32] = sha2::Sha256::digest(&data).into();
    assert_eq!(n.calculate_state_root(), expected);
    assert!(!n.create_checkpoint(5));
    n.blocks.push(header(5));
    assert!(n.create_checkpoint(5));
    let made = n.checkpoint_at(0).unwrap();
    assert_eq!((made.state_root, made.timestamp, made.signature.len()), (expected, 5, 64));
    assert_eq!(n.argon2.stats().1, 1);
}

#[test]
fn blocks_move_outputs() {
    let cb = coinbase(7);
    let mut tx = coinbase(8);
    tx.inputs[0].prev_txid = [4; 32];
    tx.inputs[0].prev_index = 2;
    let ops = update_utxo_set(&vec![cb.clone(), tx.clone()]);
    assert_eq!(ops.len(), 3);
    assert!(matches!(&ops[0], StoreOp::SaveUtxo(p, _) if *p == (cb.compute_txid(), 0)));
    assert!(matches!(&ops[1], StoreOp::SaveUtxo(p, _) if *p == (tx.compute_txid(), 0)));
    assert!(matches!(&ops[2], StoreOp::DeleteUtxo(p) if *p == ([4; 32], 2)));
    assert_eq!(SyncManager::update_utxo_set(&first_block()).len(), 1);
}

#[test]
fn blocks_are_sealed_by_a_wallet() {
    let (signature, key) = seal(&Some(wallet()), &[1; 32]);
    assert_eq!(signature, Some(wallet().sign(&[1; 32]).unwrap()));
    assert_eq!(key, Some(wallet().public_key));
    assert_eq!(seal(&None, &[1; 32]), (None, None));
}

#[test]
fn the_search_stops_at_work() {
    let mut cache = Argon2Cache::new(10);
    let none = search_nonces(&header(5), 0, &mut cache);
    assert_eq!((none.found, none.nonce, none.hash), (false, 0, [0xFF; 32]));
    let found = search_nonces(&header(5), 1_000, &mut cache);
    assert!(found.found);
    assert_eq!(found.nonce, 0);
    assert_eq!(found.hash, header(5).hash(&mut cache));
    assert_eq!(cache.stats().1, 1);
}

#[test]
fn blocks_have_room_for_a_million_bytes() {
    let list = vec![coinbase(1), coinbase(2), coinbase(3)];
    let (all, fees) = select_transactions(&list, &vec![400_000, 600_000, 1], &OrdMap::new());
    assert!(all.len() <= 2);
    assert_eq!(fees, 0);
    assert!(!has_repeated_txid(&list));
}

#[test]
fn a_node_that_cannot_be_paid_does_not_mine() {
    let mut n = node();
    n.blocks.push(header(u64::MAX));
    assert!(matches!(n.mine_block(&vec![], &OrdMap::new()), MineOutcome::NotDue));
    let mut poor = node();
    poor.wallet = None;
    assert!(matches!(poor.mine_block(&vec![], &OrdMap::new()), MineOutcome::NoReward));
    assert_eq!(poor.argon2.stats().1, 0);
}

fn searched(found: bool, hash: [u8; 32]) -> SearchedBlock {
    let transactions = vec![coinbase(500_000)];
    let mut h = header(5_000);
    h.merkle_root = root_of_transactions(&transactions);
    let search = SearchResult { found, nonce: 7, hash };
    SearchedBlock { template: BlockTemplate { header: h, transactions }, search }
}

#[test]
fn a_block_that_was_found_is_kept() {
    let mut n = node();
    n.config.advanced.checkpoint_interval = 1;
    n.config.advanced.backup_interval_blocks = 1;
    match n.settle_search_at(searched(true, [9; 32]), 5_060, 5_061) {
        MineOutcome::Mined(m) => {
            assert_eq!(m.hash, [9; 32]);
            assert_eq!(m.block.header.nonce, 7);
            let work = m.block.header.hash(&mut n.argon2);
            assert_eq!(m.block.signature, Some(wallet().sign_block(&work).unwrap()));
            assert_eq!(m.block.pubkey, Some(wallet().public_key));
            assert!(!m.share_saved);
            assert!(m.backup);
            assert!(matches!(m.ops[0], StoreOp::SaveBlock(1)));
            assert!(matches!(m.ops[1], StoreOp::SaveEmitted(500_000)));
            assert!(matches!(m.ops[m.ops.len() - 1], StoreOp::SaveCheckpoint(1)));
            assert_eq!(m.ops.len(), 7);
        }
        _ => panic!("no block"),
    }
    assert_eq!((n.height, n.blocks.len(), n.blocks_found), (1, 1, 1));
    assert_eq!(n.block_hashes.get(&[9; 32]), Some(&1));
    assert_eq!(n.checkpoint_at(1).unwrap().timestamp, 5_061);
    assert_eq!(n.argon2.stats().1, 1);
}

#[test]
fn a_share_or_nothing_comes_of_a_search_without_a_block() {
    let mut n = node();
    let share = n.settle_search_at(searched(false, [9; 32]), 5_060, 5_061);
    assert!(matches!(share, MineOutcome::Share(false, hash) if hash == [9; 32]));
    let nothing = n.settle_search_at(searched(false, [0xFF; 32]), 5_060, 5_061);
    assert!(matches!(nothing, MineOutcome::Nothing));
    assert_eq!((n.height, n.argon2.stats().1), (0, 0));
}

#[test]
fn a_block_that_repeats_a_transaction_is_refused() {
    let mut n = node();
    let mut work = searched(true, [9; 32]);
    let mut tx = coinbase(8);
    tx.inputs[0].prev_txid = [4; 32];
    work.template.transactions.push(tx.clone());
    work.template.transactions.push(tx);
    assert!(matches!(n.settle_search_at(work, 5_060, 5_061), MineOutcome::Refused));
    assert_eq!((n.height, n.argon2.stats().1), (0, 0));
}

#[test]
fn mining_waits_for_its_time() {
    let mut n = node();
    n.blocks.push(header(1_000));
    let early = n.mine_block_at(&vec![], &OrdMap::new(), 1_059, 1_059, 1_059);
    assert!(matches!(early, MineOutcome::NotDue));
    n.wallet = None;
    let unpaid = n.mine_block_at(&vec![], &OrdMap::new(), 1_060, 1_060, 1_060);
    assert!(matches!(unpaid, MineOutcome::NoReward));
    let none = n.search_block_at(&vec![], &OrdMap::new(), 1_059);
    assert!(matches!(none, SearchOutcome::NotDue));
}

#[test]
fn the_next_block_is_put_together() {
    let mut n = node();
    let template = n.prepare_block(&vec![], &OrdMap::new(), 77).unwrap();
    assert_eq!(template.header.prev_hash, [0; 32]);
    assert_eq!(template.header.timestamp, 77);
    assert_eq!(template.header.difficulty.0, Target::genesis().0);
    assert_eq!(template.transactions.len(), 1);
    assert_eq!(template.transactions[0].outputs[0].value, 500_000);
    assert_eq!(template.transactions[0].inputs[0].script_sig, 1u64.to_le_bytes().to_vec());
    assert_eq!(template.header.merkle_root, root_of_transactions(&template.transactions));
    let block = Block {
        header: template.header,
        transactions: template.transactions,
        signature: None,
        pubkey: None,
    };
    let ops = n.append_own_block(&block, [9; 32]);
    assert_eq!((n.height, n.blocks_found, n.total_emitted), (1, 1, 500_000));
    assert_eq!(n.block_hashes.get(&[9; 32]), Some(&1));
    assert_eq!(ops.len(), 4);
    assert_eq!(n.argon2.stats().1, 0);
}

#[test]
fn blocks_of_peers_are_checked() {
    let mut n = node();
    let mut stale = first_block();
    stale.header.prev_hash = [1; 32];
    assert_eq!(n.check_received_block(&stale, &OrdMap::new(), 60_000), Err(Refusal::PrevHash));

    let block = first_block();
    let hash = block.header.hash(&mut n.argon2);
    let good = signed(block.clone(), &hash);
    assert_eq!(n.check_received_block(&block, &OrdMap::new(), 60_000), Err(Refusal::Unsigned));
    assert_eq!(n.check_received_block(&good, &OrdMap::new(), 60_000), Ok(hash));
    let mut forged = good.clone();
    forged.signature = Some(vec![7; 64]);
    assert_eq!(n.check_received_block(&forged, &OrdMap::new(), 60_000), Err(Refusal::Signature));
    let mut own = good.clone();
    own.signature = Some(wallet().sign_block(&hash).unwrap());
    assert_eq!(n.check_received_block(&own, &OrdMap::new(), 60_000), Err(Refusal::Signature));
    assert_eq!(
        n.check_received_block(&good, &OrdMap::new(), 1_000),
        Err(Refusal::Timestamp)
    );
    let mut changed = good.clone();
    changed.transactions[0].locktime = 1;
    assert_eq!(n.check_received_block(&changed, &OrdMap::new(), 60_000), Err(Refusal::MerkleRoot));

    n.load_checkpoint(Checkpoint {
        height: 1,
        block_hash: [3; 32],
        state_root: [0; 32],
        timestamp: 0,
        signature: vec![],
        verified: false,
    });
    assert_eq!(n.check_received_block(&good, &OrdMap::new(), 60_000), Err(Refusal::Checkpoint));
    let ops = n.apply_received_block(&good, hash);
    assert_eq!((n.height, n.blocks.len()), (1, 1));
    assert_eq!(n.block_hashes.get(&hash), Some(&1));
    assert_eq!(ops.len(), 3);
    assert_eq!(n.argon2.stats().1, 1);
}

#[test]
fn blocks_of_a_synchronisation_are_checked() {
    let mut n = node();
    let mut block = first_block();
    let none = OrdMap::new();
    let lost = SyncManager::check_block(&block, 2, &Ok(None), &mut n, &none, 60_000);
    assert_eq!(lost, Err((Refusal::Unanchored, "Previous block not found".to_string())));
    let hash = block.header.hash(&mut n.argon2);
    let unsigned = SyncManager::check_block(&block, 1, &Ok(None), &mut n, &none, 60_000);
    assert_eq!(
        unsigned,
        Err((Refusal::Unsigned, "Missing block signature at height 1".to_string()))
    );
    block = signed(block, &hash);
    let sound = SyncManager::check_block(&block, 1, &Ok(None), &mut n, &none, 60_000);
    assert_eq!(sound, Ok(hash));
    let mut stale = block.clone();
    stale.header.prev_hash = [1; 32];
    let refused = SyncManager::check_block(&stale, 1, &Ok(None), &mut n, &none, 60_000);
    assert_eq!(
        refused,
        Err((Refusal::PrevHash, "Invalid prev_hash at height 1".to_string()))
    );
    let mut changed = block.clone();
    changed.transactions.clear();
    let refused = SyncManager::check_block(&changed, 1, &Ok(None), &mut n, &none, 60_000);
    assert_eq!(
        refused,
        Err((Refusal::MerkleRoot, "Invalid merkle root at height 1".to_string()))
    );
    let mut m = SyncManager::new();
    m.accept_block(&mut n, block.header, hash, 1);
    assert_eq!((n.height, n.blocks.len(), m.current_height()), (0, 1, 1));
    assert_eq!(n.block_hashes.get(&hash), Some(&1));
    assert_eq!(SyncManager::compute_merkle_root(&block.transactions), block.header.merkle_root);
    assert_eq!(n.argon2.stats().1, 1);
}

#[test]
fn a_batch_is_taken_in_up_to_its_first_fault() {
    let mut n = node();
    let block = first_block();
    let hash = block.header.hash(&mut n.argon2);
    let good = signed(block, &hash);
    let batch = vec![good.clone(), good.clone()];
    let mut m = SyncManager::new();
    let (ops, outcome) =
        m.verify_and_accept_blocks(&batch, &mut n, Ok(None), OrdMap::new(), 60_000);
    assert_eq!(outcome, Err("Invalid prev_hash at height 2".to_string()));
    assert_eq!((m.current_height(), n.blocks.len(), n.height), (1, 1, 0));
    assert_eq!(n.block_hashes.get(&hash), Some(&1));
    assert_eq!(m.local_hashes.get(&hash), Some(&1));
    assert_eq!(ops.len(), 2);
    assert!(matches!(ops[0], StoreOp::SaveBlock(1)));
    assert!(matches!(&ops[1], StoreOp::SaveUtxo(_, o) if o.value == 500_000));
    let (ops, outcome) =
        m.verify_and_accept_blocks(&[], &mut n, Ok(None), OrdMap::new(), 60_000);
    assert_eq!((ops.len(), outcome), (0, Ok(1)));
    let (ops, outcome) =
        m.verify_and_accept_blocks(&[good], &mut n, Ok(None), OrdMap::new(), 60_000);
    assert_eq!((ops.len(), outcome), (0, Err("Previous block not found".to_string())));
    assert_eq!(n.argon2.stats().1, 1);
}

#[test]
fn a_block_has_to_meet_its_target_and_its_reward() {
    let mut n = node();
    let transactions = vec![coinbase(500_001)];
    let mut h = header(50_000);
    h.merkle_root = root_of_transactions(&transactions);
    let block = Block { header: h, transactions, signature: None, pubkey: None };
    let greedy = SyncManager::check_block(&block, 1, &Ok(None), &mut n, &OrdMap::new(), 60_000);
    assert_eq!(
        greedy,
        Err((Refusal::Coinbase, "Coinbase 500001 exceeds max reward 500000".to_string()))
    );
    assert_eq!(n.argon2.stats().1, 1);
}

#[test]
fn work_below_no_target() {
    let mut n = node();
    let mut block = first_block();
    block.header.difficulty = Target([0; 32]);
    let weak = SyncManager::check_block(&block, 1, &Ok(None), &mut n, &OrdMap::new(), 60_000);
    assert_eq!(
        weak,
        Err((
            Refusal::ProofOfWork,
            "Block hash doesn't meet difficulty at height 1".to_string()
        ))
    );
    assert_eq!(n.argon2.stats().1, 1);
}
