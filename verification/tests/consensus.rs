use accum::block::{Block, BlockHeader, Transaction};
use accum::collections::OrdMap;
use accum::consensus::{
    calculate_poci, isqrt, EquivocationProof, SlashEvidence, SlashingPool,
};
use accum::crypto::Argon2Cache;
use accum::miner::{LoyaltyData, MinerData};
use accum::storage::Bond;
use accum::types::Target;
use accum::wallet::Wallet;

fn header() -> BlockHeader {
    BlockHeader {
        version: 1,
        prev_hash: [0; 32],
        merkle_root: [0; 32],
        timestamp: 5,
        difficulty: Target([0xFF; 32]),
        nonce: 0,
        epoch_index: 1,
    }
}

fn block() -> Block {
    Block { header: header(), transactions: vec![], signature: None, pubkey: None }
}

fn charge(miner: u8) -> EquivocationProof {
    EquivocationProof {
        miner_id: [miner; 20],
        block_height: 3,
        block_hash_1: [1; 32],
        block_hash_2: [2; 32],
        signature_1: vec![],
        signature_2: vec![],
        timestamp: 5,
        proven: false,
    }
}

#[test]
fn square_roots() {
    assert_eq!(isqrt(0), 0);
    assert_eq!(isqrt(15), 3);
    assert_eq!(isqrt(16), 4);
    assert_eq!(isqrt(10_000_000), 3_162);
    assert_eq!(isqrt(u64::MAX), 4_294_967_295);
}

#[test]
fn rewards_follow_the_index() {
    let (a, b) = ([1u8; 20], [2u8; 20]);
    let mut miners: OrdMap<[u8; 20], MinerData> = OrdMap::new();
    let mut first = MinerData::new(a, 0, 1, 0);
    first.shares = 16;
    let mut second = MinerData::new(b, 0, 1, 0);
    second.shares = 4;
    miners.insert(a, first);
    miners.insert(b, second);
    let mut bonds: OrdMap<[u8; 20], Bond> = OrdMap::new();
    bonds.insert(a, Bond::new(10_000_000, 0, a));
    let mut loyalty: OrdMap<[u8; 20], LoyaltyData> = OrdMap::new();
    let mut steady = LoyaltyData::new();
    steady.value = 4;
    loyalty.insert(a, steady);
    steady.value = 2;
    loyalty.insert(b, steady);

    let r = calculate_poci(&miners, &bonds, &loyalty, 10);
    assert_eq!(r.len(), 2);
    assert_eq!((r[0].miner_id, r[0].poci, r[0].reward), (a, 1_000_000_000, 514_285_714));
    assert_eq!((r[0].shares, r[0].loyalty, r[0].bond), (16, 4, 10_000_000));
    assert_eq!((r[1].miner_id, r[1].poci, r[1].reward), (b, 400_000_000, 205_714_285));
    assert!(r[0].reward + r[1].reward <= 720_000_000);

    let expired = calculate_poci(&miners, &bonds, &loyalty, 20_160);
    assert_eq!(expired[0].poci, 800_000_000);
}

#[test]
fn nobody_works_and_nobody_is_paid() {
    let mut miners: OrdMap<[u8; 20], MinerData> = OrdMap::new();
    let none = calculate_poci(&miners, &OrdMap::new(), &OrdMap::new(), 1);
    assert_eq!(none.len(), 0);
    miners.insert([1; 20], MinerData::new([1; 20], 0, 1, 0));
    let idle = calculate_poci(&miners, &OrdMap::new(), &OrdMap::new(), 1);
    assert_eq!((idle[0].poci, idle[0].reward), (0, 0));
}

#[test]
fn blocks_that_are_missing() {
    let mut cache = Argon2Cache::new(1);
    let proof = charge(1);
    let missing = proof.verify(&Ok(None), &Ok(None), &mut cache);
    assert_eq!(missing, Err("Block 1 not found".to_string()));
    let failed = proof.verify(&Err("disk".to_string()), &Ok(None), &mut cache);
    assert_eq!(failed, Err("disk".to_string()));
    let second = proof.verify(&Ok(Some(block())), &Ok(None), &mut cache);
    assert_eq!(second, Err("Block 2 not found".to_string()));
    assert_eq!(proof.block_height_2(), 3);
    assert_eq!(cache.stats().1, 0);
}

#[test]
fn one_block_twice_convicts_nobody() {
    let mut cache = Argon2Cache::new(1);
    let proof = charge(1);
    let verdict = proof.verify(&Ok(Some(block())), &Ok(Some(block())), &mut cache);
    assert_eq!(verdict, Ok(false));
    assert_eq!(cache.stats().1, 1);
}

#[test]
fn miners_of_blocks() {
    let mut key = vec![0u8; 32];
    key[31] = 5;
    let wallet = Wallet::from_secret_key(&key).unwrap();
    let mut b = block();
    let words = EquivocationProof::extract_miner_id_from_block(&b).unwrap_err();
    assert_eq!(words, "Cannot extract miner_id from block");
    b.pubkey = Some(wallet.public_key.clone());
    assert_eq!(EquivocationProof::extract_miner_id_from_block(&b), Ok(wallet.miner_id));
    b.transactions.push(Transaction::coinbase(vec![], 1));
    assert_eq!(EquivocationProof::extract_miner_id_from_block(&b), Ok(wallet.miner_id));
}

#[test]
fn slashing_takes_the_bond() {
    let proof = charge(1);
    let bond = Bond::new(10_000_001, 0, [1; 20]);
    let record = proof.execute_slash(&Ok(Some(bond)), 9, 77, vec![4]).unwrap();
    assert_eq!((record.miner_id, record.height, record.timestamp), ([1; 20], 9, 77));
    assert_eq!(record.proof, vec![4]);
    let words = proof.execute_slash(&Ok(None), 9, 77, vec![]).unwrap_err();
    assert_eq!(words, "No bond found for miner");
    assert!(proof.execute_slash(&Err("disk".to_string()), 9, 77, vec![]).is_err());
}

#[test]
fn charges_wait_for_their_evidence() {
    let mut cache = Argon2Cache::new(1);
    let mut pool = SlashingPool::new();
    pool.add_proof(charge(1));
    assert_eq!(pool.pending_slashes.len(), 1);
    let evidence = vec![SlashEvidence {
        found_1: Ok(None),
        found_2: Ok(None),
        bond: Ok(None),
        written: vec![],
    }];
    let (records, outcome) = pool.process_all(&evidence, &mut cache, 10, 5);
    assert_eq!(records.len(), 0);
    assert_eq!(outcome, Err("Block 1 not found".to_string()));
    assert!(!pool.is_slashed(&[1; 20]));
}

#[test]
fn a_miner_is_slashed_once() {
    let mut pool = SlashingPool::new();
    pool.processed_slashes.insert([1; 20]);
    assert!(pool.is_slashed(&[1; 20]));
    pool.add_proof(charge(1));
    assert_eq!(pool.pending_slashes.len(), 0);
    pool.add_proof(charge(2));
    let mut cache = Argon2Cache::new(1);
    pool.processed_slashes.insert([2; 20]);
    let evidence = vec![SlashEvidence {
        found_1: Ok(None),
        found_2: Ok(None),
        bond: Ok(None),
        written: vec![],
    }];
    let (records, outcome) = pool.process_all(&evidence, &mut cache, 10, 5);
    assert_eq!((records.len(), outcome), (0, Ok(())));
    assert_eq!((pool.pending_slashes.len(), pool.slash_height), (0, 10));
}
