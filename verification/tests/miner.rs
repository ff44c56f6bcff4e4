use accum::block::BlockHeader;
use accum::crypto::Argon2Cache;
use accum::miner::{
    AggregatedShare, AggregatedSharePool, InvalidRatio, LoyaltyData, MinerData, Share, SharePool,
};
use accum::types::Target;
use accum::wallet::Wallet;
use sha2::Digest;

fn header(epoch: u32) -> BlockHeader {
    BlockHeader {
        version: 1,
        prev_hash: [0; 32],
        merkle_root: [0; 32],
        timestamp: 5,
        difficulty: Target([0xFF; 32]),
        nonce: 0,
        epoch_index: epoch,
    }
}

fn share(miner: u8, nonce: u64) -> Share {
    Share::new_at([miner; 20], header(1), nonce, [2; 32], 10_000)
}

fn wallet() -> Wallet {
    let mut key = vec![0u8; 32];
    key[31] = 5;
    Wallet::from_secret_key(&key).unwrap()
}

fn own_shares() -> Vec<Share> {
    let id = wallet().miner_id;
    vec![
        Share::new_at(id, header(1), 1, [2; 32], 5),
        Share::new_at(id, header(1), 2, [2; 32], 5),
    ]
}

/// An aggregate whose signature is over the digest of the stated digest.
fn accepted_aggregate() -> AggregatedShare {
    let mut agg = AggregatedShare::aggregate_at(&own_shares(), &wallet(), 1, 9).unwrap();
    let mut data = agg.miner_id.to_vec();
    data.extend_from_slice(&2u32.to_le_bytes());
    data.extend_from_slice(&agg.merkle_root);
    data.extend_from_slice(&1u32.to_le_bytes());
    data.extend_from_slice(&9u64.to_le_bytes());
    let once = sha2::Sha256::digest(&data);
    let twice: [u8; 32] = sha2::Sha256::digest(&once).into();
    agg.signature = wallet().sign(&twice).unwrap();
    agg
}

#[test]
fn loyalty_grows_and_fades() {
    let mut l = LoyaltyData::new();
    for epoch in 1..=10 {
        l.update(epoch, true);
    }
    assert_eq!((l.value, l.consecutive_epochs, l.grace_remaining), (10, 10, 3));
    l.update(10, false);
    assert_eq!(l.value, 10);
    l.update(11, false);
    assert_eq!((l.value, l.missed_epochs, l.grace_remaining), (5, 1, 2));
    l.update(13, false);
    assert_eq!((l.value, l.missed_epochs, l.grace_remaining), (1, 3, 1));
    assert!(l.is_active());
    l.update(16, false);
    assert_eq!(l.missed_epochs, 6);
    assert!(!l.is_active());
    assert_eq!(l.get_loyalty_score(), 0);
}

#[test]
fn loyalty_outside_the_grace_period() {
    let mut l = LoyaltyData {
        value: 100,
        last_epoch: 4,
        missed_epochs: 0,
        consecutive_epochs: 4,
        grace_remaining: 0,
    };
    l.update(7, true);
    assert_eq!((l.value, l.missed_epochs, l.consecutive_epochs), (50, 0, 5));
}

#[test]
fn invalid_work_bans() {
    let mut m = MinerData::new([1; 20], 5, 2, 1_000);
    assert_eq!((m.bond, m.last_epoch, m.first_seen), (5, 2, 1_000));
    m.update_invalid_ratio(InvalidRatio { invalid: 1, total: 10 }, 1_000);
    assert_eq!(m.banned_until, None);
    m.update_invalid_ratio(InvalidRatio { invalid: 2, total: 10 }, 1_000);
    assert_eq!(m.banned_until, Some(1_300));
    m.update_invalid_ratio(InvalidRatio { invalid: 4, total: 10 }, 1_000);
    assert_eq!(m.banned_until, Some(1_900));
    assert!(m.is_banned(1_899));
    assert!(!m.is_banned(1_900));
}

#[test]
fn records_of_work() {
    let mut m = MinerData::new([1; 20], 5, 2, 1_000);
    m.add_share(1_001);
    m.add_block(77);
    assert_eq!((m.shares, m.total_shares_historical, m.last_share_time), (1, 1, 1_001));
    assert_eq!((m.blocks_found, m.total_rewards), (1, 77));
    assert!(m.can_add_share());
    m.shares = 5_000;
    assert!(!m.can_add_share());
}

#[test]
fn faults_of_a_share_before_its_work() {
    let mut cache = Argon2Cache::new(1);
    let s = share(1, 1);
    let all = Target([0xFF; 32]);
    let none = Target([0; 32]);
    assert_eq!(s.validate(&all, &[1; 32], 1, 10_000, &mut cache), Err("Stale prev_hash"));
    assert_eq!(s.validate(&all, &[0; 32], 2, 10_000, &mut cache), Err("Wrong epoch"));
    assert_eq!(s.validate(&all, &[0; 32], 1, 17_201, &mut cache), Err("Share too old"));
    assert_eq!(s.validate(&all, &[0; 32], 1, 2_799, &mut cache), Err("Share too far in future"));
    assert_eq!(s.validate(&none, &[0; 32], 1, 10_000, &mut cache), Err("Prefilter rejected"));
    assert_eq!(cache.stats().1, 0);
}

#[test]
fn a_share_carries_its_work() {
    let mut cache = Argon2Cache::new(1);
    let all = Target([0xFF; 32]);
    let mut s = share(1, 1);
    assert_eq!(s.validate(&all, &[0; 32], 1, 10_000, &mut cache), Err("Hash mismatch"));
    s.hash = s.header.hash_with_nonce(s.nonce, &mut cache);
    assert_eq!(s.validate(&all, &[0; 32], 1, 10_000, &mut cache), Ok(()));
    assert_eq!(cache.stats().1, 1);
}

#[test]
fn digests_of_shares() {
    let s = share(1, 2);
    let mut data = vec![1u8; 20];
    data.extend_from_slice(&s.header.to_bytes());
    data.extend_from_slice(&2u64.to_le_bytes());
    data.extend_from_slice(&[2; 32]);
    let expected: [u8; 32] = sha2::Sha256::digest(&data).into();
    assert_eq!(s.share_hash(), expected);
}

#[test]
fn aggregates_are_made_and_checked() {
    let shares = own_shares();
    let agg = AggregatedShare::aggregate_at(&shares, &wallet(), 1, 9).unwrap();
    assert_eq!((agg.share_count, agg.epoch, agg.timestamp), (2, 1, 9));
    assert_eq!(agg.size_bytes(), 165);
    assert_eq!(agg.verify(&shares), Ok(false));
    let good = accepted_aggregate();
    assert_eq!(good.verify(&shares), Ok(true));
    assert_eq!(good.verify(&shares[0..1]), Ok(false));
    let none = AggregatedShare::aggregate_at(&[], &wallet(), 1, 9).unwrap_err();
    assert_eq!(none, "No shares to aggregate");
    let mixed = AggregatedShare::aggregate_at(&[share(1, 1), share(2, 1)], &wallet(), 1, 9);
    assert_eq!(mixed.unwrap_err(), "Shares from different miners");
}

#[test]
fn a_root_is_taken_once() {
    let mut pool = AggregatedSharePool::new(3);
    let id = wallet().miner_id;
    assert_eq!(pool.add_aggregate(accepted_aggregate(), &own_shares()), Ok(true));
    assert_eq!(pool.add_aggregate(accepted_aggregate(), &own_shares()), Ok(false));
    assert_eq!(pool.get_share_count(&id), 2);
    assert_eq!((pool.active_miners(), pool.total_shares()), (1, 2));
    pool.new_epoch();
    assert_eq!((pool.active_miners(), pool.total_shares()), (0, 0));
    let mut closed = AggregatedSharePool::new(0);
    assert_eq!(closed.add_aggregate(accepted_aggregate(), &own_shares()), Ok(true));
    assert_eq!(closed.active_miners(), 0);
}

#[test]
fn pools_count_shares() {
    let mut pool = SharePool::new_at(1, 10);
    assert_eq!(pool.add_share(share(1, 1), true), Ok(true));
    assert!(pool.has_share(&share(1, 1).share_hash()));
    let again = pool.add_share(share(1, 1), true);
    assert_ne!(again, Ok(true));
    assert_eq!(pool.add_share(share(2, 1), true), Ok(true));
    let invalid = pool.add_share(share(2, 2), false);
    assert_ne!(invalid, Ok(true));
    assert_eq!(pool.get_shares(&[1; 20]), 1);
    assert_eq!((pool.total_shares_count(), pool.active_miners_count()), (2, 2));
    let ratio = pool.invalid_ratio(&[2; 20]);
    assert_eq!((ratio.invalid, ratio.total), (1, 2));
    let mut late = share(1, 3);
    late.header.epoch_index = 2;
    assert_eq!(pool.add_share(late, true), Err("Wrong epoch"));
    assert_eq!(pool.miners(), vec![[1; 20], [2; 20]]);
    pool.new_epoch_at(20);
    assert_eq!((pool.current_epoch, pool.created_at), (2, 20));
    assert_eq!(pool.total_shares_count(), 0);
    assert_eq!(pool.calculate_merkle_root(), [0; 32]);
    assert_eq!(pool.add_share(late, true), Ok(true));
    assert_eq!(pool.calculate_merkle_root(), late.share_hash());
}

#[test]
fn a_full_pool_makes_room() {
    let mut pool = SharePool::new_at(0, 10);
    assert_eq!(pool.add_share(share(1, 1), true), Ok(true));
    assert_eq!(pool.add_share(share(1, 2), true), Ok(true));
    assert_eq!(pool.total_shares_count(), 1);
    assert!(!pool.has_share(&share(1, 1).share_hash()));
    assert!(pool.has_share(&share(1, 2).share_hash()));
}
