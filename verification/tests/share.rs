use accum::block::BlockHeader;
use accum::share::{
    hash_below_target, EpochShares, InvalidShareMonitor, MinerStatus, PeerRateLimiter,
    RateLimitError, ShareError, SharePacket,
};
use accum::types::Target;
use accum::wallet::Wallet;

/// The work of `first_header` with nonce 7, computed with the `argon2` crate alone.
const WORK_OF_SEVEN: [u8; 32] = [
    23, 3, 193, 211, 98, 156, 235, 20, 51, 79, 2, 100, 124, 187, 101, 178, 211, 4, 22, 92, 193, 24,
    191, 212, 180, 28, 81, 68, 159, 27, 138, 195,
];

fn first_header() -> BlockHeader {
    BlockHeader {
        version: 1,
        prev_hash: [0u8; 32],
        merkle_root: [0u8; 32],
        timestamp: 1741353600,
        difficulty: Target([0xFF; 32]),
        nonce: 0,
        epoch_index: 1,
    }
}

#[test]
fn test_target_shift() {
    let mut bytes = [0u8; 32];
    bytes[0] = 0xFF;
    bytes[1] = 0xFF;
    bytes[2] = 0xFF;
    bytes[3] = 0xFF;

    let target = Target(bytes);
    let shifted = target.shift_left(8);

    assert_eq!(shifted.0[0], 0xFF);
    assert_eq!(shifted.0[1], 0xFF);
    assert_eq!(shifted.0[2], 0xFF);
    assert_eq!(shifted.0[3], 0x00);
}

#[test]
fn test_share_roundtrip() {
    let pubkey = [2u8; 33];
    let miner_id = Wallet::miner_id_from_pubkey(&pubkey);

    let header = BlockHeader {
        version: 1,
        prev_hash: [0u8; 32],
        merkle_root: [0u8; 32],
        timestamp: 1741353600,
        difficulty: Target([0xFF; 32]),
        nonce: 0,
        epoch_index: 1,
    };

    let share = SharePacket::new(miner_id, header, 12345);
    assert!(share.roundtrip_test().is_ok());
}

#[test]
fn test_epoch_shares_limit() {
    let mut epoch_shares = EpochShares::new();
    let miner_id = [1u8; 20];
    let header = BlockHeader {
        version: 1,
        prev_hash: [0u8; 32],
        merkle_root: [0u8; 32],
        timestamp: 1741353600,
        difficulty: Target([0xFF; 32]),
        nonce: 0,
        epoch_index: 1,
    };

    // The hash of a share plays no part in the limit: one computation serves for all.
    let first = SharePacket::new(miner_id, header.clone(), 0);

    // Add 5000 shares (limit)
    for i in 0..5000 {
        let share = SharePacket { nonce: i as u64, ..first };
        assert!(epoch_shares.add_share(share).is_ok());
    }

    // 5001st should fail
    let share = SharePacket { nonce: 5000, ..first };
    assert!(matches!(epoch_shares.add_share(share), Err(ShareError::TooManyShares)));
}

#[test]
fn test_invalid_share_monitor() {
    let mut monitor = InvalidShareMonitor::new();
    let miner_id = [1u8; 20];
    let epoch = 1;

    // 10% invalid - should warn
    for _ in 0..9 {
        assert!(monitor.record_share(miner_id, true, epoch).is_none());
    }
    let status = monitor.record_share(miner_id, false, epoch);
    assert_eq!(status, Some(MinerStatus::Warning));

    // 30% invalid - should ban
    for _ in 0..20 {
        monitor.record_share(miner_id, false, epoch);
    }
    let status = monitor.record_share(miner_id, false, epoch);
    assert_eq!(status, Some(MinerStatus::Banned));
}

#[test]
fn a_new_epoch_begins_the_counts_again() {
    let mut monitor = InvalidShareMonitor::new();
    assert_eq!(monitor.record_share([1; 20], false, 1), Some(MinerStatus::Banned));
    assert_eq!(monitor.record_share([1; 20], true, 2), None);
}

#[test]
fn equal_hashes_are_below() {
    assert!(hash_below_target(&[5; 32], &[5; 32]));
    assert!(hash_below_target(&[4; 32], &[5; 32]));
    assert!(!hash_below_target(&[6; 32], &[5; 32]));
}

#[test]
fn packets_are_written_and_read() {
    let share = SharePacket { miner_id: [3; 20], header: first_header(), nonce: 0x0102, hash: [9; 32] };
    let bytes = share.serialize();
    assert_eq!(bytes.len(), 180);
    assert_eq!(&bytes[0..20], &[3u8; 20]);
    assert_eq!(&bytes[20..24], &[1, 0, 0, 0]);
    assert_eq!(&bytes[140..148], &[2, 1, 0, 0, 0, 0, 0, 0]);
    assert_eq!(&bytes[148..180], &[9u8; 32]);
    assert_eq!(SharePacket::deserialize(&bytes).unwrap(), share);
    assert!(matches!(SharePacket::deserialize(&bytes[1..]), Err(ShareError::InvalidLength)));
}

#[test]
fn faults_that_cost_no_work() {
    let pubkey = [2u8; 33];
    let miner_id = Wallet::miner_id_from_pubkey(&pubkey);
    let share = SharePacket { miner_id, header: first_header(), nonce: 7, hash: [0; 32] };
    let all = Target([0xFF; 32]);
    assert_eq!(share.validate(&all, &[1; 32], &pubkey), Err(ShareError::StalePrevHash));
    assert_eq!(share.validate(&all, &[0; 32], &[3; 33]), Err(ShareError::InvalidMinerId));
    assert_eq!(
        share.validate(&Target([0; 32]), &[0; 32], &pubkey),
        Err(ShareError::PrefilterRejected)
    );
}

#[test]
fn a_packet_carries_the_hash_of_its_work() {
    let pubkey = [2u8; 33];
    let miner_id = Wallet::miner_id_from_pubkey(&pubkey);
    let share = SharePacket { miner_id, header: first_header(), nonce: 7, hash: [0; 32] };
    let all = Target([0xFF; 32]);
    assert_eq!(share.validate(&all, &[0; 32], &pubkey), Err(ShareError::InvalidHash));
}

#[test]
fn a_packet_with_its_hash_is_accepted() {
    let pubkey = [2u8; 33];
    let miner_id = Wallet::miner_id_from_pubkey(&pubkey);
    let share = SharePacket { miner_id, header: first_header(), nonce: 7, hash: WORK_OF_SEVEN };
    let all = Target([0xFF; 32]);
    assert_eq!(share.validate(&all, &[0; 32], &pubkey), Ok(()));
}

#[test]
fn known_shares_are_not_taken_twice() {
    let mut shares = EpochShares::new();
    let share = SharePacket { miner_id: [3; 20], header: first_header(), nonce: 1, hash: [9; 32] };
    assert!(!shares.has_share(&share));
    assert_eq!(shares.calculate_merkle_root(), [0; 32]);
    shares.add_share(share).unwrap();
    assert!(shares.has_share(&share));
    shares.add_share(share).unwrap();
    assert_eq!(shares.total_shares(), 1);
    assert_eq!(shares.miner_share_count(&[3; 20]), 1);
    assert_eq!(shares.miner_share_count(&[4; 20]), 0);
    assert_eq!(shares.miners(), vec![[3; 20]]);
    assert_eq!(shares.get_miner_shares(&[3; 20]).unwrap().len(), 1);
    assert_eq!(shares.calculate_merkle_root(), share.share_hash());
    shares.clear();
    assert_eq!(shares.total_shares(), 0);
    assert!(!shares.has_share(&share));
}

#[test]
fn a_hundred_shares_a_minute() {
    let mut limiter = PeerRateLimiter::new();
    let peer = [1u8; 32];
    for i in 0..100u64 {
        assert!(limiter.check_rate_at(peer, i).is_ok());
    }
    assert_eq!(limiter.check_rate_at(peer, 100), Err(RateLimitError::RateExceeded));
    assert_eq!(limiter.check_rate_at(peer, 1_000_000_000), Err(RateLimitError::Banned));
    assert_eq!(limiter.check_rate_at(peer, 299_999_999_999), Err(RateLimitError::Banned));
    assert!(limiter.check_rate_at(peer, 300_000_000_100).is_ok());
    assert!(limiter.check_rate([2u8; 32]).is_ok());
    assert_eq!(RateLimitError::Banned.message(), "Peer banned for 5 minutes");
    assert_eq!(ShareError::TooManyShares.message(), "Too many shares per miner (max 5000)");
}
