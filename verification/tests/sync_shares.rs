use accum::block::BlockHeader;
use accum::miner::{Share, SharePool};
use accum::sync_shares::{EpochCommit, ShareResyncResponse, ShareSyncManager, SyncStatus};
use accum::types::Target;

fn share(nonce: u64, epoch: u32) -> Share {
    let header = BlockHeader {
        version: 1,
        prev_hash: [0; 32],
        merkle_root: [0; 32],
        timestamp: 5,
        difficulty: Target([0xFF; 32]),
        nonce: 0,
        epoch_index: epoch,
    };
    Share::new_at([1; 20], header, nonce, [2; 32], 5)
}

#[test]
fn test_epoch_commit() {
    let peer_id = [1u8; 32];
    let root = [2u8; 32];
    let commit = EpochCommit::new(1, root, peer_id);

    assert!(commit.is_valid(1));
    assert!(!commit.is_valid(2));
}

#[test]
fn test_consensus() {
    let mut manager = ShareSyncManager::new();

    for i in 0..5 {
        let mut peer_id = [0u8; 32];
        peer_id[0] = i;
        let commit = EpochCommit::new(1, [1u8; 32], peer_id);
        manager.process_commit(commit).unwrap();
    }

    for i in 5..7 {
        let mut peer_id = [0u8; 32];
        peer_id[0] = i;
        let commit = EpochCommit::new(1, [2u8; 32], peer_id);
        manager.process_commit(commit).unwrap();
    }

    assert_eq!(manager.get_consensus_root(), Some([1u8; 32]));
}

#[test]
fn a_peer_has_one_vote() {
    let mut manager = ShareSyncManager::new();
    for _ in 0..5 {
        manager.process_commit(EpochCommit::new(1, [1; 32], [9; 32])).unwrap();
    }
    assert_eq!(manager.get_consensus_root(), None);
    for i in 0..4 {
        manager.process_commit(EpochCommit::new(1, [1; 32], [i; 32])).unwrap();
    }
    assert_eq!(manager.get_consensus_root(), Some([1; 32]));
    manager.process_commit(EpochCommit::new(1, [2; 32], [9; 32])).unwrap();
    assert_eq!(manager.get_consensus_root(), None);
}

#[test]
fn the_same_shares_again_are_none() {
    let mut manager = ShareSyncManager::new();
    manager.attach_share_pool(SharePool::new_at(1, 10));
    let response = || ShareResyncResponse {
        epoch: 1,
        shares: vec![share(3, 1), share(1, 1), share(3, 1), share(2, 1)],
        total: 4,
        next_offset: 0,
    };
    let fresh = manager.process_resync_response(response()).unwrap();
    assert_eq!(fresh, vec![share(3, 1), share(1, 1), share(2, 1)]);
    assert_eq!(manager.process_resync_response(response()).unwrap(), vec![]);
}

#[test]
fn commits_age() {
    let commit = EpochCommit::new_at(1, [2; 32], [1; 32], 1000);
    assert!(commit.is_valid_at(1, 4599));
    assert!(!commit.is_valid_at(1, 4600));
    assert!(commit.is_valid_at(1, 900));
}

#[test]
fn each_status() {
    let mut manager = ShareSyncManager::new();
    let none = manager.process_commit_at(EpochCommit::new_at(1, [7; 32], [1; 32], 10), 10);
    assert_eq!(none.unwrap(), SyncStatus::NoLocalShares);
    assert_eq!(manager.get_consensus_root(), None);

    manager.attach_share_pool(SharePool::new_at(1, 10));
    let local = manager.local_root().unwrap();
    assert_eq!(local, [0; 32]);
    let same = manager.process_commit_at(EpochCommit::new_at(1, local, [2; 32], 10), 10);
    assert_eq!(same.unwrap(), SyncStatus::InSync);
    let apart = manager.process_commit_at(EpochCommit::new_at(1, [7; 32], [3; 32], 10), 10);
    assert_eq!(apart.unwrap(), SyncStatus::NoConsensus);
    for i in 4..7 {
        let c = EpochCommit::new_at(1, [7; 32], [i; 32], 10);
        manager.process_commit_at(c, 10).unwrap();
    }
    let needs = manager.process_commit_at(EpochCommit::new_at(1, [7; 32], [9; 32], 10), 10);
    assert_eq!(needs.unwrap(), SyncStatus::NeedsResync([7; 32]));
    for i in 20..26 {
        manager.process_commit_at(EpochCommit::new_at(1, local, [i; 32], 10), 10).unwrap();
    }
    let minority = EpochCommit::new_at(1, [8; 32], [30; 32], 10);
    let out = manager.process_commit_at(minority, 10);
    assert_eq!(out.unwrap(), SyncStatus::PeerOutOfSync);
    let banned = manager.process_commit_at(minority, 3609);
    assert_eq!(banned.unwrap(), SyncStatus::PeerBanned);
    let later = manager.process_commit_at(minority, 3610);
    assert_eq!(later.unwrap(), SyncStatus::PeerOutOfSync);
}

#[test]
fn shares_that_were_asked_for() {
    let mut manager = ShareSyncManager::new();
    let request = manager.create_resync_request(3);
    assert_eq!((request.epoch, request.offset, request.limit), (3, 0, 500));
    let empty = ShareResyncResponse { epoch: 1, shares: vec![share(1, 1)], total: 1, next_offset: 0 };
    assert_eq!(manager.process_resync_response(empty).unwrap().len(), 0);
    manager.attach_share_pool(SharePool::new_at(1, 10));
    let list = vec![share(1, 1), share(2, 1), share(1, 1)];
    let response = ShareResyncResponse { epoch: 1, shares: list, total: 3, next_offset: 0 };
    let fresh = manager.process_resync_response(response).unwrap();
    assert_eq!(fresh, vec![share(1, 1), share(2, 1)]);
    let wrong = ShareResyncResponse { epoch: 1, shares: vec![share(1, 9)], total: 1, next_offset: 0 };
    let refused = manager.process_resync_response(wrong).unwrap_err();
    assert_eq!(refused.message(), "Share error: Wrong epoch");
}

#[test]
fn a_new_epoch_forgets_roots_and_old_bans() {
    let mut manager = ShareSyncManager::new();
    manager.banned_peers.insert([1; 32], 100);
    manager.banned_peers.insert([2; 32], 500_000);
    manager.process_commit_at(EpochCommit::new_at(1, [7; 32], [3; 32], 10), 10).unwrap();
    manager.new_epoch_at(2, 86_500);
    assert_eq!(manager.current_epoch, 2);
    assert_eq!(manager.get_consensus_root(), None);
    assert_eq!(manager.peer_commits.len(), 0);
    assert!(!manager.banned_peers.contains_key(&[1; 32]));
    assert!(manager.banned_peers.contains_key(&[2; 32]));
}
