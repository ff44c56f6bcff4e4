use accum::block::{Block, BlockHeader, Transaction, TxIn, TxOut, UtxoLookups};
use accum::collections::OrdMap;
use accum::p2p::{
    frame_length, frame_message, root_of_transactions, validate_block_coinbase,
    validate_block_no_double_spend, P2PMessage, P2PNode, PeerAction, PeerConnection, Receipt,
    SyncManager, SyncPeer, SyncStatus, SyncStep,
};
use accum::types::Target;

fn header() -> BlockHeader {
    BlockHeader {
        version: 1,
        prev_hash: [0; 32],
        merkle_root: [0; 32],
        timestamp: 5,
        difficulty: Target([0xFF; 32]),
        nonce: 0,
        epoch_index: 1,
    }
}

fn output(value: u64) -> TxOut {
    TxOut { value, script_pubkey: vec![] }
}

fn block(transactions: Vec<Transaction>) -> Block {
    Block { header: header(), transactions, signature: None, pubkey: None }
}

fn spend(txid: u8, value: u64) -> Transaction {
    Transaction {
        version: 1,
        inputs: vec![TxIn { prev_txid: [txid; 32], prev_index: 0, script_sig: vec![], sequence: 0 }],
        outputs: vec![output(value)],
        locktime: 0,
    }
}

fn lookups() -> UtxoLookups {
    let mut m: UtxoLookups = OrdMap::new();
    m.insert(([1; 32], 0), Ok(output(1_000)));
    m
}

fn sync_peer(id: u8, height: u64, latency_ms: u64) -> SyncPeer {
    SyncPeer {
        peer_id: [id; 32],
        address: [id; 27],
        height,
        best_hash: [0; 32],
        latency_ms,
        last_sync_time: 0,
        retries: 0,
        banned: false,
    }
}

fn connected() -> P2PNode {
    let mut node = P2PNode::new(30333, vec![], 100);
    node.register_peer(PeerConnection::new([1; 32], [1; 27], 100));
    node
}

#[test]
fn what_a_block_may_pay() {
    let pays = |v: u64| block(vec![Transaction::coinbase(vec![output(v)], 1), spend(1, 900)]);
    assert_eq!(validate_block_coinbase(&pays(500_100), &lookups()), Ok(()));
    assert_eq!(
        validate_block_coinbase(&pays(500_101), &lookups()),
        Err("Coinbase 500101 exceeds max reward 500100".to_string())
    );
    assert_eq!(
        validate_block_coinbase(&block(vec![]), &lookups()),
        Err("Empty block".to_string())
    );
    assert_eq!(
        validate_block_coinbase(&block(vec![spend(1, 900)]), &lookups()),
        Err("First transaction is not coinbase".to_string())
    );
    let words = validate_block_coinbase(&pays(1), &OrdMap::new()).unwrap_err();
    assert!(words.starts_with("Fee error: "));
}

#[test]
fn an_output_is_spent_once() {
    let cb = Transaction::coinbase(vec![output(1)], 1);
    let good = block(vec![cb.clone(), spend(1, 5), spend(2, 5)]);
    assert_eq!(validate_block_no_double_spend(&good), Ok(()));
    let bad = block(vec![cb, spend(1, 5), spend(2, 5), spend(1, 6)]);
    let words = validate_block_no_double_spend(&bad).unwrap_err();
    assert!(words.contains(&format!("{:?}", ([1u8; 32], 0u32))));
}

#[test]
fn roots_of_blocks() {
    assert_eq!(root_of_transactions(&[]), [0; 32]);
    let tx = spend(1, 5);
    assert_eq!(root_of_transactions(&[tx.clone()]), tx.compute_txid());
}

#[test]
fn frames_announce_their_length() {
    let frame = frame_message(&[7; 258]).unwrap();
    assert_eq!(frame.len(), 262);
    let head = [frame[0], frame[1], frame[2], frame[3]];
    assert_eq!(frame_length(&head), 258);
    assert_eq!(&frame[4..], &[7; 258][..]);
    let most = accum::constants::MAX_MESSAGE_SIZE;
    assert!(frame_message(&vec![0; most]).is_ok());
    assert!(frame_message(&vec![0; most + 1]).is_err());
}

#[test]
fn a_thousand_messages_an_hour() {
    let mut peer = PeerConnection::new([1; 32], [2; 27], 0);
    for _ in 0..1_000 {
        assert!(peer.check_rate_limit(10));
    }
    assert!(!peer.check_rate_limit(10));
    assert!(peer.is_banned());
    assert_eq!(peer.ban_reason, Some("Rate limit exceeded".to_string()));
    peer.ban("again");
    assert_eq!(peer.ban_reason, Some("Rate limit exceeded".to_string()));
    assert!(peer.check_rate_limit(3_601));
}

#[test]
fn versions_and_silence() {
    let mut peer = PeerConnection::new([1; 32], [2; 27], 0);
    assert_eq!(peer.check_version(), Err("No version received"));
    peer.version = Some(2);
    assert_eq!(peer.check_version(), Err("Incompatible version"));
    peer.version = Some(1);
    assert_eq!(peer.check_version(), Ok(()));
    assert!(!peer.is_stale(300));
    assert!(peer.is_stale(301));
}

#[test]
fn messages_are_answered_or_dropped() {
    let mut peer = PeerConnection::new([1; 32], [2; 27], 0);
    assert!(matches!(peer.message_received(&P2PMessage::Heartbeat(9), 5), Receipt::Ponged(9)));
    peer.ping_with(4);
    assert!(matches!(peer.message_received(&P2PMessage::Pong(4), 6), Receipt::Delivered));
    assert_eq!(peer.ping_time, Some(6));
    let greedy = P2PMessage::GetBlocks { from_height: 1, max_count: 501 };
    assert!(matches!(peer.message_received(&greedy, 7), Receipt::Dropped));
    assert!(peer.is_banned());
    let mut other = PeerConnection::new([1; 32], [2; 27], 0);
    let version = P2PMessage::Version {
        version: 9,
        timestamp: 0,
        height: 0,
        best_hash: [0; 32],
        peer_id: [1; 32],
    };
    assert!(matches!(other.message_received(&version, 7), Receipt::Dropped));
    assert!(other.is_banned());
}

#[test]
fn the_best_peer_is_far_ahead_and_near() {
    let mut m = SyncManager::new();
    assert!(m.best_peer().is_none());
    assert_eq!(m.best_peer_height(), None);
    m.update_peer_at([1; 32], [1; 27], 100, [0; 32], 99, 5);
    m.update_peer_at([2; 32], [2; 27], 50, [0; 32], 9, 5);
    assert_eq!(m.best_peer().unwrap().peer_id, [2; 32]);
    assert_eq!(m.best_peer_height(), Some(100));
    assert_eq!(m.select_best_peer().unwrap(), ([2; 32], 50, 9));
    m.remove_peer(&[2; 32]);
    assert_eq!(m.best_peer().unwrap().peer_id, [1; 32]);
    assert!(m.needs_sync_at(5));
    assert!(m.needs_sync());
}

#[test]
fn a_synchronisation_from_start_to_end() {
    let mut m = SyncManager::new();
    m.update_peer_at([1; 32], [1; 27], 2, [0; 32], 9, 5);
    assert!(m.start_sync_at(sync_peer(1, 2, 9), 100));
    assert!(!m.start_sync_at(sync_peer(1, 2, 9), 100));
    assert!(m.is_syncing());
    assert_eq!(m.sync_fraction(), (0, 2));
    assert!(matches!(m.sync_step(101, 100), SyncStep::Wait));
    match m.sync_step(102, 100) {
        SyncStep::Request(id, from) => assert_eq!((id, from), ([1; 32], 1)),
        _ => panic!("nothing was asked for"),
    }
    let wrong = m.on_blocks_received_at(&[], &[9; 32], 103).unwrap_err();
    assert_eq!(wrong, "Wrong peer");
    assert_eq!(m.on_blocks_received_at(&[block(vec![])], &[1; 32], 103), Ok(1));
    assert_eq!(m.sync_fraction(), (1, 2));
    assert_eq!(m.current_height(), 1);
}

#[test]
fn late_peers_are_given_up() {
    let mut m = SyncManager::new();
    assert_eq!(m.on_blocks_received_at(&[], &[1; 32], 1).unwrap_err(), "No active sync session");
    m.update_peer_at([1; 32], [1; 27], 2, [0; 32], 9, 5);
    assert!(m.start_sync_at(sync_peer(1, 2, 9), 100));
    assert_eq!(m.check_timeouts_at(160), None);
    assert_eq!(m.check_timeouts_at(161), Some([1; 32]));
    assert!(!m.sync_in_progress);
    assert!(matches!(m.active_session.as_ref().unwrap().status, SyncStatus::Failed(_)));
    assert_eq!(m.check_timeouts_at(161), Some([1; 32]));
    assert_eq!(m.check_timeouts_at(161), Some([1; 32]));
    assert!(m.peers.get(&[1; 32]).unwrap().banned);
}

#[test]
fn requests_for_blocks() {
    let mut m = SyncManager::new();
    let ask = |m: &mut SyncManager, from: u64| m.request_blocks_from_peer_at(&[1; 32], from, 10);
    assert_eq!(ask(&mut m, 1).unwrap_err(), "Peer not found in sync manager");
    m.update_peer_at([1; 32], [1; 27], 700, [0; 32], 9, 5);
    assert_eq!(ask(&mut m, 1), Ok(500));
    assert_eq!(ask(&mut m, 301), Ok(400));
    assert_eq!(ask(&mut m, 701).unwrap_err(), "No blocks to request");
    m.retry_count.insert([1; 32], 3);
    assert_eq!(ask(&mut m, 1).unwrap_err(), "Peer has too many retries");
    m.sync_in_progress = true;
    m.last_request_time = 6;
    assert_eq!(ask(&mut m, 1).unwrap_err(), "Too frequent requests");
    let mut banned = sync_peer(1, 700, 9);
    banned.banned = true;
    m.peers.insert([1; 32], banned);
    assert_eq!(ask(&mut m, 1).unwrap_err(), "Peer is banned");
}

#[test]
fn a_node_handles_messages() {
    let mut node = connected();
    let addr = [1u8; 27];
    match node.handle_message(P2PMessage::Ping(3), addr, 101) {
        PeerAction::Reply(P2PMessage::Pong(n)) => assert_eq!(n, 3),
        _ => panic!("no pong"),
    }
    let version = P2PMessage::Version {
        version: 1,
        timestamp: 99,
        height: 8,
        best_hash: [4; 32],
        peer_id: [1; 32],
    };
    let reply = node.handle_message(version, addr, 101);
    assert!(matches!(reply, PeerAction::Reply(P2PMessage::Verack)));
    assert_eq!(node.best_peer_height(), Some(8));
    assert_eq!(node.sync_manager.peers.get(&[1; 32]).unwrap().latency_ms, 2);
    match node.handle_message(P2PMessage::GetBlocks { from_height: 3, max_count: 4 }, addr, 101) {
        PeerAction::ServeBlocks(from, to) => assert_eq!((from, to), (3, 7)),
        _ => panic!("no blocks"),
    }
    match node.handle_message(P2PMessage::GetPeers, addr, 101) {
        PeerAction::Reply(P2PMessage::Peers(list)) => assert_eq!(list, vec![addr]),
        _ => panic!("no peers"),
    }
    let ban = P2PMessage::BanPeer { peer_id: [1; 32], reason: "noise".to_string() };
    assert!(matches!(node.handle_message(ban, addr, 101), PeerAction::Nothing));
    assert!(node.peers.get(&addr).unwrap().is_banned());
}

#[test]
fn a_node_tells_of_its_chain() {
    let mut node = connected();
    node.set_local_state(5, [6; 32]);
    match node.version_message([7; 32], 9) {
        P2PMessage::Version { version, timestamp, height, best_hash, peer_id } => {
            assert_eq!((version, timestamp, height), (1, 9, 5));
            assert_eq!((best_hash, peer_id), ([6; 32], [7; 32]));
        }
        _ => panic!("no version"),
    }
    assert_eq!(node.peer_count(), 1);
    assert_eq!(node.addresses(), vec![[1; 27]]);
    assert_eq!(node.relay_targets(&[1; 27]), Vec::<[u8; 27]>::new());
    assert!(node.drop_peer(&[1; 27]));
    assert!(!node.drop_peer(&[1; 27]));
}
