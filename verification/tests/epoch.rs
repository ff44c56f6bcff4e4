use accum::block::BlockHeader;
use accum::collections::OrdMap;
use accum::epoch::{Epoch, EpochManager};
use accum::error::Error;
use accum::miner::Share;
use accum::share::SharePacket;
use accum::slash::{SlashEquivocationProof, SlashInvalidSharesProof, SlashValidator};
use accum::state::ChainState;
use accum::storage::Bond;
use accum::types::Target;

fn header(timestamp: u64, epoch_index: u32, nonce: u64) -> BlockHeader {
    BlockHeader {
        version: 1,
        prev_hash: [0; 32],
        merkle_root: [0; 32],
        timestamp,
        difficulty: Target([0xFF; 32]),
        nonce,
        epoch_index,
    }
}

#[test]
fn epochs_have_their_blocks() {
    let e = Epoch::new(2, 1440, 77, Target([0x01; 32]));
    assert_eq!((e.start_block, e.end_block, e.start_time), (1440, 2879, 77));
    assert!(e.contains_block(1440));
    assert!(e.contains_block(2879));
    assert!(!e.contains_block(2880));
    assert!(!Epoch::new(3, 2880, 88, Target([0x01; 32])).contains_block(2879));
    assert_eq!(&e.target_share.0[0..5], &[1, 1, 1, 0, 1]);
}

#[test]
fn the_epoch_turns_after_its_last_block() {
    let mut m = EpochManager::new(Target::genesis());
    let share = SharePacket { miner_id: [1; 20], header: header(5, 1, 0), nonce: 1, hash: [0; 32] };
    m.add_share(share).unwrap();
    assert_eq!(m.epoch_shares().total_shares(), 1);
    for height in 0..1440u64 {
        m.add_block_at(&header(1_000 + height * 60, 1, 0), height, 1_000 + height * 60).unwrap();
    }
    let current = m.current().unwrap();
    assert_eq!(current.index, 2);
    assert_eq!(current.start_block, 1440);
    let first = m.get_epoch(1).unwrap();
    assert_eq!(first.end_time, Some(1_000 + 1439 * 60));
    assert_eq!((first.total_shares, first.active_miners), (1, 1));
    assert_eq!(m.epoch_shares().total_shares(), 0);
    assert!(m.get_epoch(3).is_none());
}

#[test]
fn blocks_that_do_not_fit() {
    let mut m = EpochManager::new(Target::genesis());
    assert!(matches!(m.add_block_at(&header(5, 2, 0), 0, 5), Err(Error::InvalidEpoch)));
    for height in 0..11u64 {
        m.add_block_at(&header(1_000, 1, 0), height, 1_000).unwrap();
    }
    assert!(matches!(m.add_block_at(&header(1_000, 1, 0), 11, 1_000), Err(Error::InvalidTimestamp)));
    assert!(matches!(m.add_block_at(&header(8_200, 1, 0), 11, 1_000), Err(Error::InvalidTimestamp)));
    assert!(m.add_block_at(&header(8_199, 1, 0), 11, 1_000).is_ok());
    m.current_mut().unwrap().total_shares = 7;
    assert_eq!(m.current().unwrap().total_shares, 7);
    assert_eq!(m.get_epoch(1).unwrap().total_shares, 7);
}

#[test]
fn rewards_become_outputs() {
    let mut state = ChainState::new();
    let mut rewards: OrdMap<[u8; 20], u64> = OrdMap::new();
    rewards.insert([1; 20], 500);
    rewards.insert([2; 20], 0);
    rewards.insert([3; 20], 700);
    state.apply_epoch_rewards(&rewards, 4);
    assert_eq!(state.total_supply, 1_200);
    assert_eq!(state.get_balance(&[1; 20]), 500);
    assert_eq!(state.get_balance(&[2; 20]), 0);
    assert_eq!(state.get_balance(&[3; 20]), 700);
    state.apply_epoch_rewards(&rewards, 5);
    assert_eq!(state.get_balance(&[1; 20]), 1_000);
}

/// One header twice: a single hash serves for both.
fn one_header_twice() -> SlashEquivocationProof {
    let h = header(5, 1, 0);
    SlashEquivocationProof { block1_header: h, block2_header: h, height: 0, miner_id: [1; 20] }
}

#[test]
fn equal_headers_prove_nothing() {
    assert!(!one_header_twice().verify());
}

#[test]
fn equal_headers_burn_nothing() {
    let mut validator = SlashValidator::new();
    let bond = Ok(Some(Bond::new(10_000_000, 0, [1; 20])));
    let outcome = validator.process_equivocation(&one_header_twice(), &bond, &Ok(()));
    assert!(matches!(outcome, Ok(false)));
    assert_eq!(validator.equivocations.len(), 0);
}

#[test]
fn equal_headers_make_no_proof() {
    let h = header(5, 1, 0);
    match SlashEquivocationProof::new(h, h, [1; 20]) {
        Err(Error::Other(words)) => assert_eq!(words, "Блоки идентичны - это не эквивокация"),
        _ => panic!("a proof from one block"),
    }
}

#[test]
fn burning_names_the_miner_and_pays_nobody() {
    let tx = one_header_twice().to_transaction();
    assert_eq!((tx.version, tx.locktime, tx.inputs.len(), tx.outputs.len()), (1, 0, 2, 1));
    assert_eq!(tx.inputs[0].prev_txid, tx.inputs[1].prev_txid);
    assert_eq!(tx.inputs[0].prev_index, u32::MAX);
    assert_eq!(tx.inputs[0].script_sig, vec![0xFC]);
    assert_eq!(tx.outputs[0].value, 0);
    assert_eq!(tx.outputs[0].script_pubkey[0], 0xFC);
    assert_eq!(&tx.outputs[0].script_pubkey[1..21], &[1; 20]);
}

#[test]
fn floods_of_invalid_shares() {
    let share = Share::new_at([1; 20], header(5, 1, 0), 1, [0; 32], 5);
    let few = SlashInvalidSharesProof::new([1; 20], vec![share; 2], 1);
    assert!(few.is_err());
    let many = SlashInvalidSharesProof::new([1; 20], vec![share; 100], 1);
    match many {
        Ok(proof) => {
            assert!(proof.verify(&vec![false; 100]));
            assert!(!proof.verify(&vec![true; 100]));
            let mut validator = SlashValidator::new();
            let bond = Bond::new(10_000_000, 0, [1; 20]);
            let lookup = Ok(Some(bond));
            let gone = Err("disk".to_string());
            let held = vec![true; 100];
            let all = vec![false; 100];
            assert!(matches!(proof.penalty(&all, &lookup), Ok(Some(10_000_000))));
            assert!(matches!(proof.penalty(&held, &lookup), Ok(None)));
            let refused = validator.process_invalid_shares(&proof, &held, &lookup, &Ok(()));
            assert!(matches!(refused, Ok(false)));
            let missing = validator.process_invalid_shares(&proof, &all, &Ok(None), &Ok(()));
            assert!(matches!(missing, Err(Error::Other(_))));
            let failed = validator.process_invalid_shares(&proof, &all, &lookup, &gone);
            assert!(matches!(failed, Err(Error::Database(words)) if words == "disk"));
            assert_eq!(validator.share_floods.get(&[1; 20]), None);
            let burnt = validator.process_invalid_shares(&proof, &all, &lookup, &Ok(()));
            assert!(matches!(burnt, Ok(true)));
            assert_eq!(validator.share_floods.get(&[1; 20]), Some(&1));
            assert_eq!(proof.to_transaction().outputs[0].script_pubkey[0], 0xFD);
        }
        Err(e) => panic!("{}", e.message()),
    }
}
