use accum::bytes::{array_less, array_of, arrays_equal, push_le, read_le, slices_equal, vec_of};
use accum::collections::{OrdMap, OrdSet};
use accum::config::Config;
use accum::genesis::{create_genesis_block, genesis_output_script};
use accum::median::median_of_last;
use accum::merkle::merkle_root;
use accum::text::{format_duration, hex_decode, hex_encode, push_decimal};
use sha2::Digest;

fn pair(a: [u8; 32], b: [u8; 32]) -> [u8; 32] {
    let mut both = a.to_vec();
    both.extend_from_slice(&b);
    sha2::Sha256::digest(&both).into()
}

#[test]
fn numbers_as_bytes() {
    let mut buf = vec![9u8];
    push_le(&mut buf, 0x010203, 4);
    assert_eq!(buf, vec![9, 3, 2, 1, 0]);
    assert_eq!(read_le(&buf, 1, 4), 0x010203);
    assert!(arrays_equal(&[1u8, 2], &[1, 2]));
    assert!(!slices_equal(&[1], &[1, 2]));
    assert!(array_less(&[1u8, 9], &[2, 0]));
    assert!(!array_less(&[2u8, 0], &[2, 0]));
    assert_eq!(array_of::<2>(&[7, 8]), [7, 8]);
    assert_eq!(vec_of(&[7, 8]), vec![7, 8]);
}

#[test]
fn maps_keep_their_keys_in_order() {
    let mut map: OrdMap<[u8; 2], u64> = OrdMap::new();
    assert!(map.is_empty());
    assert_eq!(map.insert([2, 0], 5), None);
    assert_eq!(map.insert([1, 9], 6), None);
    assert_eq!(map.insert([2, 0], 7), Some(5));
    assert_eq!(map.len(), 2);
    assert_eq!(map.key_at(0), [1, 9]);
    assert_eq!(*map.value_at(1), 7);
    assert_eq!(map.sum(), 13);
    assert_eq!(map.get(&[1, 9]), Some(&6));
    assert_eq!(map.get(&[1, 8]), None);
    map.retain_marked(&vec![false, true]);
    assert!(!map.contains_key(&[1, 9]));
    assert_eq!(map.remove(&[2, 0]), Some(7));
    assert_eq!(map.remove(&[2, 0]), None);
}

#[test]
fn sets_hold_each_member_once() {
    let mut set: OrdSet<u32> = OrdSet::new();
    assert!(set.insert(5));
    assert!(!set.insert(5));
    assert!(set.insert(3));
    assert_eq!((set.len(), set.member_at(0)), (2, 3));
    assert!(set.remove(&5));
    assert!(!set.contains(&5));
    set.clear();
    assert_eq!(set.len(), 0);
}

#[test]
fn decimal_and_duration() {
    let mut text = String::from("n=");
    push_decimal(&mut text, 0);
    push_decimal(&mut text, 907);
    push_decimal(&mut text, u128::MAX);
    assert_eq!(text, format!("n=0907{}", u128::MAX));
    assert_eq!(format_duration(0), "00:00:00");
    assert_eq!(format_duration(3_725), "01:02:05");
    assert_eq!(format_duration(360_000), "100:00:00");
}

#[test]
fn hexadecimal_there_and_back() {
    let bytes = [0x00u8, 0x9A, 0xFF];
    assert_eq!(hex_encode(&bytes), b"009aff".to_vec());
    assert_eq!(hex_decode(b"009AfF"), Some(bytes.to_vec()));
    assert_eq!(hex_decode(&hex_encode(&bytes)), Some(bytes.to_vec()));
    assert_eq!(hex_decode(b"0"), None);
    assert_eq!(hex_decode(b"0x"), None);
    assert_eq!(hex_decode(b""), Some(vec![]));
}

#[test]
fn roots_of_trees() {
    let (a, b, c) = ([1u8; 32], [2u8; 32], [3u8; 32]);
    assert_eq!(merkle_root(vec![a]), a);
    assert_eq!(merkle_root(vec![a, b]), pair(a, b));
    assert_eq!(merkle_root(vec![a, b, c]), pair(pair(a, b), pair(c, c)));
    assert_eq!(merkle_root(vec![a, b, c]), merkle_root(vec![a, b, c, c]));
}

#[test]
fn medians_of_eleven() {
    assert_eq!(median_of_last(&vec![1; 10]), None);
    let times = vec![99, 11, 10, 9, 8, 7, 6, 5, 4, 3, 2, 1];
    assert_eq!(median_of_last(&times), Some(6));
}

#[test]
fn the_first_block() {
    let (header, tx) = create_genesis_block();
    assert_eq!((header.version, header.nonce, header.epoch_index), (1, 0, 1));
    assert_eq!(header.timestamp, 1741353600);
    assert_eq!(header.difficulty.0, [0xFF; 32]);
    assert!(tx.is_coinbase());
    assert_eq!(tx.outputs.len(), 1);
    assert_eq!(tx.outputs[0].value, 500_000_000);
    assert_eq!(tx.outputs[0].script_pubkey, genesis_output_script());
    assert_eq!(
        hex::encode(genesis_output_script()),
        "76a91462e907b15cbf27d5425399ebf6f0fb50ebb88f1888ac"
    );
}

#[test]
fn settings_without_a_file() {
    let config = Config::default();
    assert_eq!(config.network.port, 30333);
    assert_eq!(config.rpc.port, 8545);
    assert_eq!(config.network.max_peers, 125);
    assert_eq!(config.network.bootnodes, vec!["seed.accum.network:30333".to_string()]);
    assert_eq!(config.network.seed_nodes.len(), 5);
    assert_eq!(config.mining.bond, 10_000_000);
    assert_eq!(config.storage.path, "~/.accum");
    assert_eq!(config.advanced.max_mempool_size, 10_000);
    assert_eq!(config.advanced.checkpoint_interval, 1_000);
    assert_eq!(config.advanced.backup_interval_blocks, 100);
}
