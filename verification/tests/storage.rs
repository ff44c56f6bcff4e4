use accum::block::TxOut;
use accum::storage::{
    backup_due, backups_to_remove, balance_by_address, height_of_key, last_height, loyalty_key,
    parse_loyalty_key, utxos_by_address, Bond,
};
use accum::wallet::Wallet;

fn pays(wallet: &Wallet, value: u64) -> TxOut {
    let mut output = TxOut::create_p2pkh(&wallet.address).unwrap();
    output.value = value;
    output
}

fn wallet(n: u8) -> Wallet {
    let mut key = vec![0u8; 32];
    key[31] = n;
    Wallet::from_secret_key(&key).unwrap()
}

#[test]
fn bonds_count_while_locked() {
    let bond = Bond::new(10_000_000, 100, [1; 20]);
    assert_eq!(bond.lock_until, 20_260);
    assert!(!bond.is_active(99));
    assert!(bond.is_active(100));
    assert!(bond.is_active(20_259));
    assert!(!bond.is_active(20_260));
    assert!(bond.is_valid_for_poci());
    assert!(!Bond::new(9_999_999, 100, [1; 20]).is_valid_for_poci());
    assert_eq!(bond.remaining_blocks(100), 20_160);
    assert_eq!(bond.remaining_blocks(30_000), 0);
}

#[test]
fn bonds_come_from_outputs() {
    let plain = pays(&wallet(1), 5);
    assert!(Bond::from_output(&plain, 7).is_none());
}

#[test]
fn heights_are_keys() {
    assert_eq!(height_of_key(&[2, 1, 0, 0, 0, 0, 0, 0]), Some(258));
    assert_eq!(height_of_key(&[1, 2]), None);
    assert_eq!(last_height(Some(vec![9, 0, 0, 0, 0, 0, 0, 0])), 9);
    assert_eq!(last_height(None), 0);
}

#[test]
fn outputs_of_an_address() {
    let (one, two) = (wallet(1), wallet(2));
    let outputs = vec![pays(&one, 5), pays(&two, 7), pays(&one, 8)];
    assert_eq!(balance_by_address(&outputs, &one.address), (13, 2));
    assert_eq!(balance_by_address(&outputs, &"nobody".to_string()), (0, 0));
    let utxos = vec![(([1; 32], 0), pays(&one, 5)), (([2; 32], 1), pays(&two, 7))];
    let found = utxos_by_address(utxos, &two.address);
    assert_eq!(found.len(), 1);
    assert_eq!(found[0].0, ([2; 32], 1));
    assert_eq!(found[0].1.value, 7);
}

#[test]
fn backups() {
    assert!(backup_due(2_000, 1_000));
    assert!(!backup_due(2_001, 1_000));
    assert_eq!(backups_to_remove(10, 7), 3);
    assert_eq!(backups_to_remove(5, 7), 0);
}

#[test]
fn loyalty_keys_name_their_miner() {
    let key = loyalty_key(&[0xAB; 20]);
    assert_eq!(key, format!("loyalty_{}", "ab".repeat(20)).into_bytes());
    assert_eq!(parse_loyalty_key(&key), Some([0xAB; 20]));
    assert_eq!(parse_loyalty_key(b"height"), None);
    assert_eq!(parse_loyalty_key(&key[0..47]), None);
}
