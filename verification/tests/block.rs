use accum::block::{Block, BlockHeader, Transaction, TxIn, TxOut, UtxoLookups};
use accum::collections::OrdMap;
use accum::types::Target;
use accum::wallet::Wallet;

fn header() -> BlockHeader {
    BlockHeader {
        version: 0x01020304,
        prev_hash: [5; 32],
        merkle_root: [6; 32],
        timestamp: 1000,
        difficulty: Target([7; 32]),
        nonce: 0x1122334455667788,
        epoch_index: 9,
    }
}

fn wallet() -> Wallet {
    let mut key = vec![0u8; 32];
    key[31] = 3;
    Wallet::from_secret_key(&key).unwrap()
}

fn output(value: u64) -> TxOut {
    let mut output = TxOut::create_p2pkh(&wallet().address).unwrap();
    output.value = value;
    output
}

fn payment(values: &[u64]) -> (Transaction, UtxoLookups) {
    let utxos = vec![(([1u8; 32], 4), output(10_000))];
    let mut tx = wallet().create_simple_tx(&utxos, &wallet().address, 9_000, 1_000).unwrap();
    tx.outputs.clear();
    for v in values {
        tx.outputs.push(output(*v));
    }
    let unsigned = tx.clone();
    tx.inputs[0].sign(&wallet(), &unsigned, 0).unwrap();
    let mut lookups: UtxoLookups = OrdMap::new();
    lookups.insert(([1u8; 32], 4), Ok(output(10_000)));
    (tx, lookups)
}

#[test]
fn headers_are_a_hundred_and_twenty_bytes() {
    let bytes = header().to_bytes();
    assert_eq!(&bytes[0..4], &[4, 3, 2, 1]);
    assert_eq!(&bytes[4..36], &[5; 32]);
    assert_eq!(&bytes[36..68], &[6; 32]);
    assert_eq!(&bytes[68..76], &[0xE8, 3, 0, 0, 0, 0, 0, 0]);
    assert_eq!(&bytes[76..108], &[7; 32]);
    assert_eq!(&bytes[108..116], &[0x88, 0x77, 0x66, 0x55, 0x44, 0x33, 0x22, 0x11]);
    assert_eq!(&bytes[116..120], &[9, 0, 0, 0]);
    assert_eq!(BlockHeader::from_bytes(&bytes), header());
}

#[test]
fn fresh_headers() {
    let h = BlockHeader::new_at([1; 32], 3, Target([2; 32]), 77);
    assert_eq!((h.version, h.timestamp, h.nonce, h.epoch_index), (1, 77, 0, 3));
    assert_eq!((h.prev_hash, h.merkle_root), ([1; 32], [0; 32]));
    assert!(BlockHeader::new([1; 32], 3, Target([2; 32])).timestamp > 1_741_353_600);
}

#[test]
fn times_of_headers() {
    let h = header();
    assert!(h.validate_timestamp_at(1000, None, None));
    assert!(!h.validate_timestamp_at(1000, Some(1001), None));
    assert!(!h.validate_timestamp_at(1000, None, Some(1001)));
    let mut late = h;
    late.timestamp = 10_000;
    assert!(!late.validate_timestamp_at(1_000, None, None));
    assert!(late.validate_timestamp_at(9_000, Some(9_000), Some(9_000)));
}

#[test]
fn addresses_and_scripts() {
    let w = wallet();
    let out = TxOut::create_p2pkh(&w.address).unwrap();
    assert_eq!(out.value, 0);
    assert!(out.is_p2pkh());
    assert!(!out.is_bond());
    assert_eq!(out.script_pubkey.len(), 25);
    assert_eq!(&out.script_pubkey[3..23], &w.miner_id);
    assert_eq!(out.extract_address(), Some(w.address.clone()));
    assert!(TxOut::create_p2pkh("0").is_err());
    assert_eq!(TxOut::create_p2pkh("1111").unwrap_err(), "Invalid address length");
}

#[test]
fn bonds_name_their_miner() {
    let mut script = vec![0xBAu8];
    script.extend_from_slice(&[7u8; 20]);
    script.extend_from_slice(&20_160u64.to_le_bytes());
    let out = TxOut { value: 99, script_pubkey: script };
    assert!(out.is_dust());
    assert_eq!(out.is_bond(), out.extract_miner_id().is_some());
    let plain = TxOut { value: 100, script_pubkey: vec![0xBA] };
    assert!(!plain.is_dust());
    assert!(!plain.is_bond());
    assert_eq!(plain.extract_miner_id(), None);
}

#[test]
fn coinbases() {
    let cb = Transaction::coinbase(vec![output(500)], 258);
    assert!(cb.is_coinbase());
    assert_eq!(cb.inputs[0].prev_index, u32::MAX);
    assert!(TxIn::coinbase().is_coinbase());
    let (tx, _) = payment(&[9_000]);
    assert!(!tx.is_coinbase());
    let other = Transaction::coinbase(vec![output(500)], 259);
    assert_ne!(cb.compute_txid(), other.compute_txid());
}

#[test]
fn a_valid_payment_has_its_fee() {
    let (tx, lookups) = payment(&[9_000, 500]);
    assert_eq!(tx.validate_basic(), Ok(()));
    assert_eq!(tx.validate(&lookups), Ok(500));
    assert_eq!(tx.fee(&lookups), Ok(500));
}

#[test]
fn payments_that_are_not_valid() {
    let (over, lookups) = payment(&[9_000, 1_001]);
    assert!(over.validate(&lookups).is_err());
    let (low_fee, lookups) = payment(&[9_951]);
    assert!(low_fee.validate(&lookups).is_err());
    let (dust, lookups) = payment(&[9_000, 99]);
    assert!(dust.validate(&lookups).is_err());
    let (good, _) = payment(&[9_000]);
    let none: UtxoLookups = OrdMap::new();
    assert!(good.validate(&none).is_err());
    assert!(good.fee(&none).is_err());
    let mut failing: UtxoLookups = OrdMap::new();
    failing.insert(([1u8; 32], 4), Err("disk".to_string()));
    assert!(good.validate(&failing).is_err());
    assert_eq!(good.fee(&failing), Err("disk".to_string()));
    let (mut empty, lookups) = payment(&[9_000]);
    empty.outputs.clear();
    assert!(empty.validate_basic().is_err());
    assert!(empty.validate(&lookups).is_err());
    let (mut unsigned, lookups) = payment(&[9_000]);
    unsigned.inputs[0].script_sig.clear();
    assert!(unsigned.validate(&lookups).is_err());
}

#[test]
fn the_identifier_covers_every_field() {
    let (tx, _) = payment(&[9_000]);
    let mut other = tx.clone();
    other.locktime = 1;
    assert_ne!(tx.compute_txid(), other.compute_txid());
    let mut cache = accum::crypto::Argon2Cache::new(1);
    assert_eq!(tx.txid(&mut cache), tx.compute_txid());
    assert_ne!(tx.sighash(0), tx.compute_txid());
}

#[test]
fn clones_are_equal() {
    let (tx, _) = payment(&[9_000]);
    let block = Block {
        header: header(),
        transactions: vec![tx.clone()],
        signature: Some(vec![1]),
        pubkey: None,
    };
    let copy = block.clone();
    assert_eq!(copy.transactions[0].compute_txid(), tx.compute_txid());
    assert_eq!(copy.signature, Some(vec![1]));
    assert_eq!(copy.pubkey, None);
}
