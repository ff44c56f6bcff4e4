use accum::constants::DUST_LIMIT_LYT;
use accum::error::Error;
use accum::transaction::{Transaction, TxIn, TxOut, UTXOSet};
use sha2::Digest;

fn dummy_txout(value: u64) -> TxOut {
    TxOut { value, script_pubkey: b"addr1".to_vec() }
}

fn spending(prev_txid: [u8; 32], outputs: Vec<TxOut>) -> Transaction {
    Transaction {
        version: 1,
        inputs: vec![TxIn { prev_txid, prev_index: 0, script_sig: vec![], sequence: 0xFFFFFFFF }],
        outputs,
        locktime: 0,
    }
}

#[test]
fn txid_is_deterministic() {
    let tx = Transaction {
        version: 1,
        inputs: vec![],
        outputs: vec![dummy_txout(1_000)],
        locktime: 0,
    };

    let id1 = tx.txid();
    let id2 = tx.txid();
    assert_eq!(id1, id2);
}

#[test]
fn detect_coinbase() {
    let cb = Transaction {
        version: 1,
        inputs: vec![TxIn {
            prev_txid: [0u8; 32],
            prev_index: u32::MAX,
            script_sig: vec![],
            sequence: 0xFFFFFFFF,
        }],
        outputs: vec![dummy_txout(50_000)],
        locktime: 0,
    };
    assert!(cb.is_coinbase());

    let non_cb = Transaction {
        version: 1,
        inputs: vec![TxIn {
            prev_txid: [1u8; 32],
            prev_index: 0,
            script_sig: vec![],
            sequence: 0xFFFFFFFF,
        }],
        outputs: vec![dummy_txout(50_000)],
        locktime: 0,
    };
    assert!(!non_cb.is_coinbase());
}

#[test]
fn validate_standard_tx_with_fee() {
    let mut utxo = UTXOSet::default();
    let prev_txid = [1u8; 32];
    utxo.add_output(prev_txid, 0, dummy_txout(1_000));

    let tx = Transaction {
        version: 1,
        inputs: vec![TxIn {
            prev_txid,
            prev_index: 0,
            script_sig: vec![],
            sequence: 0xFFFFFFFF,
        }],
        outputs: vec![dummy_txout(900)],
        locktime: 0,
    };

    let fee = tx.validate(&utxo).expect("tx should be valid");
    assert_eq!(fee, 100);
}

#[test]
fn reject_dust_output() {
    let mut utxo = UTXOSet::default();
    let prev_txid = [2u8; 32];
    utxo.add_output(prev_txid, 0, dummy_txout(1_000));

    let tx = Transaction {
        version: 1,
        inputs: vec![TxIn {
            prev_txid,
            prev_index: 0,
            script_sig: vec![],
            sequence: 0xFFFFFFFF,
        }],
        outputs: vec![dummy_txout(DUST_LIMIT_LYT - 1)],
        locktime: 0,
    };

    let res = tx.validate(&utxo);
    assert!(res.is_err());
}

#[test]
fn reject_insufficient_input() {
    let mut utxo = UTXOSet::default();
    let prev_txid = [3u8; 32];
    utxo.add_output(prev_txid, 0, dummy_txout(100));

    let tx = Transaction {
        version: 1,
        inputs: vec![TxIn {
            prev_txid,
            prev_index: 0,
            script_sig: vec![],
            sequence: 0xFFFFFFFF,
        }],
        outputs: vec![dummy_txout(100)],
        locktime: 0,
    };

    // No room for minimum fee.
    let res = tx.validate(&utxo);
    assert!(res.is_err());
}

#[test]
fn utxo_balance_works() {
    let mut utxo = UTXOSet::default();
    let txid1 = [4u8; 32];
    let txid2 = [5u8; 32];

    utxo.add_output(txid1, 0, dummy_txout(1_000));
    utxo.add_output(txid2, 0, dummy_txout(2_000));

    let balance = utxo.get_balance(b"addr1");
    assert_eq!(balance, 3_000);
}

#[test]
fn each_fault_has_its_error() {
    let mut utxo = UTXOSet::default();
    utxo.add_output([1u8; 32], 0, dummy_txout(1_000));
    utxo.add_output([2u8; 32], 0, dummy_txout(u64::MAX));

    let missing = spending([9u8; 32], vec![dummy_txout(100)]).validate(&utxo);
    assert!(matches!(missing, Err(Error::KeyNotFound)));

    let mut twice = spending([1u8; 32], vec![dummy_txout(100)]);
    twice.inputs.push(TxIn { prev_txid: [1u8; 32], prev_index: 0, script_sig: vec![1], sequence: 0 });
    assert!(matches!(twice.validate(&utxo), Err(Error::DoubleSpend)));

    let mut too_much = spending([1u8; 32], vec![dummy_txout(100)]);
    too_much.inputs.push(TxIn { prev_txid: [2u8; 32], prev_index: 0, script_sig: vec![], sequence: 0 });
    assert!(matches!(too_much.validate(&utxo), Err(Error::InsufficientInput)));

    let over = spending([1u8; 32], vec![dummy_txout(1_001)]);
    assert!(matches!(over.validate(&utxo), Err(Error::InsufficientInput)));

    let wide = spending([1u8; 32], vec![dummy_txout(u64::MAX), dummy_txout(100)]);
    assert!(matches!(wide.validate(&utxo), Err(Error::InsufficientInput)));

    match spending([1u8; 32], vec![dummy_txout(99)]).validate(&utxo) {
        Err(Error::Other(words)) => assert_eq!(words, "Dust output below 100 LYT"),
        other => panic!("{:?}", other),
    }
    match spending([1u8; 32], vec![dummy_txout(951)]).validate(&utxo) {
        Err(Error::Other(words)) => assert_eq!(words, "Fee below minimum: 49 < 50"),
        other => panic!("{:?}", other),
    }
}

#[test]
fn coinbases_need_outputs_that_are_no_dust() {
    let utxo = UTXOSet::default();
    let mut cb = spending([0u8; 32], vec![]);
    cb.inputs[0].prev_index = u32::MAX;
    assert!(matches!(cb.validate(&utxo), Err(Error::InvalidCoinbase)));
    cb.outputs.push(dummy_txout(99));
    assert!(matches!(cb.validate(&utxo), Err(Error::InvalidCoinbase)));
    cb.outputs[0].value = 100;
    assert_eq!(cb.validate(&utxo).unwrap(), 0);
}

#[test]
fn spending_gives_back_what_was_added() {
    let mut utxo = UTXOSet::default();
    utxo.add_output([1u8; 32], 3, dummy_txout(700));
    assert_eq!(utxo.get_balance(b"addr1"), 700);
    assert_eq!(utxo.get_balance(b"addr2"), 0);
    let spent = utxo.spend_input([1u8; 32], 3).unwrap();
    assert_eq!(spent.value, 700);
    assert_eq!(spent.script_pubkey, b"addr1".to_vec());
    assert!(matches!(utxo.spend_input([1u8; 32], 3), Err(Error::KeyNotFound)));
    assert_eq!(utxo.get_balance(b"addr1"), 0);
}

#[test]
fn the_identifier_is_the_digest_of_the_canonical_bytes() {
    let tx = spending([7u8; 32], vec![dummy_txout(1_000)]);
    let mut bytes: Vec<u8> = Vec::new();
    bytes.extend_from_slice(&1u32.to_le_bytes());
    bytes.extend_from_slice(&1u64.to_le_bytes());
    bytes.extend_from_slice(&[7u8; 32]);
    bytes.extend_from_slice(&0u32.to_le_bytes());
    bytes.extend_from_slice(&0u64.to_le_bytes());
    bytes.extend_from_slice(&0xFFFFFFFFu32.to_le_bytes());
    bytes.extend_from_slice(&1u64.to_le_bytes());
    bytes.extend_from_slice(&1_000u64.to_le_bytes());
    bytes.extend_from_slice(&5u64.to_le_bytes());
    bytes.extend_from_slice(b"addr1");
    bytes.extend_from_slice(&0u32.to_le_bytes());
    let expected: [u8; 32] = sha2::Sha256::digest(&bytes).into();
    assert_eq!(tx.txid(), expected);
}

#[test]
fn words_of_errors() {
    assert_eq!(Error::KeyNotFound.message(), "Key not found");
    assert_eq!(Error::Other("x".to_string()).message(), "Other error: x");
    assert_eq!(Error::InsufficientBond(10).message(), "Insufficient bond - minimum 10 LYT required");
    assert_eq!(Error::Database("gone".to_string()).message(), "Database error: gone");
    assert_eq!(Error::InvalidPoW.message(), "Invalid block hash - PoW not met");
}
