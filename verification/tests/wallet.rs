use accum::block::{Transaction, TxIn, TxOut};
use accum::wallet::Wallet;
use sha2::Digest;

fn first_key() -> Vec<u8> {
    let mut key = vec![0u8; 32];
    key[31] = 1;
    key
}

fn paid(txid: u8, value: u64, wallet: &Wallet) -> (([u8; 32], u32), TxOut) {
    let mut output = TxOut::create_p2pkh(&wallet.address).unwrap();
    output.value = value;
    (([txid; 32], 0), output)
}

#[test]
fn the_first_key_has_its_known_address() {
    let wallet = Wallet::from_secret_key(&first_key()).unwrap();
    assert_eq!(
        hex::encode(&wallet.public_key),
        "0279be667ef9dcbbac55a06295ce870b07029bfcdb2dce28d959f2815b16f81798"
    );
    assert_eq!(hex::encode(wallet.miner_id), "751e76e8199196d454941c45d1b3a323f1433bd6");
    assert_eq!(wallet.address, "1BgGZ9tcN4rm9KBzDn7KprQz87SZ26SAMH");
    assert_eq!(wallet.public_key_bytes(), &wallet.public_key[..]);
    assert_eq!(Wallet::address_from_miner_id(&wallet.miner_id), wallet.address);
}

#[test]
fn keys_out_of_range_are_refused() {
    let words = Wallet::from_secret_key(&[0u8; 32]).unwrap_err();
    assert_eq!(words, "Invalid secret key");
    let short = Wallet::from_secret_key(&[1u8; 31]).unwrap_err();
    assert_eq!(short, "Invalid secret key length");
    assert!(Wallet::from_secret_key(&[0xFF; 32]).is_err());
}

#[test]
fn keys_in_text() {
    let mut text = vec![b'0'; 63];
    text.push(b'1');
    let wallet = Wallet::from_hex(&text).unwrap();
    assert_eq!(wallet.secret_key, first_key());
    assert!(Wallet::from_hex(b"0g").is_err());
    assert!(Wallet::from_hex(b"012").is_err());
    assert!(Wallet::from_hex(b"01").is_err());
}

#[test]
fn drawn_wallets_are_coherent() {
    let one = Wallet::generate().unwrap();
    let two = Wallet::generate().unwrap();
    assert_ne!(one.secret_key, two.secret_key);
    let again = Wallet::from_secret_key(&one.secret_key).unwrap();
    assert_eq!(again.public_key, one.public_key);
    assert_eq!(again.miner_id, one.miner_id);
    assert_eq!(again.address, one.address);
}

#[test]
fn what_a_wallet_signs_verifies() {
    let wallet = Wallet::from_secret_key(&first_key()).unwrap();
    let digest: [u8; 32] = sha2::Sha256::digest(b"words").into();
    let signature = wallet.sign(&digest).unwrap();
    assert_eq!(signature.len(), 64);
    assert!(TxIn::verify_ecdsa(&wallet.public_key, &signature, &digest));
    assert!(!TxIn::verify_ecdsa(&wallet.public_key, &signature, &[0u8; 32]));
    assert!(Wallet::verify_signature(&wallet.public_key, &signature, b"words"));
    assert!(!Wallet::verify_signature(&wallet.public_key, &signature, b"other words"));
    assert!(!Wallet::verify_signature(&[2u8; 10], &signature, b"words"));
    assert!(!Wallet::verify_signature(&wallet.public_key, &signature[1..], b"words"));
    assert_eq!(wallet.sign_block(&digest).unwrap(), signature);
}

#[test]
fn a_payment_with_change_is_authorized() {
    let wallet = Wallet::from_secret_key(&first_key()).unwrap();
    let other = Wallet::generate().unwrap();
    let utxos = vec![paid(1, 10_000, &wallet), paid(2, 5_000, &wallet)];
    let tx = wallet.create_simple_tx(&utxos, &other.address, 1_000, 100).unwrap();
    assert_eq!(tx.inputs.len(), 1);
    assert_eq!(tx.outputs.len(), 2);
    assert_eq!(tx.outputs[0].value, 1_000);
    assert_eq!(tx.outputs[0].extract_address(), Some(other.address.clone()));
    assert_eq!(tx.outputs[1].value, 8_900);
    assert_eq!(tx.outputs[1].extract_address(), Some(wallet.address.clone()));
    assert!(tx.inputs[0].verify(&tx, 0, &utxos[0].1));
    let mut changed = tx.clone();
    changed.outputs[0].value = 1_001;
    assert!(!changed.inputs[0].verify(&changed, 0, &utxos[0].1));
    assert!(!tx.inputs[0].verify(&tx, 0, &TxOut::create_p2pkh(&other.address).unwrap()));
}

#[test]
fn the_second_of_two_inputs_is_signed_with_the_first() {
    let wallet = Wallet::from_secret_key(&first_key()).unwrap();
    let utxos = vec![paid(1, 600, &wallet), paid(2, 600, &wallet)];
    let tx = wallet.create_simple_tx(&utxos, &wallet.address, 1_000, 100).unwrap();
    assert_eq!(tx.inputs.len(), 2);
    assert_eq!(tx.outputs.len(), 1);
    assert!(tx.inputs[1].verify(&tx, 1, &utxos[1].1));
    assert!(!tx.inputs[0].verify(&tx, 0, &utxos[0].1));
}

#[test]
fn payments_that_cannot_be_made() {
    let wallet = Wallet::from_secret_key(&first_key()).unwrap();
    let utxos = vec![paid(1, 600, &wallet)];
    let words = wallet.create_simple_tx(&utxos, &wallet.address, 600, 100).unwrap_err();
    assert_eq!(words, "Insufficient funds. Need 700 LYT, have 600 LYT");
    let words = wallet.create_simple_tx(&utxos, &wallet.address, 0, 100).unwrap_err();
    assert_eq!(words, "Amount must be greater than 0");
    assert!(wallet.create_simple_tx(&utxos, "0OIl", 100, 100).is_err());
    assert!(wallet.create_simple_tx(&[], &wallet.address, 100, 100).is_err());
    let made = Transaction::create_p2pkh(&wallet, &wallet.address, 600, 100, utxos);
    assert_eq!(made.unwrap_err(), "Insufficient funds");
}

#[test]
fn change_below_the_dust_limit_goes_to_the_fee() {
    let wallet = Wallet::from_secret_key(&first_key()).unwrap();
    let utxos = vec![paid(1, 1_200, &wallet)];
    let tx = Transaction::create_p2pkh(&wallet, &wallet.address, 1_000, 100, utxos).unwrap();
    assert_eq!(tx.outputs.len(), 1);
    assert_eq!(tx.outputs[0].value, 1_000);
}
