use accum::block::{Transaction, TxOut, UtxoLookups};
use accum::collections::{OrdMap, OrdSet};
use accum::mempool::{sort_mempool_by_fee, take_transaction};
use accum::wallet::Wallet;

fn wallet() -> Wallet {
    let mut key = vec![0u8; 32];
    key[31] = 3;
    Wallet::from_secret_key(&key).unwrap()
}

fn output(value: u64) -> TxOut {
    let mut output = TxOut::create_p2pkh(&wallet().address).unwrap();
    output.value = value;
    output
}

fn lookups() -> UtxoLookups {
    let mut m: UtxoLookups = OrdMap::new();
    for i in 1..=5u8 {
        m.insert(([i; 32], 0), Ok(output(10_000)));
    }
    m
}

fn payment(from: u8, fee: u64) -> Transaction {
    let utxos = vec![(([from; 32], 0), output(10_000))];
    wallet().create_simple_tx(&utxos, &wallet().address, 10_000 - fee, fee).unwrap()
}

fn fees(list: &[Transaction]) -> Vec<u64> {
    list.iter().map(|t| t.fee(&lookups()).unwrap()).collect()
}

#[test]
fn the_highest_fees_come_first() {
    let mut list = vec![payment(1, 100), payment(2, 300), payment(3, 200), payment(4, 300)];
    let second = list[1].compute_txid();
    sort_mempool_by_fee(&mut list, &lookups());
    assert_eq!(fees(&list), vec![300, 300, 200, 100]);
    assert_eq!(list[0].compute_txid(), second);
}

#[test]
fn a_full_pool_drops_the_lowest_fee() {
    let mut list = vec![];
    let mut known: OrdSet<[u8; 32]> = OrdSet::new();
    for (from, fee) in [(1, 100), (2, 300), (3, 200)] {
        let tx = payment(from, fee);
        assert_eq!(take_transaction(&mut list, &mut known, tx, &lookups(), 2), Ok(()));
    }
    assert_eq!(fees(&list), vec![300, 200]);
}

#[test]
fn each_reason_to_refuse() {
    let mut list = vec![];
    let mut known: OrdSet<[u8; 32]> = OrdSet::new();
    let mut empty = payment(1, 100);
    empty.outputs.clear();
    let words = take_transaction(&mut list, &mut known, empty, &lookups(), 9).unwrap_err();
    assert!(words.starts_with("Invalid transaction: "));
    let mut forged = payment(1, 100);
    forged.outputs[0].value -= 1;
    let words = take_transaction(&mut list, &mut known, forged, &lookups(), 9).unwrap_err();
    assert!(words.starts_with("Transaction validation failed: "));

    let tx = payment(1, 100);
    assert_eq!(take_transaction(&mut list, &mut known, tx.clone(), &lookups(), 9), Ok(()));
    let again = take_transaction(&mut list, &mut known, tx.clone(), &lookups(), 9).unwrap_err();
    assert!(again == "Transaction already processed" || again == "Transaction already in mempool");
    let mut fresh: OrdSet<[u8; 32]> = OrdSet::new();
    let listed = take_transaction(&mut list, &mut fresh, tx, &lookups(), 9).unwrap_err();
    assert_eq!(listed, "Transaction already in mempool");
    let other = payment(1, 200);
    let conflict = take_transaction(&mut list, &mut known, other, &lookups(), 9).unwrap_err();
    assert_eq!(conflict, "Input already used in mempool transaction");
    let mut done: OrdSet<[u8; 32]> = OrdSet::new();
    let old = payment(2, 200);
    done.insert(old.compute_txid());
    let words = take_transaction(&mut list, &mut done, old, &lookups(), 9).unwrap_err();
    assert_eq!(words, "Transaction already processed");
    assert_eq!(list.len(), 1);
}
