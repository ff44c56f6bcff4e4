//! Laws on the bytes that are hashed, signed and sent: which byte stands where.
use crate::block::{
    address_payload, header_bytes, input_bytes, inputs_bytes, output_bytes, outputs_bytes,
    parsed_script, sighash_of, transaction_bytes, BlockHeader, Transaction, TransactionV, TxInV,
    TxOutV,
};
use crate::bytes::{
    be_value, le_bytes, le_value, lemma_le_bytes_len, lemma_le_value_of_bytes, pow256,
};
use crate::crypto::{passes_prefilter, pow_hash_of};
use crate::miner::{pool_root, share_hash_of, Share};
use crate::node::{reward_txid, Node};
use crate::p2p::transactions_root;
use crate::primitives::{base58_text, ecdsa_signature, public_key_of, ripemd160_of, sha256_of};
use crate::share::{packet_bytes, SharePacket};
use crate::state::epoch_reward_txid;
use crate::transaction::{
    canonical_bytes, canonical_input, canonical_inputs, canonical_output, canonical_outputs,
};
use crate::types::{Hash32, Height, MinerId, Txid};
use crate::wallet::{signed_script, Wallet};
use vstd::prelude::*;

verus! {

proof fn lemma_number(x: nat, n: nat)
    requires
        x < pow256(n),
    ensures
        le_bytes(x, n).len() == n,
        le_value(le_bytes(x, n)) == x,
{
    lemma_le_bytes_len(x, n);
    lemma_le_value_of_bytes(x, n);
}

/// The 120 bytes of a header hold its version, the previous hash, the root, the time, the target,
/// the nonce and the epoch, in this order.
pub proof fn law_places_in_a_header(h: BlockHeader)
    ensures
        ({
            let b = header_bytes(h);
            &&& b.len() == 120
            &&& le_value(b.subrange(0, 4)) == h.version
            &&& b.subrange(4, 36) == h.prev_hash@
            &&& b.subrange(36, 68) == h.merkle_root@
            &&& le_value(b.subrange(68, 76)) == h.timestamp
            &&& b.subrange(76, 108) == h.difficulty.0@
            &&& le_value(b.subrange(108, 116)) == h.nonce
            &&& le_value(b.subrange(116, 120)) == h.epoch_index
        }),
{
    crate::bytes::lemma_pow256_words();
    lemma_number(h.version as nat, 4);
    lemma_number(h.timestamp as nat, 8);
    lemma_number(h.nonce as nat, 8);
    lemma_number(h.epoch_index as nat, 4);
    let b = header_bytes(h);
    assert(b.subrange(0, 4) =~= le_bytes(h.version as nat, 4));
    assert(b.subrange(4, 36) =~= h.prev_hash@);
    assert(b.subrange(36, 68) =~= h.merkle_root@);
    assert(b.subrange(68, 76) =~= le_bytes(h.timestamp as nat, 8));
    assert(b.subrange(76, 108) =~= h.difficulty.0@);
    assert(b.subrange(108, 116) =~= le_bytes(h.nonce as nat, 8));
    assert(b.subrange(116, 120) =~= le_bytes(h.epoch_index as nat, 4));
}

/// The 180 bytes of a share packet hold its miner, its header, its nonce and its hash, in this
/// order.
pub proof fn law_places_in_a_packet(p: SharePacket)
    ensures
        ({
            let b = packet_bytes(p);
            &&& b.len() == 180
            &&& b.subrange(0, 20) == p.miner_id@
            &&& b.subrange(20, 140) == header_bytes(p.header)
            &&& le_value(b.subrange(140, 148)) == p.nonce
            &&& b.subrange(148, 180) == p.hash@
        }),
{
    crate::bytes::lemma_pow256_words();
    law_places_in_a_header(p.header);
    lemma_number(p.nonce as nat, 8);
    let b = packet_bytes(p);
    assert(b.subrange(0, 20) =~= p.miner_id@);
    assert(b.subrange(20, 140) =~= header_bytes(p.header));
    assert(b.subrange(140, 148) =~= le_bytes(p.nonce as nat, 8));
    assert(b.subrange(148, 180) =~= p.hash@);
}

/// A share is known by the digest of 180 bytes: its miner, its header, its nonce and its hash, in
/// this order.
pub proof fn law_digest_of_a_share(s: Share, b: Seq<u8>)
    requires
        b.len() == 180,
        b.subrange(0, 20) == s.miner_id@,
        b.subrange(20, 140) == header_bytes(s.header),
        b.subrange(140, 148) == le_bytes(s.nonce as nat, 8),
        b.subrange(148, 180) == s.hash@,
    ensures
        share_hash_of(s) == sha256_of(b),
{
    assert(b =~= b.subrange(0, 20) + b.subrange(20, 140) + b.subrange(140, 148) + b.subrange(
        148,
        180,
    ));
}

/// The bytes of an input hold the output that it spends, its script behind the length, and its
/// sequence; the script and nothing else is left out where the input is blank.
pub proof fn law_places_in_an_input(i: TxInV, blank: bool)
    requires
        i.script_sig.len() < 0x1_0000_0000,
    ensures
        ({
            let b = input_bytes(i, blank);
            let n = if blank {
                0
            } else {
                i.script_sig.len() as int
            };
            &&& b.len() == 44 + n
            &&& b.subrange(0, 32) == i.prev_txid@
            &&& le_value(b.subrange(32, 36)) == i.prev_index
            &&& le_value(b.subrange(36, 40)) == n
            &&& !blank ==> b.subrange(40, 40 + n) == i.script_sig
            &&& le_value(b.subrange(40 + n, 44 + n)) == i.sequence
        }),
{
    crate::bytes::lemma_pow256_words();
    let n = if blank {
        0
    } else {
        i.script_sig.len() as int
    };
    lemma_number(i.prev_index as nat, 4);
    lemma_number(n as nat, 4);
    lemma_number(i.sequence as nat, 4);
    let b = input_bytes(i, blank);
    assert(b.subrange(0, 32) =~= i.prev_txid@);
    assert(b.subrange(32, 36) =~= le_bytes(i.prev_index as nat, 4));
    assert(b.subrange(36, 40) =~= le_bytes(n as nat, 4));
    if !blank {
        assert(b.subrange(40, 40 + n) =~= i.script_sig);
    }
    assert(b.subrange(40 + n, 44 + n) =~= le_bytes(i.sequence as nat, 4));
}

/// The bytes of an output hold its value and its script behind the length.
pub proof fn law_places_in_an_output(o: TxOutV)
    requires
        o.script_pubkey.len() < 0x1_0000_0000,
    ensures
        ({
            let b = output_bytes(o);
            &&& b.len() == 12 + o.script_pubkey.len()
            &&& le_value(b.subrange(0, 8)) == o.value
            &&& le_value(b.subrange(8, 12)) == o.script_pubkey.len()
            &&& b.skip(12) == o.script_pubkey
        }),
{
    crate::bytes::lemma_pow256_words();
    lemma_number(o.value as nat, 8);
    lemma_number(o.script_pubkey.len(), 4);
    let b = output_bytes(o);
    assert(b.subrange(0, 8) =~= le_bytes(o.value as nat, 8));
    assert(b.subrange(8, 12) =~= le_bytes(o.script_pubkey.len(), 4));
    assert(b.skip(12) =~= o.script_pubkey);
}

/// The bytes of a transaction hold its version, its inputs behind their number, its outputs behind
/// their number, and its lock time; inputs and outputs stand in their order, and only the input
/// that is named is blank.
pub proof fn law_places_in_a_transaction(t: TransactionV, blank: int)
    requires
        t.inputs.len() < 0x1_0000_0000,
        t.outputs.len() < 0x1_0000_0000,
    ensures
        ({
            let b = transaction_bytes(t, blank);
            let m = inputs_bytes(t.inputs, blank).len() as int;
            let n = outputs_bytes(t.outputs).len() as int;
            &&& b.len() == 16 + m + n
            &&& le_value(b.subrange(0, 4)) == t.version
            &&& le_value(b.subrange(4, 8)) == t.inputs.len()
            &&& b.subrange(8, 8 + m) == inputs_bytes(t.inputs, blank)
            &&& le_value(b.subrange(8 + m, 12 + m)) == t.outputs.len()
            &&& b.subrange(12 + m, 12 + m + n) == outputs_bytes(t.outputs)
            &&& le_value(b.subrange(12 + m + n, 16 + m + n)) == t.locktime
        }),
        t.inputs.len() == 1 ==> inputs_bytes(t.inputs, blank) == input_bytes(
            t.inputs[0],
            blank == 0,
        ),
        t.inputs.len() == 2 ==> inputs_bytes(t.inputs, blank) == input_bytes(
            t.inputs[0],
            blank == 0,
        ) + input_bytes(t.inputs[1], blank == 1),
        t.outputs.len() == 1 ==> outputs_bytes(t.outputs) == output_bytes(t.outputs[0]),
        t.outputs.len() == 2 ==> outputs_bytes(t.outputs) == output_bytes(t.outputs[0])
            + output_bytes(t.outputs[1]),
{
    crate::bytes::lemma_pow256_words();
    lemma_number(t.version as nat, 4);
    lemma_number(t.inputs.len(), 4);
    lemma_number(t.outputs.len(), 4);
    lemma_number(t.locktime as nat, 4);
    let b = transaction_bytes(t, blank);
    let m = inputs_bytes(t.inputs, blank).len() as int;
    let n = outputs_bytes(t.outputs).len() as int;
    assert(b.subrange(0, 4) =~= le_bytes(t.version as nat, 4));
    assert(b.subrange(4, 8) =~= le_bytes(t.inputs.len(), 4));
    assert(b.subrange(8, 8 + m) =~= inputs_bytes(t.inputs, blank));
    assert(b.subrange(8 + m, 12 + m) =~= le_bytes(t.outputs.len(), 4));
    assert(b.subrange(12 + m, 12 + m + n) =~= outputs_bytes(t.outputs));
    assert(b.subrange(12 + m + n, 16 + m + n) =~= le_bytes(t.locktime as nat, 4));
    reveal_with_fuel(inputs_bytes, 3);
    reveal_with_fuel(outputs_bytes, 3);
    if t.inputs.len() == 1 {
        assert(t.inputs.drop_last() =~= Seq::<TxInV>::empty());
        assert(inputs_bytes(t.inputs, blank) =~= input_bytes(t.inputs[0], blank == 0));
    } else if t.inputs.len() == 2 {
        assert(t.inputs.drop_last().drop_last() =~= Seq::<TxInV>::empty());
        assert(inputs_bytes(t.inputs, blank) =~= input_bytes(t.inputs[0], blank == 0)
            + input_bytes(t.inputs[1], blank == 1));
    }
    if t.outputs.len() == 1 {
        assert(t.outputs.drop_last() =~= Seq::<TxOutV>::empty());
        assert(outputs_bytes(t.outputs) =~= output_bytes(t.outputs[0]));
    } else if t.outputs.len() == 2 {
        assert(t.outputs.drop_last().drop_last() =~= Seq::<TxOutV>::empty());
        assert(outputs_bytes(t.outputs) =~= output_bytes(t.outputs[0]) + output_bytes(
            t.outputs[1],
        ));
    }
}

/// `Transaction::compute_txid` is the double digest of all bytes of a transaction.
pub proof fn law_transaction_identifiers(t: Transaction, r: Txid)
    requires
        call_ensures(Transaction::compute_txid, (&t,), r),
    ensures
        r@ == sha256_of(sha256_of(transaction_bytes(t@, -1))),
{
}

/// What an input signs is the double digest of the bytes of the transaction without the script of
/// that input, with a one in four bytes behind them.
pub proof fn law_what_an_input_signs(t: TransactionV, k: int, b: Seq<u8>)
    requires
        b.len() == transaction_bytes(t, k).len() + 4,
        b.take(b.len() - 4) == transaction_bytes(t, k),
        b.skip(b.len() - 4) == seq![1u8, 0u8, 0u8, 0u8],
    ensures
        sighash_of(t, k) == sha256_of(sha256_of(b)),
{
    reveal_with_fuel(le_bytes, 5);
    assert(le_bytes(1, 4) =~= seq![1u8, 0u8, 0u8, 0u8]);
    assert(b =~= transaction_bytes(t, k) + le_bytes(1, 4));
}

/// The canonical bytes of an input hold the output that it spends, its script behind a length of
/// eight bytes, and its sequence; those of an output its value and its script behind such a length.
pub proof fn law_canonical_places(i: TxInV, o: TxOutV)
    requires
        i.script_sig.len() < 0x1_0000_0000,
        o.script_pubkey.len() < 0x1_0000_0000,
    ensures
        ({
            let b = canonical_input(i);
            let n = i.script_sig.len() as int;
            &&& b.len() == 48 + n
            &&& b.subrange(0, 32) == i.prev_txid@
            &&& le_value(b.subrange(32, 36)) == i.prev_index
            &&& le_value(b.subrange(36, 44)) == n
            &&& b.subrange(44, 44 + n) == i.script_sig
            &&& le_value(b.subrange(44 + n, 48 + n)) == i.sequence
        }),
        ({
            let b = canonical_output(o);
            &&& b.len() == 16 + o.script_pubkey.len()
            &&& le_value(b.subrange(0, 8)) == o.value
            &&& le_value(b.subrange(8, 16)) == o.script_pubkey.len()
            &&& b.skip(16) == o.script_pubkey
        }),
{
    crate::bytes::lemma_pow256_words();
    lemma_number(i.prev_index as nat, 4);
    lemma_number(i.script_sig.len(), 8);
    lemma_number(i.sequence as nat, 4);
    lemma_number(o.value as nat, 8);
    lemma_number(o.script_pubkey.len(), 8);
    let n = i.script_sig.len() as int;
    let b = canonical_input(i);
    assert(b.subrange(0, 32) =~= i.prev_txid@);
    assert(b.subrange(32, 36) =~= le_bytes(i.prev_index as nat, 4));
    assert(b.subrange(36, 44) =~= le_bytes(n as nat, 8));
    assert(b.subrange(44, 44 + n) =~= i.script_sig);
    assert(b.subrange(44 + n, 48 + n) =~= le_bytes(i.sequence as nat, 4));
    let c = canonical_output(o);
    assert(c.subrange(0, 8) =~= le_bytes(o.value as nat, 8));
    assert(c.subrange(8, 16) =~= le_bytes(o.script_pubkey.len(), 8));
    assert(c.skip(16) =~= o.script_pubkey);
}

/// The canonical bytes of a transaction hold its version, its inputs behind their number, its
/// outputs behind their number, and its lock time.
pub proof fn law_canonical_places_in_a_transaction(t: TransactionV)
    requires
        t.inputs.len() < 0x1_0000_0000,
        t.outputs.len() < 0x1_0000_0000,
    ensures
        ({
            let b = canonical_bytes(t);
            let m = canonical_inputs(t.inputs).len() as int;
            let n = canonical_outputs(t.outputs).len() as int;
            &&& b.len() == 24 + m + n
            &&& le_value(b.subrange(0, 4)) == t.version
            &&& le_value(b.subrange(4, 12)) == t.inputs.len()
            &&& b.subrange(12, 12 + m) == canonical_inputs(t.inputs)
            &&& le_value(b.subrange(12 + m, 20 + m)) == t.outputs.len()
            &&& b.subrange(20 + m, 20 + m + n) == canonical_outputs(t.outputs)
            &&& le_value(b.subrange(20 + m + n, 24 + m + n)) == t.locktime
        }),
{
    crate::bytes::lemma_pow256_words();
    lemma_number(t.version as nat, 4);
    lemma_number(t.inputs.len(), 8);
    lemma_number(t.outputs.len(), 8);
    lemma_number(t.locktime as nat, 4);
    let b = canonical_bytes(t);
    let m = canonical_inputs(t.inputs).len() as int;
    let n = canonical_outputs(t.outputs).len() as int;
    assert(b.subrange(0, 4) =~= le_bytes(t.version as nat, 4));
    assert(b.subrange(4, 12) =~= le_bytes(t.inputs.len(), 8));
    assert(b.subrange(12, 12 + m) =~= canonical_inputs(t.inputs));
    assert(b.subrange(12 + m, 20 + m) =~= le_bytes(t.outputs.len(), 8));
    assert(b.subrange(20 + m, 20 + m + n) =~= canonical_outputs(t.outputs));
    assert(b.subrange(20 + m + n, 24 + m + n) =~= le_bytes(t.locktime as nat, 4));
}

/// An address is written from a zero byte, the hash, and the first four bytes of the double digest
/// of both.
pub proof fn law_places_in_an_address(hash: Seq<u8>, versioned: Seq<u8>)
    requires
        hash.len() == 20,
        versioned.len() == 21,
        versioned[0] == 0,
        versioned.skip(1) == hash,
    ensures
        address_payload(hash).subrange(0, 21) == versioned,
        address_payload(hash).skip(21) == sha256_of(sha256_of(versioned)).take(4),
        crate::block::address_of(hash) == base58_text(address_payload(hash)),
{
    assert(versioned =~= seq![0u8] + hash);
    let sum = sha256_of(sha256_of(versioned)).take(4);
    assert(address_payload(hash).subrange(0, 21) =~= versioned);
    assert(address_payload(hash).skip(21) =~= sum);
}

/// `Wallet::from_secret_key` makes a wallet of any secret key: its public key, the hash of that as
/// the miner, and the address of the hash.
pub proof fn law_parts_of_a_wallet(secret: &[u8], r: Result<Wallet, String>)
    requires
        call_ensures(Wallet::from_secret_key, (secret,), r),
    ensures
        r is Ok <==> secret@.len() == 32 && crate::primitives::is_secret_key(secret@),
        r matches Ok(w) ==> w@.secret_key == secret@ && w@.public_key == public_key_of(secret@)
            && w@.miner_id@ == ripemd160_of(sha256_of(public_key_of(secret@))) && w@.address
            == crate::block::address_of(w@.miner_id@),
{
}

/// An unlocking script gives back the signature of the digest and the key that it was made of.
pub proof fn law_signed_scripts(secret: Seq<u8>, key: Seq<u8>, digest: Seq<u8>)
    requires
        key.len() == 33,
        ecdsa_signature(secret, digest).len() == 64,
    ensures
        parsed_script(signed_script(secret, key, digest)) == Some(
            (ecdsa_signature(secret, digest), key),
        ),
{
    let s = signed_script(secret, key, digest);
    let sig = ecdsa_signature(secret, digest);
    assert(s[0] == 64 && s[65] == 33 && s.len() == 99);
    assert(s.subrange(1, 65) =~= sig);
    assert(s.subrange(66, 99) =~= key);
}

/// The reward of a miner for an epoch is known by the digest of `epoch_reward`, the epoch and the
/// miner.
pub proof fn law_identifier_of_an_epoch_reward(epoch: u32, miner_id: MinerId, b: Seq<u8>)
    requires
        b.len() == 36,
        b.subrange(0, 12) == seq![
            0x65u8, 0x70u8, 0x6Fu8, 0x63u8, 0x68u8, 0x5Fu8, 0x72u8, 0x65u8, 0x77u8, 0x61u8, 0x72u8,
            0x64u8,
        ],
        b.subrange(12, 16) == le_bytes(epoch as nat, 4),
        b.subrange(16, 36) == miner_id@,
    ensures
        epoch_reward_txid(epoch, miner_id) == sha256_of(b),
{
    assert(b =~= b.subrange(0, 12) + b.subrange(12, 16) + b.subrange(16, 36));
}

/// The reward that a node pays to a miner is known by the digest of `ACCUM-EPOCH-REWARD`, the
/// height, the epoch and the miner.
pub proof fn law_identifier_of_a_reward(height: Height, epoch: u32, miner_id: MinerId, b: Seq<u8>)
    requires
        b.len() == 50,
        b.subrange(0, 18) == seq![
            0x41u8, 0x43u8, 0x43u8, 0x55u8, 0x4Du8, 0x2Du8, 0x45u8, 0x50u8, 0x4Fu8, 0x43u8, 0x48u8,
            0x2Du8, 0x52u8, 0x45u8, 0x57u8, 0x41u8, 0x52u8, 0x44u8,
        ],
        b.subrange(18, 26) == le_bytes(height as nat, 8),
        b.subrange(26, 30) == le_bytes(epoch as nat, 4),
        b.subrange(30, 50) == miner_id@,
    ensures
        reward_txid(height, epoch, miner_id) == sha256_of(b),
{
    assert(b =~= b.subrange(0, 18) + b.subrange(18, 26) + b.subrange(26, 30) + b.subrange(30, 50));
}

/// The root of a pool is all zeros where it is empty, a digest by itself, and else a digest of two
/// roots.
pub proof fn law_roots_of_pools(hashes: Seq<Hash32>)
    ensures
        hashes.len() == 0 ==> pool_root(hashes) == Seq::new(32, |i: int| 0u8),
        hashes.len() == 1 ==> pool_root(hashes) == hashes[0]@,
        hashes.len() == 2 ==> pool_root(hashes) == sha256_of(hashes[0]@ + hashes[1]@),
{
    if hashes.len() == 1 {
        assert(crate::merkle::hash_views(hashes) =~= seq![hashes[0]@]);
        crate::merkle::law_single_leaf(hashes[0]@);
    } else if hashes.len() == 2 {
        let (a, b) = (hashes[0]@, hashes[1]@);
        assert(crate::merkle::hash_views(hashes) =~= seq![a, b]);
        crate::merkle::law_roots_of_small_trees(a, b, a, b);
    }
}

/// The root of the transactions of a block is all zeros where there is none, the identifier of a
/// single one, and of two the digest of both identifiers in their order.
pub proof fn law_roots_of_transactions(txs: Seq<TransactionV>)
    ensures
        txs.len() == 0 ==> transactions_root(txs) == Seq::new(32, |i: int| 0u8),
        txs.len() == 1 ==> transactions_root(txs) == sha256_of(
            sha256_of(transaction_bytes(txs[0], -1)),
        ),
        txs.len() == 2 ==> transactions_root(txs) == sha256_of(
            sha256_of(sha256_of(transaction_bytes(txs[0], -1))) + sha256_of(
                sha256_of(transaction_bytes(txs[1], -1)),
            ),
        ),
{
    let ids = crate::p2p::txids_of(txs);
    if txs.len() == 1 {
        assert(ids =~= seq![ids[0]]);
        crate::merkle::law_single_leaf(ids[0]);
    } else if txs.len() == 2 {
        assert(ids =~= seq![ids[0], ids[1]]);
        crate::merkle::law_roots_of_small_trees(ids[0], ids[1], ids[0], ids[1]);
    }
}

/// A nonce passes the prefilter exactly when the first eight bytes of the digest of the header and
/// the nonce, least significant byte first, are no higher than those of the target.
pub proof fn law_what_passes_the_prefilter(
    header: Seq<u8>,
    nonce: u64,
    target: Seq<u8>,
    b: Seq<u8>,
)
    requires
        b.len() == header.len() + 8,
        b.take(header.len() as int) == header,
        b.skip(header.len() as int) == le_bytes(nonce as nat, 8),
    ensures
        passes_prefilter(header, nonce, target) <==> be_value(sha256_of(b).take(8)) <= be_value(
            target.take(8),
        ),
{
    assert(b =~= header + le_bytes(nonce as nat, 8));
}

/// The hash of a tip is the work of the last header, and all zeros before the first block.
pub proof fn law_hashes_of_tips(n: &mut Node, r: Hash32)
    requires
        call_ensures(Node::last_hash, (n,), r),
    ensures
        old(n).blocks@.len() == 0 ==> forall|i: int| 0 <= i < 32 ==> #[trigger] r@[i] == 0,
        old(n).blocks@.len() > 0 ==> r@ == pow_hash_of(header_bytes(old(n).blocks@.last())),
        final(n).blocks == old(n).blocks,
{
}

} // verus!
