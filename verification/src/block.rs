//! Blocks, block headers and transactions.
use crate::bytes::{
    array_of, arrays_equal, be_value, le_bytes, lemma_le_bytes_len, lemma_le_bytes_of_value,
    lemma_le_value_bound, lemma_le_value_of_bytes, lemma_pow256_words, push_le, read_le,
    slices_equal, vec_of,
};
use crate::collections::{lemma_sum_push, sum_of, OrdMap, OrdSet};
use crate::constants::{DUST_LIMIT_LYT, MAX_SUPPLY_LYT, MINIMUM_FEE_LYT, OP_BOND};
use crate::crypto::{asked_at, pow_hash, pow_hash_of, Argon2Cache};
use crate::primitives::{
    base58_bytes, base58_decode, base58_encode, base58_text, compact_signature_accepted,
    ecdsa_signature, ecdsa_valid, is_compact_signature, parse_public_key, parsed_public_key,
    ripemd160, sha256, sha256_of, verify_digest,
};
use crate::types::{
    current_timestamp, Hash32, Height, MinerId, OutPoint, Target, Timestamp, Txid,
};
use crate::wallet::{coherent, hash160, signed_script, signing_fault, Wallet, WalletV};
use vstd::prelude::*;

verus! {

/// What a cache may look like after it was asked for the hash `r` of `data`.
pub open spec fn cache_asked(
    before: Argon2Cache,
    after: Argon2Cache,
    data: Seq<u8>,
    r: Hash32,
) -> bool {
    exists|now: u64| #[trigger] asked_at(before, after, data, r, now)
}

/// The header of a block.
#[derive(Debug, Clone, Copy, PartialEq, Eq)]
pub struct BlockHeader {
    pub version: u32,
    pub prev_hash: Hash32,
    pub merkle_root: Hash32,
    pub timestamp: Timestamp,
    pub difficulty: Target,
    pub nonce: u64,
    pub epoch_index: u32,
}

/// The 120 bytes of a header: its fields in order, numbers least significant byte first.
pub open spec fn header_bytes(h: BlockHeader) -> Seq<u8> {
    le_bytes(h.version as nat, 4) + h.prev_hash@ + h.merkle_root@ + le_bytes(
        h.timestamp as nat,
        8,
    ) + h.difficulty.0@ + le_bytes(h.nonce as nat, 8) + le_bytes(h.epoch_index as nat, 4)
}

/// Whether the timestamp of a header is acceptable when the clock shows `now`: at most two hours
/// ahead, and later than the previous block and the median.
pub open spec fn timestamp_acceptable(
    timestamp: Timestamp,
    now: Timestamp,
    prev_timestamp: Option<Timestamp>,
    median: Option<Timestamp>,
) -> bool {
    &&& timestamp <= now + 7200
    &&& (prev_timestamp matches Some(p) ==> timestamp > p)
    &&& (median matches Some(m) ==> timestamp > m)
}

impl BlockHeader {
    /// A header for the block after `prev_hash`, made at `now`.
    pub fn new_at(prev_hash: Hash32, epoch: u32, difficulty: Target, now: Timestamp) -> (r: Self)
        ensures
            r.version == 1,
            r.prev_hash == prev_hash,
            r.merkle_root@ == Seq::new(32, |i: int| 0u8),
            r.timestamp == now,
            r.difficulty == difficulty,
            r.nonce == 0,
            r.epoch_index == epoch,
    {
        let zero: Hash32 = [0u8; 32];
        assert(zero@ =~= Seq::new(32, |i: int| 0u8));
        BlockHeader {
            version: 1,
            prev_hash,
            merkle_root: zero,
            timestamp: now,
            difficulty,
            nonce: 0,
            epoch_index: epoch,
        }
    }

    /// A header for the block after `prev_hash`, made at the time that the clock shows.
    pub fn new(prev_hash: Hash32, epoch: u32, difficulty: Target) -> (r: Self)
        ensures
            r.version == 1,
            r.prev_hash == prev_hash,
            r.merkle_root@ == Seq::new(32, |i: int| 0u8),
            r.difficulty == difficulty,
            r.nonce == 0,
            r.epoch_index == epoch,
    {
        Self::new_at(prev_hash, epoch, difficulty, current_timestamp())
    }

    /// The bytes of the header.
    pub fn to_bytes(&self) -> (r: [u8; 120])
        ensures
            r@ == header_bytes(*self),
    {
        let mut bytes: Vec<u8> = Vec::new();
        push_le(&mut bytes, self.version as u64, 4);
        bytes.extend_from_slice(self.prev_hash.as_slice());
        bytes.extend_from_slice(self.merkle_root.as_slice());
        push_le(&mut bytes, self.timestamp, 8);
        bytes.extend_from_slice(self.difficulty.0.as_slice());
        push_le(&mut bytes, self.nonce, 8);
        push_le(&mut bytes, self.epoch_index as u64, 4);
        proof {
            lemma_header_len(*self);
            assert(bytes@ =~= header_bytes(*self));
        }
        array_of::<120>(bytes.as_slice())
    }

    /// The header that 120 bytes stand for.
    pub fn from_bytes(data: &[u8; 120]) -> (r: Self)
        ensures
            header_bytes(r) == data@,
    {
        let d = data.as_slice();
        let version: u64 = read_le(d, 0, 4);
        let prev_hash: Hash32 = array_of::<32>(&d[4..36]);
        let merkle_root: Hash32 = array_of::<32>(&d[36..68]);
        let timestamp: u64 = read_le(d, 68, 8);
        let difficulty: Hash32 = array_of::<32>(&d[76..108]);
        let nonce: u64 = read_le(d, 108, 8);
        let epoch_index: u64 = read_le(d, 116, 4);
        proof {
            lemma_pow256_words();
            lemma_le_value_bound(d@.subrange(0, 4));
            lemma_le_value_bound(d@.subrange(116, 120));
            lemma_le_bytes_of_value(d@.subrange(0, 4));
            lemma_le_bytes_of_value(d@.subrange(68, 76));
            lemma_le_bytes_of_value(d@.subrange(108, 116));
            lemma_le_bytes_of_value(d@.subrange(116, 120));
        }
        let r = BlockHeader {
            version: version as u32,
            prev_hash,
            merkle_root,
            timestamp,
            difficulty: Target(difficulty),
            nonce,
            epoch_index: epoch_index as u32,
        };
        assert(header_bytes(r) =~= data@);
        r
    }

    /// The proof-of-work hash of the header.
    pub fn hash(&self, argon2: &mut Argon2Cache) -> (r: Hash32)
        ensures
            r@ == pow_hash_of(header_bytes(*self)),
            cache_asked(*old(argon2), *final(argon2), header_bytes(*self), r),
    {
        let bytes = self.to_bytes();
        argon2.hash(bytes.as_slice())
    }

    /// The proof-of-work hash of the header with another nonce.
    pub fn hash_with_nonce(&self, nonce: u64, argon2: &mut Argon2Cache) -> (r: Hash32)
        ensures
            r@ == pow_hash_of(header_bytes(with_nonce(*self, nonce))),
            cache_asked(
                *old(argon2),
                *final(argon2),
                header_bytes(with_nonce(*self, nonce)),
                r,
            ),
    {
        let mut header = *self;
        header.nonce = nonce;
        header.hash(argon2)
    }

    /// The proof-of-work hash of the header with another nonce, computed anew.
    pub fn work(&self, nonce: u64) -> (r: Hash32)
        ensures
            r@ == pow_hash_of(header_bytes(with_nonce(*self, nonce))),
    {
        let mut header = *self;
        header.nonce = nonce;
        let bytes = header.to_bytes();
        pow_hash(bytes.as_slice())
    }

    /// Whether the hash of the header meets its own target.
    pub fn meets_target(&self, argon2: &mut Argon2Cache) -> (r: bool)
        ensures
            r == (be_value(pow_hash_of(header_bytes(*self))) <= be_value(self.difficulty.0@)),
            exists|h: Hash32|
                h@ == pow_hash_of(header_bytes(*self)) && #[trigger] cache_asked(
                    *old(argon2),
                    *final(argon2),
                    header_bytes(*self),
                    h,
                ),
    {
        let hash = self.hash(argon2);
        self.difficulty.is_met_by(&hash)
    }

    /// Whether the timestamp is acceptable when the clock shows `now`.
    pub fn validate_timestamp_at(
        &self,
        now: Timestamp,
        prev_timestamp: Option<Timestamp>,
        median: Option<Timestamp>,
    ) -> (r: bool)
        ensures
            r == timestamp_acceptable(self.timestamp, now, prev_timestamp, median),
    {
        if self.timestamp > 7200 && self.timestamp - 7200 > now {
            return false;
        }
        if let Some(prev) = prev_timestamp {
            if self.timestamp <= prev {
                return false;
            }
        }
        if let Some(m) = median {
            if self.timestamp <= m {
                return false;
            }
        }
        true
    }

    /// Whether the timestamp is acceptable at the time that the clock shows.
    pub fn validate_timestamp(
        &self,
        prev_timestamp: Option<Timestamp>,
        median: Option<Timestamp>,
    ) -> (r: bool)
        ensures
            exists|now: Timestamp|
                r == #[trigger] timestamp_acceptable(self.timestamp, now, prev_timestamp, median),
    {
        let now: Timestamp = current_timestamp();
        self.validate_timestamp_at(now, prev_timestamp, median)
    }
}

/// A header with another nonce.
pub open spec fn with_nonce(h: BlockHeader, nonce: u64) -> BlockHeader {
    BlockHeader { nonce, ..h }
}

pub proof fn lemma_header_len(h: BlockHeader)
    ensures
        header_bytes(h).len() == 120,
{
    lemma_le_bytes_len(h.version as nat, 4);
    lemma_le_bytes_len(h.timestamp as nat, 8);
    lemma_le_bytes_len(h.nonce as nat, 8);
    lemma_le_bytes_len(h.epoch_index as nat, 4);
}

/// Two headers with the same bytes are the same header.
pub proof fn law_header_bytes_injective(a: BlockHeader, b: BlockHeader)
    requires
        header_bytes(a) == header_bytes(b),
    ensures
        a == b,
{
    let x = header_bytes(a);
    lemma_pow256_words();
    lemma_le_bytes_len(a.version as nat, 4);
    lemma_le_bytes_len(a.timestamp as nat, 8);
    lemma_le_bytes_len(a.nonce as nat, 8);
    lemma_le_bytes_len(a.epoch_index as nat, 4);
    lemma_le_bytes_len(b.version as nat, 4);
    lemma_le_bytes_len(b.timestamp as nat, 8);
    lemma_le_bytes_len(b.nonce as nat, 8);
    lemma_le_bytes_len(b.epoch_index as nat, 4);
    lemma_le_value_of_bytes(a.version as nat, 4);
    lemma_le_value_of_bytes(a.timestamp as nat, 8);
    lemma_le_value_of_bytes(a.nonce as nat, 8);
    lemma_le_value_of_bytes(a.epoch_index as nat, 4);
    lemma_le_value_of_bytes(b.version as nat, 4);
    lemma_le_value_of_bytes(b.timestamp as nat, 8);
    lemma_le_value_of_bytes(b.nonce as nat, 8);
    lemma_le_value_of_bytes(b.epoch_index as nat, 4);
    assert(x.subrange(0, 4) =~= le_bytes(a.version as nat, 4));
    assert(x.subrange(0, 4) =~= le_bytes(b.version as nat, 4));
    assert(x.subrange(4, 36) =~= a.prev_hash@);
    assert(x.subrange(4, 36) =~= b.prev_hash@);
    assert(x.subrange(36, 68) =~= a.merkle_root@);
    assert(x.subrange(36, 68) =~= b.merkle_root@);
    assert(x.subrange(68, 76) =~= le_bytes(a.timestamp as nat, 8));
    assert(x.subrange(68, 76) =~= le_bytes(b.timestamp as nat, 8));
    assert(x.subrange(76, 108) =~= a.difficulty.0@);
    assert(x.subrange(76, 108) =~= b.difficulty.0@);
    assert(x.subrange(108, 116) =~= le_bytes(a.nonce as nat, 8));
    assert(x.subrange(108, 116) =~= le_bytes(b.nonce as nat, 8));
    assert(x.subrange(116, 120) =~= le_bytes(a.epoch_index as nat, 4));
    assert(x.subrange(116, 120) =~= le_bytes(b.epoch_index as nat, 4));
    assert(a.prev_hash =~= b.prev_hash);
    assert(a.merkle_root =~= b.merkle_root);
    assert(a.difficulty.0 =~= b.difficulty.0);
}

/// A transaction output.
#[derive(Debug)]
pub struct TxOut {
    pub value: u64,
    pub script_pubkey: Vec<u8>,
}

/// What an output holds.
#[verifier::ext_equal]
pub struct TxOutV {
    pub value: u64,
    pub script_pubkey: Seq<u8>,
}

impl View for TxOut {
    type V = TxOutV;

    open spec fn view(&self) -> TxOutV {
        TxOutV { value: self.value, script_pubkey: self.script_pubkey@ }
    }
}

impl Clone for TxOut {
    fn clone(&self) -> (r: Self)
        ensures
            r@ == self@,
    {
        TxOut { value: self.value, script_pubkey: vec_of(self.script_pubkey.as_slice()) }
    }
}

/// Whether a script locks a miner's bond: a marker byte and a miner identifier.
pub open spec fn bond_script(script: Seq<u8>) -> bool {
    script.len() == 21 && script[0] == OP_BOND
}

/// Whether a script pays to the hash of a public key.
pub open spec fn p2pkh_script(script: Seq<u8>) -> bool {
    &&& script.len() == 25
    &&& script[0] == 0x76
    &&& script[1] == 0xA9
    &&& script[2] == 0x14
    &&& script[23] == 0x88
    &&& script[24] == 0xAC
}

/// The script that pays to the hash of a public key.
pub open spec fn p2pkh_of(hash: Seq<u8>) -> Seq<u8> {
    seq![0x76u8, 0xA9u8, 0x14u8] + hash + seq![0x88u8, 0xACu8]
}

/// A hash behind its version byte, with the first four bytes of its double digest.
pub open spec fn address_payload(hash: Seq<u8>) -> Seq<u8> {
    let versioned = seq![0u8] + hash;
    versioned + sha256_of(sha256_of(versioned)).take(4)
}

/// The address of a hash.
pub open spec fn address_of(hash: Seq<u8>) -> Seq<char> {
    base58_text(address_payload(hash))
}

/// The output of value zero that pays to an address, or why there is none.
pub open spec fn p2pkh_output(address: Seq<char>) -> Result<TxOutV, Seq<char>> {
    match base58_bytes(address) {
        Err(words) => Err(words),
        Ok(decoded) => if decoded.len() != 25 {
            Err("Invalid address length"@)
        } else {
            Ok(TxOutV { value: 0, script_pubkey: p2pkh_of(decoded.subrange(1, 21)) })
        },
    }
}

/// The address text of a hash.
pub fn address_text(hash: &[u8]) -> (r: String)
    ensures
        r@ == address_of(hash@),
        base58_bytes(r@) is Ok && base58_bytes(r@)->Ok_0 == address_payload(hash@),
        address_payload(hash@).len() == hash@.len() + 5,
{
    let mut payload: Vec<u8> = vec![0u8];
    payload.extend_from_slice(hash);
    assert(payload@ =~= seq![0u8] + hash@);
    let once: Hash32 = sha256(payload.as_slice());
    let twice: Hash32 = sha256(once.as_slice());
    payload.extend_from_slice(&twice[0..4]);
    assert(twice@.subrange(0, 4) =~= twice@.take(4));
    assert(payload@ =~= address_payload(hash@));
    base58_encode(payload.as_slice())
}

impl TxOut {
    /// Whether the output locks a miner's bond.
    pub fn is_bond(&self) -> (r: bool)
        ensures
            r == bond_script(self@.script_pubkey),
    {
        self.script_pubkey.len() == 21 && self.script_pubkey[0] == OP_BOND
    }

    /// The miner whose bond the output locks.
    pub fn extract_miner_id(&self) -> (r: Option<MinerId>)
        ensures
            match r {
                Some(id) => bond_script(self@.script_pubkey) && id@
                    == self@.script_pubkey.subrange(1, 21),
                None => !bond_script(self@.script_pubkey),
            },
    {
        if self.is_bond() {
            Some(array_of::<20>(&self.script_pubkey[1..21]))
        } else {
            None
        }
    }

    /// Whether the output is worth less than the dust limit.
    pub fn is_dust(&self) -> (r: bool)
        ensures
            r == (self.value < DUST_LIMIT_LYT),
    {
        self.value < DUST_LIMIT_LYT
    }

    /// Whether the output pays to the hash of a public key.
    pub fn is_p2pkh(&self) -> (r: bool)
        ensures
            r == p2pkh_script(self@.script_pubkey),
    {
        self.script_pubkey.len() == 25 && self.script_pubkey[0] == 0x76 && self.script_pubkey[1]
            == 0xA9 && self.script_pubkey[2] == 0x14 && self.script_pubkey[23] == 0x88
            && self.script_pubkey[24] == 0xAC
    }

    /// The address that the output pays to.
    pub fn extract_address(&self) -> (r: Option<String>)
        ensures
            match r {
                Some(address) => p2pkh_script(self@.script_pubkey) && address@ == address_of(
                    self@.script_pubkey.subrange(3, 23),
                ) && p2pkh_output(address@) == Ok::<TxOutV, Seq<char>>(
                    TxOutV { value: 0, script_pubkey: self@.script_pubkey },
                ),
                None => !p2pkh_script(self@.script_pubkey),
            },
    {
        if self.is_p2pkh() {
            let address = address_text(&self.script_pubkey[3..23]);
            proof {
                let hash = self@.script_pubkey.subrange(3, 23);
                lemma_payload(hash);
                assert(p2pkh_of(hash) =~= self@.script_pubkey);
            }
            Some(address)
        } else {
            None
        }
    }

    /// An output of value zero that pays to an address.
    pub fn create_p2pkh(address: &str) -> (r: Result<Self, String>)
        ensures
            match r {
                Ok(out) => p2pkh_output(address@) == Ok::<TxOutV, Seq<char>>(out@),
                Err(words) => p2pkh_output(address@) == Err::<TxOutV, Seq<char>>(words@),
            },
    {
        let decoded = match base58_decode(address) {
            Ok(bytes) => bytes,
            Err(words) => {
                return Err(words);
            },
        };
        if decoded.len() != 25 {
            return Err("Invalid address length".to_string());
        }
        let mut script: Vec<u8> = vec![0x76u8, 0xA9u8, 0x14u8];
        script.extend_from_slice(&decoded[1..21]);
        script.push(0x88);
        script.push(0xAC);
        assert(script@ =~= p2pkh_of(decoded@.subrange(1, 21)));
        Ok(TxOut { value: 0, script_pubkey: script })
    }
}

/// The payload of an address of 20 bytes is 25 bytes long and holds the hash behind the version.
proof fn lemma_payload(hash: Seq<u8>)
    requires
        hash.len() == 20,
        address_payload(hash).len() == 25,
    ensures
        address_payload(hash).subrange(1, 21) == hash,
{
    assert(address_payload(hash).subrange(1, 21) =~= hash);
}

/// A transaction input.
#[derive(Debug)]
pub struct TxIn {
    pub prev_txid: Txid,
    pub prev_index: u32,
    pub script_sig: Vec<u8>,
    pub sequence: u32,
}

/// What an input holds.
#[verifier::ext_equal]
pub struct TxInV {
    pub prev_txid: Txid,
    pub prev_index: u32,
    pub script_sig: Seq<u8>,
    pub sequence: u32,
}

impl View for TxIn {
    type V = TxInV;

    open spec fn view(&self) -> TxInV {
        TxInV {
            prev_txid: self.prev_txid,
            prev_index: self.prev_index,
            script_sig: self.script_sig@,
            sequence: self.sequence,
        }
    }
}

impl Clone for TxIn {
    fn clone(&self) -> (r: Self)
        ensures
            r@ == self@,
    {
        TxIn {
            prev_txid: self.prev_txid,
            prev_index: self.prev_index,
            script_sig: vec_of(self.script_sig.as_slice()),
            sequence: self.sequence,
        }
    }
}

/// Whether an input creates new coins: it spends the output of no transaction.
pub open spec fn coinbase_input(i: TxInV) -> bool {
    i.prev_txid@ == Seq::new(32, |k: int| 0u8) && i.prev_index == 0xFFFF_FFFF
}

/// The signature and the public key in an unlocking script: after an optional zero byte, each
/// behind its length, and nothing else.
pub open spec fn parsed_script(script: Seq<u8>) -> Option<(Seq<u8>, Seq<u8>)> {
    let start: int = if script.len() >= 2 && script[0] == 0 {
        1
    } else {
        0
    };
    let sig_len = script[start];
    let key_at = start + 1 + sig_len;
    if script.len() < 2 || key_at >= script.len() || key_at + 1 + script[key_at] != script.len() {
        None
    } else {
        Some((script.subrange(start + 1, key_at), script.subrange(key_at + 1, script.len() as int)))
    }
}

/// Whether a signature of a digest verifies under a public key in any of its encodings.
pub open spec fn ecdsa_accepts(key: Seq<u8>, sig: Seq<u8>, digest: Seq<u8>) -> bool {
    parsed_public_key(key) matches Some(k) && is_compact_signature(sig) && ecdsa_valid(
        k,
        sig,
        digest,
    )
}

/// Whether a key and a signature unlock a payment to the hash of a public key.
pub open spec fn p2pkh_unlocked(
    t: TransactionV,
    index: int,
    script: Seq<u8>,
    key: Seq<u8>,
    sig: Seq<u8>,
) -> bool {
    hash160(key) == script.subrange(3, 23) && ecdsa_accepts(key, sig, sighash_of(t, index))
}

/// Whether a key and a signature unlock a bond.
pub open spec fn bond_unlocked(
    t: TransactionV,
    index: int,
    script: Seq<u8>,
    key: Seq<u8>,
    sig: Seq<u8>,
) -> bool {
    &&& bond_script(script)
    &&& (parsed_public_key(key) matches Some(k) && hash160(k) == script.subrange(1, 21))
    &&& ecdsa_accepts(key, sig, sighash_of(t, index))
}

/// Whether an input may spend an output.
pub open spec fn authorized(i: TxInV, t: TransactionV, index: int, utxo: TxOutV) -> bool {
    coinbase_input(i) || match parsed_script(i.script_sig) {
        None => false,
        Some((sig, key)) => if p2pkh_script(utxo.script_pubkey) {
            p2pkh_unlocked(t, index, utxo.script_pubkey, key, sig)
        } else if bond_script(utxo.script_pubkey) {
            bond_unlocked(t, index, utxo.script_pubkey, key, sig)
        } else {
            false
        },
    }
}

impl TxIn {
    /// The input that creates new coins.
    pub fn coinbase() -> (r: Self)
        ensures
            coinbase_input(r@),
            r@.script_sig == Seq::<u8>::empty(),
            r.sequence == 0xFFFF_FFFF,
    {
        let zero: Hash32 = [0u8; 32];
        assert(zero@ =~= Seq::new(32, |k: int| 0u8));
        TxIn {
            prev_txid: zero,
            prev_index: 0xFFFF_FFFF,
            script_sig: Vec::new(),
            sequence: 0xFFFF_FFFF,
        }
    }

    /// Whether the input creates new coins.
    pub fn is_coinbase(&self) -> (r: bool)
        ensures
            r == coinbase_input(self@),
    {
        let zero: Hash32 = [0u8; 32];
        assert(zero@ =~= Seq::new(32, |k: int| 0u8));
        proof {
            if self.prev_txid@ == zero@ {
                assert(self.prev_txid =~= zero);
            }
        }
        arrays_equal(&self.prev_txid, &zero) && self.prev_index == 0xFFFF_FFFF
    }

    /// The output that the input spends.
    pub fn outpoint(&self) -> (r: OutPoint)
        ensures
            r == (self.prev_txid, self.prev_index),
    {
        (self.prev_txid, self.prev_index)
    }

    /// Signs input `input_index` of `tx` and writes the unlocking script into this input.
    pub fn sign(&mut self, wallet: &Wallet, tx: &Transaction, input_index: usize) -> (r: Result<
        (),
        String,
    >)
        ensures
            match r {
                Ok(()) => signing_fault(wallet@.secret_key) is None && final(self)@ == (TxInV {
                    script_sig: signed_script(
                        wallet@.secret_key,
                        wallet@.public_key,
                        sighash_of(tx@, input_index as int),
                    ),
                    ..old(self)@
                }),
                Err(words) => signing_fault(wallet@.secret_key) == Some(words@) && final(self)@
                    == old(self)@,
            },
            coherent(wallet@) ==> r is Ok && signature_proves(
                wallet@,
                final(self)@.script_sig,
                sighash_of(tx@, input_index as int),
            ),
    {
        let sighash = tx.sighash(input_index);
        let signature = match wallet.sign(&sighash) {
            Ok(signature) => signature,
            Err(words) => {
                return Err(words);
            },
        };
        let mut script_sig: Vec<u8> = Vec::new();
        script_sig.push((signature.len() % 256) as u8);
        script_sig.extend_from_slice(signature.as_slice());
        let pubkey = wallet.public_key_bytes();
        script_sig.push((pubkey.len() % 256) as u8);
        script_sig.extend_from_slice(pubkey);
        assert(script_sig@ =~= signed_script(
            wallet@.secret_key,
            wallet@.public_key,
            sighash_of(tx@, input_index as int),
        ));
        proof {
            if coherent(wallet@) {
                lemma_signed_script_parses(wallet@, sighash@);
            }
        }
        self.script_sig = script_sig;
        Ok(())
    }

    /// Whether the input, as input `input_index` of `tx`, may spend `utxo`.
    pub fn verify(&self, tx: &Transaction, input_index: usize, utxo: &TxOut) -> (r: bool)
        ensures
            r == authorized(self@, tx@, input_index as int, utxo@),
    {
        if self.is_coinbase() {
            return true;
        }
        let (sig_bytes, pubkey_bytes) = match self.parse_script_sig() {
            Some((sig, key)) => (sig, key),
            None => {
                return false;
            },
        };
        if utxo.is_p2pkh() {
            self.verify_p2pkh(tx, input_index, utxo, pubkey_bytes, sig_bytes)
        } else if utxo.is_bond() {
            self.verify_bond(tx, input_index, utxo, pubkey_bytes, sig_bytes)
        } else {
            false
        }
    }

    /// The signature and the public key in the unlocking script.
    pub fn parse_script_sig(&self) -> (r: Option<(&[u8], &[u8])>)
        ensures
            match r {
                Some((sig, key)) => parsed_script(self@.script_sig) == Some((sig@, key@)),
                None => parsed_script(self@.script_sig) is None,
            },
    {
        let len: usize = self.script_sig.len();
        if len < 2 {
            return None;
        }
        let start: usize = if self.script_sig[0] == 0 {
            1
        } else {
            0
        };
        let sig_len: usize = self.script_sig[start] as usize;
        if sig_len >= len - start - 1 {
            return None;
        }
        let key_at: usize = start + 1 + sig_len;
        let key_len: usize = self.script_sig[key_at] as usize;
        if key_len != len - key_at - 1 {
            return None;
        }
        Some((&self.script_sig[start + 1..key_at], &self.script_sig[key_at + 1..len]))
    }

    /// Whether a key and a signature unlock a payment to the hash of a public key.
    pub fn verify_p2pkh(
        &self,
        tx: &Transaction,
        input_index: usize,
        utxo: &TxOut,
        pubkey_bytes: &[u8],
        sig_bytes: &[u8],
    ) -> (r: bool)
        requires
            utxo@.script_pubkey.len() >= 23,
        ensures
            r == p2pkh_unlocked(
                tx@,
                input_index as int,
                utxo@.script_pubkey,
                pubkey_bytes@,
                sig_bytes@,
            ),
    {
        let pubkey_hash = ripemd160(sha256(pubkey_bytes).as_slice());
        if !slices_equal(pubkey_hash.as_slice(), &utxo.script_pubkey[3..23]) {
            return false;
        }
        let sighash = tx.sighash(input_index);
        Self::verify_ecdsa(pubkey_bytes, sig_bytes, &sighash)
    }

    /// Whether a key and a signature unlock a bond.
    pub fn verify_bond(
        &self,
        tx: &Transaction,
        input_index: usize,
        utxo: &TxOut,
        pubkey_bytes: &[u8],
        sig_bytes: &[u8],
    ) -> (r: bool)
        ensures
            r == bond_unlocked(
                tx@,
                input_index as int,
                utxo@.script_pubkey,
                pubkey_bytes@,
                sig_bytes@,
            ),
    {
        let expected = match utxo.extract_miner_id() {
            Some(id) => id,
            None => {
                return false;
            },
        };
        let pubkey = match parse_public_key(pubkey_bytes) {
            Some(key) => key,
            None => {
                return false;
            },
        };
        let actual = Wallet::miner_id_from_pubkey(&pubkey);
        if !slices_equal(actual.as_slice(), expected.as_slice()) {
            return false;
        }
        let sighash = tx.sighash(input_index);
        Self::verify_ecdsa(pubkey_bytes, sig_bytes, &sighash)
    }

    /// Whether a compact signature of a digest verifies under a public key.
    pub fn verify_ecdsa(pubkey_bytes: &[u8], sig_bytes: &[u8], msg: &[u8; 32]) -> (r: bool)
        ensures
            r == ecdsa_accepts(pubkey_bytes@, sig_bytes@, msg@),
    {
        let pubkey = match parse_public_key(pubkey_bytes) {
            Some(key) => key,
            None => {
                return false;
            },
        };
        if !compact_signature_accepted(sig_bytes) {
            return false;
        }
        verify_digest(&pubkey, sig_bytes, msg)
    }
}

/// A transaction.
#[derive(Debug)]
pub struct Transaction {
    pub version: u32,
    pub inputs: Vec<TxIn>,
    pub outputs: Vec<TxOut>,
    pub locktime: u32,
}

/// What a transaction holds.
#[verifier::ext_equal]
pub struct TransactionV {
    pub version: u32,
    pub inputs: Seq<TxInV>,
    pub outputs: Seq<TxOutV>,
    pub locktime: u32,
}

/// What a list of inputs holds.
pub open spec fn input_views(s: Seq<TxIn>) -> Seq<TxInV> {
    s.map_values(|i: TxIn| i@)
}

/// What a list of outputs holds.
pub open spec fn output_views(s: Seq<TxOut>) -> Seq<TxOutV> {
    s.map_values(|o: TxOut| o@)
}

impl View for Transaction {
    type V = TransactionV;

    open spec fn view(&self) -> TransactionV {
        TransactionV {
            version: self.version,
            inputs: input_views(self.inputs@),
            outputs: output_views(self.outputs@),
            locktime: self.locktime,
        }
    }
}

/// A copy of a list of outputs.
pub fn clone_outputs(v: &Vec<TxOut>) -> (r: Vec<TxOut>)
    ensures
        output_views(r@) == output_views(v@),
{
    let mut r: Vec<TxOut> = Vec::new();
    let mut i: usize = 0;
    while i < v.len()
        invariant
            i <= v@.len(),
            r@.len() == i,
            forall|j: int| 0 <= j < i ==> (#[trigger] r@[j])@ == v@[j]@,
        decreases v@.len() - i,
    {
        r.push(v[i].clone());
        i += 1;
    }
    assert(output_views(r@) =~= output_views(v@));
    r
}

/// A copy of a list of inputs.
pub fn clone_inputs(v: &Vec<TxIn>) -> (r: Vec<TxIn>)
    ensures
        input_views(r@) == input_views(v@),
{
    let mut r: Vec<TxIn> = Vec::new();
    let mut i: usize = 0;
    while i < v.len()
        invariant
            i <= v@.len(),
            r@.len() == i,
            forall|j: int| 0 <= j < i ==> (#[trigger] r@[j])@ == v@[j]@,
        decreases v@.len() - i,
    {
        r.push(v[i].clone());
        i += 1;
    }
    assert(input_views(r@) =~= input_views(v@));
    r
}

impl Clone for Transaction {
    fn clone(&self) -> (r: Self)
        ensures
            r@ == self@,
    {
        Transaction {
            version: self.version,
            inputs: clone_inputs(&self.inputs),
            outputs: clone_outputs(&self.outputs),
            locktime: self.locktime,
        }
    }
}

/// The bytes of an input, with its unlocking script or with an empty one.
pub open spec fn input_bytes(i: TxInV, blank: bool) -> Seq<u8> {
    let script = if blank {
        Seq::<u8>::empty()
    } else {
        i.script_sig
    };
    i.prev_txid@ + le_bytes(i.prev_index as nat, 4) + le_bytes(script.len(), 4) + script + le_bytes(
        i.sequence as nat,
        4,
    )
}

/// The bytes of the inputs in order; the input at `blank` is written without its script.
pub open spec fn inputs_bytes(ins: Seq<TxInV>, blank: int) -> Seq<u8>
    decreases ins.len(),
{
    if ins.len() == 0 {
        Seq::empty()
    } else {
        inputs_bytes(ins.drop_last(), blank) + input_bytes(ins.last(), ins.len() - 1 == blank)
    }
}

/// The bytes of an output.
pub open spec fn output_bytes(o: TxOutV) -> Seq<u8> {
    le_bytes(o.value as nat, 8) + le_bytes(o.script_pubkey.len(), 4) + o.script_pubkey
}

/// The bytes of the outputs in order.
pub open spec fn outputs_bytes(outs: Seq<TxOutV>) -> Seq<u8>
    decreases outs.len(),
{
    if outs.len() == 0 {
        Seq::empty()
    } else {
        outputs_bytes(outs.drop_last()) + output_bytes(outs.last())
    }
}

/// The bytes of a transaction; the input at `blank` is written without its script.
pub open spec fn transaction_bytes(t: TransactionV, blank: int) -> Seq<u8> {
    le_bytes(t.version as nat, 4) + le_bytes(t.inputs.len(), 4) + inputs_bytes(t.inputs, blank)
        + le_bytes(t.outputs.len(), 4) + outputs_bytes(t.outputs) + le_bytes(t.locktime as nat, 4)
}

/// The identifier of a transaction: the double digest of its bytes.
pub open spec fn txid_of(t: TransactionV) -> Seq<u8> {
    sha256_of(sha256_of(transaction_bytes(t, -1)))
}

/// The digest that input `index` of a transaction signs.
pub open spec fn sighash_of(t: TransactionV, index: int) -> Seq<u8> {
    sha256_of(sha256_of(transaction_bytes(t, index) + le_bytes(1, 4)))
}

/// Whether a transaction creates new coins.
pub open spec fn coinbase_transaction(t: TransactionV) -> bool {
    t.inputs.len() == 1 && coinbase_input(t.inputs[0])
}

/// Whether two inputs of a transaction spend one output.
pub open spec fn spends_twice(ins: Seq<TxInV>) -> bool {
    exists|i: int, j: int|
        0 <= i < j < ins.len() && !coinbase_input(#[trigger] ins[i]) && !coinbase_input(
            #[trigger] ins[j],
        ) && outpoint_of(ins[i]) == outpoint_of(ins[j])
}

/// The output that an input spends.
pub open spec fn outpoint_of(i: TxInV) -> OutPoint {
    (i.prev_txid, i.prev_index)
}

/// The sum of the values of outputs.
pub open spec fn output_sum(outs: Seq<TxOutV>) -> nat
    decreases outs.len(),
{
    if outs.len() == 0 {
        0
    } else {
        output_sum(outs.drop_last()) + outs.last().value as nat
    }
}

/// What is wrong with a transaction by itself.
pub open spec fn basic_fault(t: TransactionV) -> Option<Seq<char>> {
    if t.inputs.len() == 0 || t.outputs.len() == 0 {
        Some("Empty transaction"@)
    } else if spends_twice(t.inputs) {
        Some("Double spend within transaction"@)
    } else if exists|i: int|
        0 <= i < t.outputs.len() && (#[trigger] t.outputs[i]).value < DUST_LIMIT_LYT {
        Some("Dust output"@)
    } else if output_sum(t.outputs) > MAX_SUPPLY_LYT {
        Some("Output sum exceeds max supply"@)
    } else {
        None
    }
}

/// What a store answers when it is asked for outputs: the output, or the words of an error. What
/// it does not hold has no entry.
pub type UtxoLookups = OrdMap<OutPoint, Result<TxOut, String>>;

/// What a store answered, as contracts speak of it.
pub type LookupMap = Map<OutPoint, Result<TxOut, String>>;

/// The sum of the outputs that the inputs from `i` on spend, or what is wrong with the first
/// input that may not be spent.
pub open spec fn inputs_total(t: TransactionV, utxos: LookupMap, i: int, sum: nat) -> Result<
    nat,
    Seq<char>,
>
    decreases t.inputs.len() - i,
{
    if i < 0 || i >= t.inputs.len() {
        Ok(sum)
    } else {
        let input = t.inputs[i];
        if !utxos.contains_key(outpoint_of(input)) {
            Err("UTXO not found"@)
        } else {
            match utxos[outpoint_of(input)] {
                Err(_) => Err("DB error"@),
                Ok(utxo) => if sum + utxo.value > u64::MAX {
                    Err("Overflow"@)
                } else if !authorized(input, t, i, utxo@) {
                    Err("Invalid signature"@)
                } else {
                    inputs_total(t, utxos, i + 1, sum + utxo.value as nat)
                },
            }
        }
    }
}

/// The fee of a valid transaction, or what is wrong with it.
pub open spec fn validation(t: TransactionV, utxos: LookupMap) -> Result<nat, Seq<char>> {
    match basic_fault(t) {
        Some(words) => Err(words),
        None => if coinbase_transaction(t) {
            Ok(0)
        } else {
            match inputs_total(t, utxos, 0, 0) {
                Err(words) => Err(words),
                Ok(total) => if output_sum(t.outputs) > total {
                    Err("Outputs exceed inputs"@)
                } else if total - output_sum(t.outputs) < MINIMUM_FEE_LYT {
                    Err("Fee below minimum"@)
                } else {
                    Ok((total - output_sum(t.outputs)) as nat)
                },
            }
        },
    }
}

/// The sum of the outputs that the first `n` inputs spend, where the store answers with all of
/// them, or the first other answer.
pub open spec fn spent_total(t: TransactionV, utxos: LookupMap, n: int) -> Result<nat, Seq<char>>
    decreases n,
{
    if n <= 0 {
        Ok(0)
    } else {
        match spent_total(t, utxos, n - 1) {
            Err(words) => Err(words),
            Ok(sum) => {
                let outpoint = outpoint_of(t.inputs[n - 1]);
                if !utxos.contains_key(outpoint) {
                    Err("UTXO not found"@)
                } else {
                    match utxos[outpoint] {
                        Err(words) => Err(words@),
                        Ok(utxo) => Ok(sum + utxo.value as nat),
                    }
                }
            },
        }
    }
}

/// What a transaction leaves to the miner, or why that cannot be told.
pub open spec fn fee_of(t: TransactionV, utxos: LookupMap) -> Result<nat, Seq<char>> {
    if coinbase_transaction(t) {
        Ok(0)
    } else {
        match spent_total(t, utxos, t.inputs.len() as int) {
            Err(words) => Err(words),
            Ok(total) => if total < output_sum(t.outputs) {
                Err("Insufficient input sum"@)
            } else if total - output_sum(t.outputs) > u64::MAX {
                Err("Overflow"@)
            } else {
                Ok((total - output_sum(t.outputs)) as nat)
            },
        }
    }
}

/// How many of the outputs are taken when they are taken in order until their values reach
/// `need`, given that `k` were taken before.
pub open spec fn taken_count(utxos: Seq<(OutPoint, TxOut)>, need: nat, k: nat) -> nat
    decreases utxos.len() - k,
{
    if k >= utxos.len() {
        k
    } else if value_sum(utxos.take(k as int + 1)) >= need {
        k + 1
    } else {
        taken_count(utxos, need, k + 1)
    }
}

/// The sum of the values of owned outputs.
pub open spec fn value_sum(utxos: Seq<(OutPoint, TxOut)>) -> nat
    decreases utxos.len(),
{
    if utxos.len() == 0 {
        0
    } else {
        value_sum(utxos.drop_last()) + utxos.last().1.value as nat
    }
}

/// The unsigned input that spends an output.
pub open spec fn unsigned_input(outpoint: OutPoint) -> TxInV {
    TxInV {
        prev_txid: outpoint.0,
        prev_index: outpoint.1,
        script_sig: Seq::empty(),
        sequence: 0xFFFF_FFFF,
    }
}

/// The unsigned transaction that spends `n` outputs worth `total`, pays `amount` to an address,
/// and the rest but for the fee back, where that is more than dust; or why there is none.
pub open spec fn unsigned_payment(
    utxos: Seq<(OutPoint, TxOut)>,
    n: nat,
    own_address: Seq<char>,
    to: Seq<char>,
    amount: u64,
    fee: u64,
) -> Result<TransactionV, Seq<char>> {
    let change = value_sum(utxos.take(n as int)) - amount - fee;
    let inputs = Seq::new(n, |i: int| unsigned_input(utxos[i].0));
    match p2pkh_output(to) {
        Err(words) => Err(words),
        Ok(recipient) => {
            let payment = TxOutV { value: amount, ..recipient };
            if change > DUST_LIMIT_LYT {
                match p2pkh_output(own_address) {
                    Err(words) => Err(words),
                    Ok(back) => Ok(
                        TransactionV {
                            version: 1,
                            inputs,
                            outputs: seq![payment, TxOutV { value: change as u64, ..back }],
                            locktime: 0,
                        },
                    ),
                }
            } else {
                Ok(TransactionV { version: 1, inputs, outputs: seq![payment], locktime: 0 })
            }
        },
    }
}

/// An input with its unlocking script replaced by the signature of a digest.
pub open spec fn signed_input(i: TxInV, w: WalletV, digest: Seq<u8>) -> TxInV {
    TxInV { script_sig: signed_script(w.secret_key, w.public_key, digest), ..i }
}

/// A transaction whose first `n` inputs are signed, each over the unsigned transaction.
pub open spec fn signed_apart(t: TransactionV, w: WalletV, n: int) -> TransactionV {
    TransactionV {
        inputs: Seq::new(
            t.inputs.len(),
            |i: int|
                if i < n {
                    signed_input(t.inputs[i], w, sighash_of(t, i))
                } else {
                    t.inputs[i]
                },
        ),
        ..t
    }
}

/// A transaction whose first `n` inputs are signed one after the other, each over the
/// transaction with the signatures before it.
pub open spec fn signed_in_turn(t: TransactionV, w: WalletV, n: int) -> TransactionV
    decreases n,
{
    if n <= 0 {
        t
    } else {
        let u = signed_in_turn(t, w, n - 1);
        TransactionV {
            inputs: u.inputs.update(
                n - 1,
                signed_input(u.inputs[n - 1], w, sighash_of(u, n - 1)),
            ),
            ..u
        }
    }
}

/// The payment of `amount` to an address from owned outputs, with each input signed over the
/// unsigned transaction; or why there is none.
pub open spec fn p2pkh_payment(
    w: WalletV,
    to: Seq<char>,
    amount: u64,
    fee: u64,
    utxos: Seq<(OutPoint, TxOut)>,
) -> Result<TransactionV, Seq<char>> {
    let n = taken_count(utxos, (amount + fee) as nat, 0);
    if value_sum(utxos.take(n as int)) < amount + fee {
        Err("Insufficient funds"@)
    } else {
        match unsigned_payment(utxos, n, w.address, to, amount, fee) {
            Err(words) => Err(words),
            Ok(t) => if n > 0 && signing_fault(w.secret_key) is Some {
                Err(signing_fault(w.secret_key)->0)
            } else {
                Ok(signed_apart(t, w, n as int))
            },
        }
    }
}

/// Whether an output pays to the public key of a wallet.
pub open spec fn pays_to(w: WalletV, o: TxOutV) -> bool {
    o.script_pubkey == p2pkh_of(w.miner_id@)
}

/// Takes outputs in order until their values reach `need`: the unsigned inputs that spend them,
/// and the sum of their values.
pub fn take_outputs(utxos: &[(OutPoint, TxOut)], need: u128) -> (r: (Vec<TxIn>, u128))
    ensures
        input_views(r.0@) == Seq::new(
            taken_count(utxos@, need as nat, 0),
            |i: int| unsigned_input(utxos@[i].0),
        ),
        r.0@.len() == taken_count(utxos@, need as nat, 0),
        r.1 == value_sum(utxos@.take(taken_count(utxos@, need as nat, 0) as int)),
        taken_count(utxos@, need as nat, 0) <= utxos@.len(),
        r.1 < need + 0x1_0000_0000_0000_0000,
{
    let mut inputs: Vec<TxIn> = Vec::new();
    let mut total: u128 = 0;
    let mut i: usize = 0;
    assert(utxos@.take(0) =~= Seq::<(OutPoint, TxOut)>::empty());
    while i < utxos.len()
        invariant
            i <= utxos@.len(),
            inputs@.len() == i,
            forall|j: int| 0 <= j < i ==> (#[trigger] inputs@[j])@ == unsigned_input(utxos@[j].0),
            total == value_sum(utxos@.take(i as int)),
            total <= i * 0xFFFF_FFFF_FFFF_FFFF,
            i == 0 || total < need,
            taken_count(utxos@, need as nat, 0) == taken_count(utxos@, need as nat, i as nat),
        decreases utxos@.len() - i,
    {
        let entry = &utxos[i];
        let input = TxIn {
            prev_txid: entry.0.0,
            prev_index: entry.0.1,
            script_sig: Vec::new(),
            sequence: 0xFFFF_FFFF,
        };
        inputs.push(input);
        assert(inputs@[i as int]@ =~= unsigned_input(utxos@[i as int].0));
        assert(utxos@.take(i + 1).drop_last() =~= utxos@.take(i as int));
        total = total + entry.1.value as u128;
        i += 1;
        if total >= need {
            assert(input_views(inputs@) =~= Seq::new(
                taken_count(utxos@, need as nat, 0),
                |i: int| unsigned_input(utxos@[i].0),
            ));
            return (inputs, total);
        }
    }
    assert(input_views(inputs@) =~= Seq::new(
        taken_count(utxos@, need as nat, 0),
        |i: int| unsigned_input(utxos@[i].0),
    ));
    (inputs, total)
}

/// The unsigned transaction that spends `inputs` worth `total`, pays `amount` to an address, and
/// the rest but for the fee back, where that is more than dust.
pub fn unsigned_transaction(
    inputs: Vec<TxIn>,
    total: u128,
    own_address: &str,
    to: &str,
    amount: u64,
    fee: u64,
    utxos: &[(OutPoint, TxOut)],
) -> (r: Result<Transaction, String>)
    requires
        amount + fee <= total < amount + fee + 0x1_0000_0000_0000_0000,
        inputs@.len() <= utxos@.len(),
        input_views(inputs@) == Seq::new(
            inputs@.len(),
            |i: int| unsigned_input(utxos@[i].0),
        ),
        total == value_sum(utxos@.take(inputs@.len() as int)),
    ensures
        match r {
            Ok(t) => unsigned_payment(utxos@, inputs@.len(), own_address@, to@, amount, fee)
                == Ok::<TransactionV, Seq<char>>(t@),
            Err(words) => unsigned_payment(
                utxos@,
                inputs@.len(),
                own_address@,
                to@,
                amount,
                fee,
            ) == Err::<TransactionV, Seq<char>>(words@),
        },
{
    let change: u64 = (total - amount as u128 - fee as u128) as u64;
    let mut outputs: Vec<TxOut> = Vec::new();
    let mut recipient = match TxOut::create_p2pkh(to) {
        Ok(out) => out,
        Err(words) => {
            return Err(words);
        },
    };
    recipient.value = amount;
    outputs.push(recipient);
    if change > DUST_LIMIT_LYT {
        let mut back = match TxOut::create_p2pkh(own_address) {
            Ok(out) => out,
            Err(words) => {
                return Err(words);
            },
        };
        back.value = change;
        outputs.push(back);
        assert(output_views(outputs@) =~= seq![recipient@, back@]);
    } else {
        assert(output_views(outputs@) =~= seq![recipient@]);
    }
    Ok(Transaction { version: 1, inputs, outputs, locktime: 0 })
}

impl Transaction {
    /// The transaction that pays out new coins in the block at `height`.
    pub fn coinbase(outputs: Vec<TxOut>, height: Height) -> (r: Self)
        ensures
            coinbase_transaction(r@),
            r@.version == 1,
            r@.inputs[0].script_sig == le_bytes(height as nat, 8),
            r@.inputs[0].sequence == 0xFFFF_FFFF,
            r@.outputs == output_views(outputs@),
            r@.locktime == 0,
    {
        let mut input = TxIn::coinbase();
        let mut script: Vec<u8> = Vec::new();
        push_le(&mut script, height, 8);
        assert(script@ =~= le_bytes(height as nat, 8));
        input.script_sig = script;
        let inputs: Vec<TxIn> = vec![input];
        let r = Transaction { version: 1, inputs, outputs, locktime: 0 };
        assert(r@.inputs[0] == input@);
        r
    }

    /// Appends the bytes of the transaction; the input at `blank` is written without its script.
    fn push_bytes(&self, data: &mut Vec<u8>, blank: Option<usize>)
        ensures
            final(data)@ == old(data)@ + transaction_bytes(
                self@,
                match blank {
                    Some(b) => b as int,
                    None => -1,
                },
            ),
    {
        let ghost hole: int = match blank {
            Some(b) => b as int,
            None => -1,
        };
        let ghost start = data@;
        push_le(data, self.version as u64, 4);
        push_le(data, self.inputs.len() as u64, 4);
        let ghost head = data@;
        let mut i: usize = 0;
        let ghost ins = self@.inputs;
        let ghost outs = self@.outputs;
        assert(ins.take(0) =~= Seq::<TxInV>::empty());
        while i < self.inputs.len()
            invariant
                i <= self.inputs@.len(),
                ins == self@.inputs,
                hole == match blank {
                    Some(b) => b as int,
                    None => -1,
                },
                data@ == head + inputs_bytes(ins.take(i as int), hole),
            decreases self.inputs@.len() - i,
        {
            let ghost before = data@;
            let input = &self.inputs[i];
            data.extend_from_slice(input.prev_txid.as_slice());
            push_le(data, input.prev_index as u64, 4);
            let skip: bool = match blank {
                Some(b) => b == i,
                None => false,
            };
            if skip {
                push_le(data, 0, 4);
            } else {
                push_le(data, input.script_sig.len() as u64, 4);
                data.extend_from_slice(input.script_sig.as_slice());
            }
            push_le(data, input.sequence as u64, 4);
            proof {
                assert(ins[i as int] == input@);
                assert(ins.take(i + 1).drop_last() =~= ins.take(i as int));
                assert(data@ =~= before + input_bytes(ins[i as int], i == hole));
                assert(data@ =~= head + inputs_bytes(ins.take(i + 1), hole));
            }
            i += 1;
        }
        assert(ins.take(i as int) =~= ins);
        push_le(data, self.outputs.len() as u64, 4);
        let ghost middle = data@;
        let mut j: usize = 0;
        assert(outs.take(0) =~= Seq::<TxOutV>::empty());
        while j < self.outputs.len()
            invariant
                j <= self.outputs@.len(),
                outs == self@.outputs,
                data@ == middle + outputs_bytes(outs.take(j as int)),
            decreases self.outputs@.len() - j,
        {
            let ghost before = data@;
            let output = &self.outputs[j];
            push_le(data, output.value, 8);
            push_le(data, output.script_pubkey.len() as u64, 4);
            data.extend_from_slice(output.script_pubkey.as_slice());
            proof {
                assert(outs[j as int] == output@);
                assert(outs.take(j + 1).drop_last() =~= outs.take(j as int));
                assert(data@ =~= before + output_bytes(outs[j as int]));
                assert(data@ =~= middle + outputs_bytes(outs.take(j + 1)));
            }
            j += 1;
        }
        assert(outs.take(j as int) =~= outs);
        push_le(data, self.locktime as u64, 4);
        assert(data@ =~= start + transaction_bytes(self@, hole));
    }

    /// The identifier of the transaction.
    pub fn compute_txid(&self) -> (r: Txid)
        ensures
            r@ == txid_of(self@),
    {
        let mut data: Vec<u8> = Vec::new();
        self.push_bytes(&mut data, None);
        assert(data@ =~= transaction_bytes(self@, -1));
        let once = sha256(data.as_slice());
        sha256(once.as_slice())
    }

    /// The identifier of the transaction. The cache is not asked.
    pub fn txid(&self, _argon2: &mut Argon2Cache) -> (r: Txid)
        ensures
            r@ == txid_of(self@),
            *final(_argon2) == *old(_argon2),
    {
        self.compute_txid()
    }

    /// Whether the transaction creates new coins.
    pub fn is_coinbase(&self) -> (r: bool)
        ensures
            r == coinbase_transaction(self@),
    {
        self.inputs.len() == 1 && self.inputs[0].is_coinbase()
    }

    /// The digest that input `input_index` signs.
    pub fn sighash(&self, input_index: usize) -> (r: [u8; 32])
        ensures
            r@ == sighash_of(self@, input_index as int),
    {
        let mut data: Vec<u8> = Vec::new();
        self.push_bytes(&mut data, Some(input_index));
        push_le(&mut data, 1, 4);
        assert(data@ =~= transaction_bytes(self@, input_index as int) + le_bytes(1, 4));
        let once = sha256(data.as_slice());
        sha256(once.as_slice())
    }

    /// Checks what can be told of the transaction by itself.
    pub fn validate_basic(&self) -> (r: Result<(), &'static str>)
        ensures
            match r {
                Ok(()) => basic_fault(self@) is None,
                Err(words) => basic_fault(self@) == Some(words@),
            },
    {
        if self.inputs.len() == 0 || self.outputs.len() == 0 {
            return Err("Empty transaction");
        }
        let ghost ins = self@.inputs;
        let ghost outs = self@.outputs;
        let mut seen: OrdSet<OutPoint> = OrdSet::new();
        let mut i: usize = 0;
        while i < self.inputs.len()
            invariant
                i <= self.inputs@.len(),
                ins == self@.inputs,
                ins.len() > 0,
                self@.outputs.len() > 0,
                forall|p: OutPoint| #[trigger]
                    seen@.contains(p) <==> exists|k: int|
                        0 <= k < i && !coinbase_input(#[trigger] ins[k]) && outpoint_of(ins[k])
                            == p,
                forall|a: int, b: int|
                    0 <= a < b < i && !coinbase_input(#[trigger] ins[a]) && !coinbase_input(
                        #[trigger] ins[b],
                    ) ==> outpoint_of(ins[a]) != outpoint_of(ins[b]),
            decreases self.inputs@.len() - i,
        {
            assert(ins[i as int] == self.inputs@[i as int]@);
            if !self.inputs[i].is_coinbase() {
                let outpoint = self.inputs[i].outpoint();
                if seen.contains(&outpoint) {
                    assert(spends_twice(ins));
                    return Err("Double spend within transaction");
                }
                let ghost was = seen@;
                seen.insert(outpoint);
                assert forall|p: OutPoint| #[trigger] seen@.contains(p) implies exists|k: int|
                    0 <= k < i + 1 && !coinbase_input(#[trigger] ins[k]) && outpoint_of(ins[k])
                        == p by {
                    if p == outpoint {
                        assert(!coinbase_input(ins[i as int]));
                    } else {
                        assert(was.contains(p));
                    }
                }
            }
            i += 1;
        }
        assert(!spends_twice(ins));
        let mut j: usize = 0;
        let mut total: u128 = 0;
        assert(outs.take(0) =~= Seq::<TxOutV>::empty());
        while j < self.outputs.len()
            invariant
                j <= self.outputs@.len(),
                outs == self@.outputs,
                self@.inputs.len() > 0,
                outs.len() > 0,
                !spends_twice(self@.inputs),
                forall|k: int| 0 <= k < j ==> (#[trigger] outs[k]).value >= DUST_LIMIT_LYT,
                total == output_sum(outs.take(j as int)),
                total <= j * 0xFFFF_FFFF_FFFF_FFFF,
            decreases self.outputs@.len() - j,
        {
            assert(outs[j as int] == self.outputs@[j as int]@);
            if self.outputs[j].is_dust() {
                return Err("Dust output");
            }
            assert(outs.take(j + 1).drop_last() =~= outs.take(j as int));
            total = total + self.outputs[j].value as u128;
            j += 1;
        }
        assert(outs.take(j as int) =~= outs);
        if total > MAX_SUPPLY_LYT as u128 {
            return Err("Output sum exceeds max supply");
        }
        Ok(())
    }

    /// The fee of the transaction, where it is valid against the outputs that it spends.
    pub fn validate(&self, utxos: &UtxoLookups) -> (r: Result<u64, &'static str>)
        ensures
            match r {
                Ok(fee) => validation(self@, utxos@) == Ok::<nat, Seq<char>>(fee as nat),
                Err(words) => validation(self@, utxos@) == Err::<nat, Seq<char>>(words@),
            },
    {
        match self.validate_basic() {
            Ok(()) => {},
            Err(words) => {
                return Err(words);
            },
        }
        if self.is_coinbase() {
            return Ok(0);
        }
        let ghost t = self@;
        let mut input_sum: u64 = 0;
        let mut i: usize = 0;
        while i < self.inputs.len()
            invariant
                i <= self.inputs@.len(),
                t == self@,
                basic_fault(t) is None,
                !coinbase_transaction(t),
                inputs_total(t, utxos@, 0, 0) == inputs_total(
                    t,
                    utxos@,
                    i as int,
                    input_sum as nat,
                ),
            decreases self.inputs@.len() - i,
        {
            let input = &self.inputs[i];
            assert(t.inputs[i as int] == input@);
            let utxo = match utxos.get(&input.outpoint()) {
                None => {
                    return Err("UTXO not found");
                },
                Some(Err(_)) => {
                    return Err("DB error");
                },
                Some(Ok(utxo)) => utxo,
            };
            input_sum = match input_sum.checked_add(utxo.value) {
                Some(sum) => sum,
                None => {
                    return Err("Overflow");
                },
            };
            if !input.verify(self, i, utxo) {
                return Err("Invalid signature");
            }
            i += 1;
        }
        let output_sum: u64 = self.total_output();
        if output_sum > input_sum {
            return Err("Outputs exceed inputs");
        }
        let fee: u64 = input_sum - output_sum;
        if fee < MINIMUM_FEE_LYT {
            return Err("Fee below minimum");
        }
        Ok(fee)
    }

    /// The sum of the outputs of a transaction that passed the basic checks.
    fn total_output(&self) -> (r: u64)
        requires
            basic_fault(self@) is None,
        ensures
            r == output_sum(self@.outputs),
    {
        let ghost outs = self@.outputs;
        let mut total: u64 = 0;
        let mut j: usize = 0;
        assert(outs.take(0) =~= Seq::<TxOutV>::empty());
        while j < self.outputs.len()
            invariant
                j <= self.outputs@.len(),
                outs == self@.outputs,
                output_sum(outs) <= MAX_SUPPLY_LYT,
                total == output_sum(outs.take(j as int)),
            decreases self.outputs@.len() - j,
        {
            assert(outs[j as int] == self.outputs@[j as int]@);
            assert(outs.take(j + 1).drop_last() =~= outs.take(j as int));
            proof {
                lemma_output_sum_take(outs, j + 1);
            }
            total = total + self.outputs[j].value;
            j += 1;
        }
        assert(outs.take(j as int) =~= outs);
        total
    }

    /// What the transaction leaves to the miner.
    pub fn fee(&self, utxos: &UtxoLookups) -> (r: Result<u64, String>)
        ensures
            match r {
                Ok(fee) => fee_of(self@, utxos@) == Ok::<nat, Seq<char>>(fee as nat),
                Err(words) => fee_of(self@, utxos@) == Err::<nat, Seq<char>>(words@),
            },
    {
        if self.is_coinbase() {
            return Ok(0);
        }
        let ghost t = self@;
        let mut input_sum: u128 = 0;
        let mut i: usize = 0;
        while i < self.inputs.len()
            invariant
                i <= self.inputs@.len(),
                t == self@,
                !coinbase_transaction(t),
                spent_total(t, utxos@, i as int) == Ok::<nat, Seq<char>>(input_sum as nat),
                input_sum <= i * 0xFFFF_FFFF_FFFF_FFFF,
            decreases self.inputs@.len() - i,
        {
            let outpoint = self.inputs[i].outpoint();
            assert(t.inputs[i as int] == self.inputs@[i as int]@);
            match utxos.get(&outpoint) {
                None => {
                    proof {
                        lemma_spent_total_stops(t, utxos@, i + 1, t.inputs.len() as int);
                    }
                    return Err("UTXO not found".to_string());
                },
                Some(Err(words)) => {
                    proof {
                        lemma_spent_total_stops(t, utxos@, i + 1, t.inputs.len() as int);
                    }
                    return Err(words.clone());
                },
                Some(Ok(utxo)) => {
                    input_sum = input_sum + utxo.value as u128;
                },
            }
            i += 1;
        }
        let ghost outs = self@.outputs;
        let mut output_sum: u128 = 0;
        let mut j: usize = 0;
        assert(outs.take(0) =~= Seq::<TxOutV>::empty());
        while j < self.outputs.len()
            invariant
                j <= self.outputs@.len(),
                outs == self@.outputs,
                output_sum == crate::block::output_sum(outs.take(j as int)),
                output_sum <= j * 0xFFFF_FFFF_FFFF_FFFF,
            decreases self.outputs@.len() - j,
        {
            assert(outs[j as int] == self.outputs@[j as int]@);
            assert(outs.take(j + 1).drop_last() =~= outs.take(j as int));
            output_sum = output_sum + self.outputs[j].value as u128;
            j += 1;
        }
        assert(outs.take(j as int) =~= outs);
        if input_sum < output_sum {
            return Err("Insufficient input sum".to_string());
        }
        let fee: u128 = input_sum - output_sum;
        if fee > u64::MAX as u128 {
            return Err("Overflow".to_string());
        }
        Ok(fee as u64)
    }

    /// The payment of `amount` to an address from owned outputs, with each input signed over the
    /// unsigned transaction. A single input that spends an output of the wallet is authorized.
    pub fn create_p2pkh(
        from: &Wallet,
        to: &str,
        amount: u64,
        fee: u64,
        utxos: Vec<(OutPoint, TxOut)>,
    ) -> (r: Result<Self, String>)
        ensures
            match r {
                Ok(t) => p2pkh_payment(from@, to@, amount, fee, utxos@) == Ok::<
                    TransactionV,
                    Seq<char>,
                >(t@),
                Err(words) => p2pkh_payment(from@, to@, amount, fee, utxos@) == Err::<
                    TransactionV,
                    Seq<char>,
                >(words@),
            },
            r is Ok && coherent(from@) && r->Ok_0@.inputs.len() == 1 && pays_to(
                from@,
                utxos@[0].1@,
            ) ==> authorized(r->Ok_0@.inputs[0], r->Ok_0@, 0, utxos@[0].1@),
    {
        let need: u128 = amount as u128 + fee as u128;
        let (inputs, input_sum) = take_outputs(utxos.as_slice(), need);
        if input_sum < need {
            return Err("Insufficient funds".to_string());
        }
        let mut tx = match unsigned_transaction(
            inputs,
            input_sum,
            from.address.as_str(),
            to,
            amount,
            fee,
            utxos.as_slice(),
        ) {
            Ok(tx) => tx,
            Err(words) => {
                return Err(words);
            },
        };
        let unsigned = tx.clone();
        let ghost t = tx@;
        let ghost n = t.inputs.len();
        assert(signed_apart(t, from@, 0) =~= t);
        let mut i: usize = 0;
        while i < tx.inputs.len()
            invariant
                i <= tx.inputs@.len(),
                n == tx.inputs@.len(),
                unsigned@ == t,
                n == t.inputs.len(),
                tx@ == signed_apart(t, from@, i as int),
                i > 0 ==> signing_fault(from@.secret_key) is None,
                p2pkh_payment(from@, to@, amount, fee, utxos@) == if n > 0 && signing_fault(
                    from@.secret_key,
                ) is Some {
                    Err::<TransactionV, Seq<char>>(signing_fault(from@.secret_key)->0)
                } else {
                    Ok(signed_apart(t, from@, n as int))
                },
                i > 0 && coherent(from@) ==> signature_proves(
                    from@,
                    tx@.inputs[0].script_sig,
                    sighash_of(t, 0),
                ),
            decreases tx.inputs@.len() - i,
        {
            let ghost before = tx@;
            assert(before.inputs[i as int] == tx.inputs@[i as int]@);
            match tx.inputs[i].sign(from, &unsigned, i) {
                Ok(()) => {},
                Err(words) => {
                    return Err(words);
                },
            }
            assert(tx@.inputs =~= before.inputs.update(
                i as int,
                signed_input(t.inputs[i as int], from@, sighash_of(t, i as int)),
            ));
            assert(tx@ =~= signed_apart(t, from@, i + 1));
            i += 1;
        }
        proof {
            if coherent(from@) && n == 1 && pays_to(from@, utxos@[0].1@) {
                lemma_blank_script(t, tx@, 0);
                lemma_pays_to(from@, utxos@[0].1@);
            }
        }
        Ok(tx)
    }
}

/// Whether an unlocking script holds the public key of a wallet and a signature of a digest that
/// verifies under it.
pub open spec fn signature_proves(w: WalletV, script: Seq<u8>, digest: Seq<u8>) -> bool {
    parsed_script(script) matches Some((sig, key)) && key == w.public_key && ecdsa_accepts(
        key,
        sig,
        digest,
    )
}

/// A script that a wallet signs parses into its signature and its public key.
pub proof fn lemma_signed_script_parses(w: WalletV, digest: Seq<u8>)
    requires
        w.public_key.len() == 33,
        ecdsa_signature(w.secret_key, digest).len() == 64,
    ensures
        parsed_script(signed_script(w.secret_key, w.public_key, digest)) == Some(
            (ecdsa_signature(w.secret_key, digest), w.public_key),
        ),
{
    let script = signed_script(w.secret_key, w.public_key, digest);
    let sig = ecdsa_signature(w.secret_key, digest);
    assert(script[0] == 64);
    assert(script[65] == 33);
    assert(script.subrange(1, 65) =~= sig);
    assert(script.subrange(66, 99) =~= w.public_key);
}

/// An output that pays to a wallet pays to the hash of its public key.
pub proof fn lemma_pays_to(w: WalletV, o: TxOutV)
    requires
        pays_to(w, o),
        coherent(w),
    ensures
        p2pkh_script(o.script_pubkey),
        o.script_pubkey.subrange(3, 23) == hash160(w.public_key),
{
    assert(o.script_pubkey.subrange(3, 23) =~= w.miner_id@);
}

/// The digest that an input signs does not depend on its own unlocking script.
pub proof fn lemma_blank_script(t: TransactionV, u: TransactionV, index: int)
    requires
        t.version == u.version,
        t.outputs == u.outputs,
        t.locktime == u.locktime,
        t.inputs.len() == u.inputs.len(),
        forall|i: int|
            0 <= i < t.inputs.len() && i != index ==> #[trigger] t.inputs[i] == u.inputs[i],
        0 <= index < t.inputs.len() ==> u.inputs[index] == (TxInV {
            script_sig: u.inputs[index].script_sig,
            ..t.inputs[index]
        }),
    ensures
        sighash_of(t, index) == sighash_of(u, index),
{
    lemma_blank_script_inputs(t.inputs, u.inputs, index);
}

proof fn lemma_blank_script_inputs(a: Seq<TxInV>, b: Seq<TxInV>, index: int)
    requires
        a.len() == b.len(),
        forall|i: int| 0 <= i < a.len() && i != index ==> #[trigger] a[i] == b[i],
        0 <= index < a.len() ==> b[index] == (TxInV {
            script_sig: b[index].script_sig,
            ..a[index]
        }),
    ensures
        inputs_bytes(a, index) == inputs_bytes(b, index),
    decreases a.len(),
{
    if a.len() > 0 {
        lemma_blank_script_inputs(a.drop_last(), b.drop_last(), index);
        assert(input_bytes(a.last(), a.len() - 1 == index) == input_bytes(
            b.last(),
            b.len() - 1 == index,
        ));
    }
}

proof fn lemma_output_sum_take(outs: Seq<TxOutV>, n: int)
    requires
        0 <= n <= outs.len(),
    ensures
        output_sum(outs.take(n)) <= output_sum(outs),
    decreases outs.len() - n,
{
    if n == outs.len() {
        assert(outs.take(n) =~= outs);
    } else {
        lemma_output_sum_take(outs, n + 1);
        assert(outs.take(n + 1).drop_last() =~= outs.take(n));
    }
}

proof fn lemma_spent_total_stops(t: TransactionV, utxos: LookupMap, m: int, n: int)
    requires
        m <= n,
        spent_total(t, utxos, m) is Err,
    ensures
        spent_total(t, utxos, n) == spent_total(t, utxos, m),
    decreases n - m,
{
    if m < n {
        lemma_spent_total_stops(t, utxos, m, n - 1);
    }
}

/// The values of outputs.
pub open spec fn output_values(outs: Seq<TxOutV>) -> Seq<nat> {
    outs.map_values(|o: TxOutV| o.value as nat)
}

/// The values of the outputs that a transaction spends, by what the store answers.
pub open spec fn spent_values(t: TransactionV, utxos: LookupMap) -> Seq<nat> {
    t.inputs.map_values(|i: TxInV| utxos[(i.prev_txid, i.prev_index)]->Ok_0.value as nat)
}

/// Whether the store answers with every output that a transaction spends.
pub open spec fn all_answered(t: TransactionV, utxos: LookupMap) -> bool {
    forall|i: int|
        0 <= i < t.inputs.len() ==> utxos.contains_key(
            ((#[trigger] t.inputs[i]).prev_txid, t.inputs[i].prev_index),
        ) && utxos[(t.inputs[i].prev_txid, t.inputs[i].prev_index)] is Ok
}

/// What outputs pay out is the sum of all their values.
pub proof fn law_outputs_add_up(outs: Seq<TxOutV>)
    ensures
        output_sum(outs) == sum_of(output_values(outs)),
    decreases outs.len(),
{
    let v = output_values(outs);
    if outs.len() == 0 {
        lemma_sum_push(Seq::<nat>::empty(), 0);
        assert(v =~= Seq::<nat>::empty());
    } else {
        law_outputs_add_up(outs.drop_last());
        let w = output_values(outs.drop_last());
        lemma_sum_push(w, outs.last().value as nat);
        assert(v =~= w.push(outs.last().value as nat));
    }
}

proof fn lemma_spent_adds_up(t: TransactionV, utxos: LookupMap, n: int)
    requires
        0 <= n <= t.inputs.len(),
    ensures
        spent_total(t, utxos, n) is Ok <==> forall|i: int|
            0 <= i < n ==> utxos.contains_key(
                ((#[trigger] t.inputs[i]).prev_txid, t.inputs[i].prev_index),
            ) && utxos[(t.inputs[i].prev_txid, t.inputs[i].prev_index)] is Ok,
        spent_total(t, utxos, n) is Ok ==> spent_total(t, utxos, n)->Ok_0 == sum_of(
            spent_values(t, utxos).take(n),
        ),
    decreases n,
{
    let v = spent_values(t, utxos);
    if n == 0 {
        lemma_sum_push(Seq::<nat>::empty(), 0);
        assert(v.take(0) =~= Seq::<nat>::empty());
    } else {
        lemma_spent_adds_up(t, utxos, n - 1);
        lemma_sum_push(v.take(n - 1), v[n - 1]);
        assert(v.take(n) =~= v.take(n - 1).push(v[n - 1]));
        let last = t.inputs[n - 1];
        assert(outpoint_of(last) == (last.prev_txid, last.prev_index));
    }
}

/// A transaction that creates no coins leaves to the miner what the outputs that it spends are
/// worth beyond those that it makes; its fee can be told exactly when the store answers with all of
/// them and they are worth no less.
pub proof fn law_fee_is_what_is_left(t: TransactionV, utxos: LookupMap)
    requires
        !coinbase_transaction(t),
    ensures
        fee_of(t, utxos) is Ok <==> all_answered(t, utxos) && sum_of(output_values(t.outputs))
            <= sum_of(spent_values(t, utxos)) && sum_of(spent_values(t, utxos)) - sum_of(
            output_values(t.outputs),
        ) <= u64::MAX,
        fee_of(t, utxos) is Ok ==> fee_of(t, utxos)->Ok_0 + sum_of(output_values(t.outputs))
            == sum_of(spent_values(t, utxos)),
{
    let n = t.inputs.len() as int;
    lemma_spent_adds_up(t, utxos, n);
    assert(spent_values(t, utxos).take(n) =~= spent_values(t, utxos));
    law_outputs_add_up(t.outputs);
}

/// In a valid transaction that creates no coins, the outputs spent are worth what it pays out and
/// its fee, the fee is at least the minimum, every input may spend its output, and no output is
/// spent twice.
pub proof fn law_valid_transaction_conserves(t: TransactionV, utxos: LookupMap)
    requires
        validation(t, utxos) is Ok,
        !coinbase_transaction(t),
    ensures
        spent_total(t, utxos, t.inputs.len() as int) == Ok::<nat, Seq<char>>(
            output_sum(t.outputs) + validation(t, utxos)->Ok_0,
        ),
        fee_of(t, utxos) == validation(t, utxos),
        validation(t, utxos)->Ok_0 >= MINIMUM_FEE_LYT,
        output_sum(t.outputs) <= MAX_SUPPLY_LYT,
        !spends_twice(t.inputs),
        forall|i: int|
            0 <= i < t.inputs.len() ==> #[trigger] utxos.contains_key(outpoint_of(t.inputs[i]))
                && utxos[outpoint_of(t.inputs[i])] is Ok && authorized(
                t.inputs[i],
                t,
                i,
                utxos[outpoint_of(t.inputs[i])]->Ok_0@,
            ),
{
    lemma_inputs_total(t, utxos, 0, 0);
}

proof fn lemma_inputs_total(t: TransactionV, utxos: LookupMap, i: int, sum: nat)
    requires
        0 <= i <= t.inputs.len(),
        sum <= u64::MAX,
        spent_total(t, utxos, i) == Ok::<nat, Seq<char>>(sum),
        inputs_total(t, utxos, i, sum) is Ok,
    ensures
        inputs_total(t, utxos, i, sum) == spent_total(t, utxos, t.inputs.len() as int),
        inputs_total(t, utxos, i, sum)->Ok_0 <= u64::MAX,
        forall|k: int|
            i <= k < t.inputs.len() ==> #[trigger] utxos.contains_key(outpoint_of(t.inputs[k]))
                && utxos[outpoint_of(t.inputs[k])] is Ok && authorized(
                t.inputs[k],
                t,
                k,
                utxos[outpoint_of(t.inputs[k])]->Ok_0@,
            ),
    decreases t.inputs.len() - i,
{
    if i < t.inputs.len() {
        let v = utxos[outpoint_of(t.inputs[i])]->Ok_0.value as nat;
        lemma_inputs_total(t, utxos, i + 1, sum + v);
    }
}

/// A block.
#[derive(Debug)]
pub struct Block {
    pub header: BlockHeader,
    pub transactions: Vec<Transaction>,
    pub signature: Option<Vec<u8>>,
    pub pubkey: Option<Vec<u8>>,
}

/// What a block holds.
#[verifier::ext_equal]
pub struct BlockV {
    pub header: BlockHeader,
    pub transactions: Seq<TransactionV>,
    pub signature: Option<Seq<u8>>,
    pub pubkey: Option<Seq<u8>>,
}

/// What a list of transactions holds.
pub open spec fn transaction_views(s: Seq<Transaction>) -> Seq<TransactionV> {
    s.map_values(|t: Transaction| t@)
}

/// The bytes that may be there.
pub open spec fn optional_bytes(b: Option<Vec<u8>>) -> Option<Seq<u8>> {
    match b {
        Some(bytes) => Some(bytes@),
        None => None,
    }
}

impl View for Block {
    type V = BlockV;

    open spec fn view(&self) -> BlockV {
        BlockV {
            header: self.header,
            transactions: transaction_views(self.transactions@),
            signature: optional_bytes(self.signature),
            pubkey: optional_bytes(self.pubkey),
        }
    }
}

/// A copy of a list of transactions.
pub fn clone_transactions(v: &Vec<Transaction>) -> (r: Vec<Transaction>)
    ensures
        transaction_views(r@) == transaction_views(v@),
{
    let mut r: Vec<Transaction> = Vec::new();
    let mut i: usize = 0;
    while i < v.len()
        invariant
            i <= v@.len(),
            r@.len() == i,
            forall|j: int| 0 <= j < i ==> (#[trigger] r@[j])@ == v@[j]@,
        decreases v@.len() - i,
    {
        r.push(v[i].clone());
        i += 1;
    }
    assert(transaction_views(r@) =~= transaction_views(v@));
    r
}

/// A copy of bytes that may be there.
pub fn clone_optional(v: &Option<Vec<u8>>) -> (r: Option<Vec<u8>>)
    ensures
        optional_bytes(r) == optional_bytes(*v),
{
    match v {
        Some(bytes) => Some(vec_of(bytes.as_slice())),
        None => None,
    }
}

impl Clone for Block {
    fn clone(&self) -> (r: Self)
        ensures
            r@ == self@,
    {
        Block {
            header: self.header,
            transactions: clone_transactions(&self.transactions),
            signature: clone_optional(&self.signature),
            pubkey: clone_optional(&self.pubkey),
        }
    }
}

} // verus!
