//! Key management and signing.
use crate::block::{
    address_of, address_text, authorized, ecdsa_accepts, lemma_blank_script, lemma_pays_to,
    pays_to, sighash_of, signature_proves, signed_in_turn, signed_input, take_outputs,
    taken_count, unsigned_payment, unsigned_transaction, value_sum, Transaction, TransactionV,
    TxOut,
};
use crate::bytes::{array_of, vec_of};
use crate::primitives::{
    check_secret_key, compact_signature_accepted, derive_public_key, draw_key_pair,
    ecdsa_signature, is_secret_key, parse_public_key, parsed_public_key, public_key_of, ripemd160,
    ripemd160_of, secret_key_error_text, sha256, sha256_of, sign_digest, verify_digest,
};
use crate::text::{bytes_of_hex, decimal, hex_decode, is_hex, push_decimal};
use crate::types::{Hash32, MinerId, OutPoint};
use vstd::prelude::*;
use vstd::string::*;

verus! {

/// The RIPEMD-160 digest of the SHA-256 digest.
pub open spec fn hash160(data: Seq<u8>) -> Seq<u8> {
    ripemd160_of(sha256_of(data))
}

/// Why a secret key cannot sign.
pub open spec fn signing_fault(secret: Seq<u8>) -> Option<Seq<char>> {
    if secret.len() != 32 {
        Some("Invalid secret key"@)
    } else if !is_secret_key(secret) {
        Some(secret_key_error_text())
    } else {
        None
    }
}

/// The unlocking script: the signature of a digest and the public key, each behind the low byte
/// of its length.
pub open spec fn signed_script(secret: Seq<u8>, key: Seq<u8>, digest: Seq<u8>) -> Seq<u8> {
    let sig = ecdsa_signature(secret, digest);
    seq![(sig.len() % 256) as u8] + sig + seq![(key.len() % 256) as u8] + key
}

/// A key pair with its miner identifier and address.
#[derive(Debug)]
pub struct Wallet {
    pub secret_key: Vec<u8>,
    pub public_key: Vec<u8>,
    pub miner_id: MinerId,
    pub address: String,
}

/// What a wallet holds.
#[verifier::ext_equal]
pub struct WalletV {
    pub secret_key: Seq<u8>,
    pub public_key: Seq<u8>,
    pub miner_id: MinerId,
    pub address: Seq<char>,
}

impl View for Wallet {
    type V = WalletV;

    open spec fn view(&self) -> WalletV {
        WalletV {
            secret_key: self.secret_key@,
            public_key: self.public_key@,
            miner_id: self.miner_id,
            address: self.address@,
        }
    }
}

impl Clone for Wallet {
    fn clone(&self) -> (r: Self)
        ensures
            r@ == self@,
    {
        Wallet {
            secret_key: vec_of(self.secret_key.as_slice()),
            public_key: vec_of(self.public_key.as_slice()),
            miner_id: self.miner_id,
            address: self.address.clone(),
        }
    }
}

/// Whether the parts of a wallet belong together: the public key is that of the secret key, the
/// miner identifier is its hash, and the address is that of the identifier.
pub open spec fn coherent(w: WalletV) -> bool {
    &&& is_secret_key(w.secret_key)
    &&& w.secret_key.len() == 32
    &&& w.public_key == public_key_of(w.secret_key)
    &&& w.public_key.len() == 33
    &&& parsed_public_key(w.public_key) == Some(w.public_key)
    &&& w.miner_id@ == hash160(w.public_key)
    &&& w.address == address_of(w.miner_id@)
}

/// The file form of a wallet.
#[derive(Debug)]
pub struct WalletFile {
    pub private_key: String,
}

impl Wallet {
    /// A wallet with a fresh key pair.
    pub fn generate() -> (r: Result<Self, String>)
        ensures
            r is Ok,
            coherent(r->Ok_0@),
    {
        let (secret, public) = draw_key_pair();
        Ok(Self::assemble(&secret, &public))
    }

    fn assemble(secret: &[u8; 32], public: &[u8; 33]) -> (r: Self)
        requires
            is_secret_key(secret@),
            public@ == public_key_of(secret@),
            parsed_public_key(public@) == Some(public@),
        ensures
            coherent(r@),
            r@.secret_key == secret@,
    {
        let miner_id = Self::miner_id_from_pubkey(public);
        let address = Self::address_from_miner_id(&miner_id);
        Wallet {
            secret_key: vec_of(secret.as_slice()),
            public_key: vec_of(public.as_slice()),
            miner_id,
            address,
        }
    }

    /// The wallet of a secret key.
    pub fn from_secret_key(secret_bytes: &[u8]) -> (r: Result<Self, String>)
        ensures
            match r {
                Ok(w) => secret_bytes@.len() == 32 && is_secret_key(secret_bytes@) && coherent(w@)
                    && w@.secret_key == secret_bytes@,
                Err(words) => if secret_bytes@.len() != 32 {
                    words@ == "Invalid secret key length"@
                } else {
                    !is_secret_key(secret_bytes@) && words@ == "Invalid secret key"@
                },
            },
    {
        if secret_bytes.len() != 32 {
            return Err("Invalid secret key length".to_string());
        }
        let secret: [u8; 32] = array_of::<32>(secret_bytes);
        if check_secret_key(secret.as_slice()).is_err() {
            return Err("Invalid secret key".to_string());
        }
        let public = derive_public_key(secret.as_slice());
        Ok(Self::assemble(&secret, &public))
    }

    /// The wallet of a secret key in hexadecimal.
    pub fn from_hex(private_key: &[u8]) -> (r: Result<Self, String>)
        ensures
            match r {
                Ok(w) => is_hex(private_key@) && bytes_of_hex(private_key@).len() == 32
                    && is_secret_key(bytes_of_hex(private_key@)) && coherent(w@) && w@.secret_key
                    == bytes_of_hex(private_key@),
                Err(words) => if !is_hex(private_key@) {
                    words@ == "Invalid private key format"@
                } else if bytes_of_hex(private_key@).len() != 32 {
                    words@ == "Invalid secret key length"@
                } else {
                    !is_secret_key(bytes_of_hex(private_key@)) && words@ == "Invalid secret key"@
                },
            },
    {
        match hex_decode(private_key) {
            Some(secret) => Self::from_secret_key(secret.as_slice()),
            None => Err("Invalid private key format".to_string()),
        }
    }

    /// The miner identifier of a public key in compressed form.
    pub fn miner_id_from_pubkey(pubkey: &[u8; 33]) -> (r: MinerId)
        ensures
            r@ == hash160(pubkey@),
    {
        ripemd160(sha256(pubkey.as_slice()).as_slice())
    }

    /// The address of a miner.
    pub fn address_from_miner_id(miner_id: &MinerId) -> (r: String)
        ensures
            r@ == address_of(miner_id@),
    {
        address_text(miner_id.as_slice())
    }

    /// Whether a signature of the SHA-256 digest of a message verifies under a public key.
    pub fn verify_signature(pubkey_bytes: &[u8], signature: &[u8], message: &[u8]) -> (r: bool)
        ensures
            r == ((pubkey_bytes@.len() == 33 || pubkey_bytes@.len() == 65) && ecdsa_accepts(
                pubkey_bytes@,
                signature@,
                sha256_of(message@),
            )),
    {
        if pubkey_bytes.len() != 33 && pubkey_bytes.len() != 65 {
            return false;
        }
        let pubkey = match parse_public_key(pubkey_bytes) {
            Some(key) => key,
            None => {
                return false;
            },
        };
        let digest = sha256(message);
        if !compact_signature_accepted(signature) {
            return false;
        }
        verify_digest(&pubkey, signature, &digest)
    }

    /// The signature of a block hash.
    pub fn sign_block(&self, block_hash: &Hash32) -> (r: Result<Vec<u8>, String>)
        ensures
            match r {
                Ok(sig) => signing_fault(self@.secret_key) is None && sig@ == ecdsa_signature(
                    self@.secret_key,
                    block_hash@,
                ) && sig@.len() == 64,
                Err(words) => signing_fault(self@.secret_key) == Some(words@),
            },
            coherent(self@) ==> r is Ok && ecdsa_accepts(
                self@.public_key,
                r->Ok_0@,
                block_hash@,
            ),
    {
        self.sign(block_hash)
    }

    /// The signature of a digest. What the wallet signs verifies under its public key.
    pub fn sign(&self, message: &[u8; 32]) -> (r: Result<Vec<u8>, String>)
        ensures
            match r {
                Ok(sig) => signing_fault(self@.secret_key) is None && sig@ == ecdsa_signature(
                    self@.secret_key,
                    message@,
                ) && sig@.len() == 64,
                Err(words) => signing_fault(self@.secret_key) == Some(words@),
            },
            coherent(self@) ==> r is Ok && ecdsa_accepts(self@.public_key, r->Ok_0@, message@),
    {
        if self.secret_key.len() != 32 {
            return Err("Invalid secret key".to_string());
        }
        match check_secret_key(self.secret_key.as_slice()) {
            Ok(()) => {},
            Err(words) => {
                return Err(words);
            },
        }
        let sig = sign_digest(self.secret_key.as_slice(), message);
        Ok(vec_of(sig.as_slice()))
    }

    /// The bytes of the public key.
    pub fn public_key_bytes(&self) -> (r: &[u8])
        ensures
            r@ == self@.public_key,
    {
        self.public_key.as_slice()
    }

    /// The payment of `amount` to an address from owned outputs, with the inputs signed one after
    /// the other. A single input that spends an output of the wallet is authorized.
    pub fn create_simple_tx(
        &self,
        utxos: &[(OutPoint, TxOut)],
        to_address: &str,
        amount: u64,
        fee: u64,
    ) -> (r: Result<Transaction, String>)
        ensures
            match r {
                Ok(t) => simple_payment(self@, utxos@, to_address@, amount, fee) == Ok::<
                    TransactionV,
                    Seq<char>,
                >(t@),
                Err(words) => simple_payment(self@, utxos@, to_address@, amount, fee) == Err::<
                    TransactionV,
                    Seq<char>,
                >(words@),
            },
            r is Ok && coherent(self@) && r->Ok_0@.inputs.len() == 1 && pays_to(
                self@,
                utxos@[0].1@,
            ) ==> authorized(r->Ok_0@.inputs[0], r->Ok_0@, 0, utxos@[0].1@),
    {
        if amount == 0 {
            return Err("Amount must be greater than 0".to_string());
        }
        let need: u128 = amount as u128 + fee as u128;
        let (inputs, total_in) = take_outputs(utxos, need);
        if total_in < need {
            let mut words = "Insufficient funds. Need ".to_string();
            push_decimal(&mut words, need);
            words.append(" LYT, have ");
            push_decimal(&mut words, total_in);
            words.append(" LYT");
            assert(words@ =~= insufficient_funds_text(need as nat, total_in as nat));
            return Err(words);
        }
        let mut tx = match unsigned_transaction(
            inputs,
            total_in,
            self.address.as_str(),
            to_address,
            amount,
            fee,
            utxos,
        ) {
            Ok(tx) => tx,
            Err(words) => {
                return Err(words);
            },
        };
        let ghost t = tx@;
        let ghost n = t.inputs.len();
        let mut i: usize = 0;
        proof {
            assert(n > 0) by {
                if n == 0 {
                    assert(utxos@.take(0) =~= Seq::<(OutPoint, TxOut)>::empty());
                }
            }
        }
        while i < tx.inputs.len()
            invariant
                i <= tx.inputs@.len(),
                n == tx.inputs@.len(),
                n == t.inputs.len(),
                n > 0,
                tx@ == signed_in_turn(t, self@, i as int),
                i > 0 ==> signing_fault(self@.secret_key) is None,
                simple_payment(self@, utxos@, to_address@, amount, fee) == if signing_fault(
                    self@.secret_key,
                ) is Some {
                    Err::<TransactionV, Seq<char>>(signing_fault(self@.secret_key)->0)
                } else {
                    Ok(signed_in_turn(t, self@, n as int))
                },
                i == 1 && coherent(self@) ==> signature_proves(
                    self@,
                    tx@.inputs[0].script_sig,
                    sighash_of(t, 0),
                ),
            decreases tx.inputs@.len() - i,
        {
            let before = tx.clone();
            assert(before@.inputs[i as int] == tx.inputs@[i as int]@);
            match tx.inputs[i].sign(self, &before, i) {
                Ok(()) => {},
                Err(words) => {
                    return Err(words);
                },
            }
            assert(tx@.inputs =~= before@.inputs.update(
                i as int,
                signed_input(before@.inputs[i as int], self@, sighash_of(before@, i as int)),
            ));
            assert(tx@ =~= signed_in_turn(t, self@, i + 1));
            i += 1;
        }
        proof {
            if coherent(self@) && n == 1 && pays_to(self@, utxos@[0].1@) {
                reveal_with_fuel(signed_in_turn, 2);
                assert(tx@ == signed_in_turn(t, self@, 1));
                lemma_blank_script(t, tx@, 0);
                lemma_pays_to(self@, utxos@[0].1@);
            }
        }
        Ok(tx)
    }
}

/// The words that say that funds do not suffice.
pub open spec fn insufficient_funds_text(need: nat, have: nat) -> Seq<char> {
    "Insufficient funds. Need "@ + decimal(need) + " LYT, have "@ + decimal(have) + " LYT"@
}

/// The payment of `amount` to an address from owned outputs, with the inputs signed one after the
/// other; or why there is none.
pub open spec fn simple_payment(
    w: WalletV,
    utxos: Seq<(OutPoint, TxOut)>,
    to: Seq<char>,
    amount: u64,
    fee: u64,
) -> Result<TransactionV, Seq<char>> {
    let n = taken_count(utxos, (amount + fee) as nat, 0);
    let total = value_sum(utxos.take(n as int));
    if amount == 0 {
        Err("Amount must be greater than 0"@)
    } else if total < amount + fee {
        Err(insufficient_funds_text((amount + fee) as nat, total))
    } else {
        match unsigned_payment(utxos, n, w.address, to, amount, fee) {
            Err(words) => Err(words),
            Ok(t) => if signing_fault(w.secret_key) is Some {
                Err(signing_fault(w.secret_key)->0)
            } else {
                Ok(signed_in_turn(t, w, n as int))
            },
        }
    }
}

} // verus!
