//! The cryptographic primitives that other crates compute.
use vstd::prelude::*;

verus! {

/// The SHA-256 digest of a byte string.
pub uninterp spec fn sha256_of(data: Seq<u8>) -> Seq<u8>;

/// The RIPEMD-160 digest of a byte string.
pub uninterp spec fn ripemd160_of(data: Seq<u8>) -> Seq<u8>;

/// The Argon2id tag (version 0x13) of 32 bytes for a memory in KiB, a number of passes and a
/// number of lanes.
pub uninterp spec fn argon2id_of(
    memory_kb: u32,
    iterations: u32,
    lanes: u32,
    data: Seq<u8>,
    salt: Seq<u8>,
) -> Seq<u8>;

/// The base-58 text of a byte string, in the Bitcoin alphabet.
pub uninterp spec fn base58_text(data: Seq<u8>) -> Seq<char>;

/// The bytes that a base-58 text stands for, or the words that describe why there are none.
pub uninterp spec fn base58_bytes(text: Seq<char>) -> Result<Seq<u8>, Seq<char>>;

/// Whether a byte string is a secret key on secp256k1.
pub uninterp spec fn is_secret_key(bytes: Seq<u8>) -> bool;

/// The compressed public key of a secret key.
pub uninterp spec fn public_key_of(secret: Seq<u8>) -> Seq<u8>;

/// The compressed form of the public key that a byte string encodes.
pub uninterp spec fn parsed_public_key(bytes: Seq<u8>) -> Option<Seq<u8>>;

/// Whether a byte string is an ECDSA signature in compact form.
pub uninterp spec fn is_compact_signature(bytes: Seq<u8>) -> bool;

/// The compact ECDSA signature of a 32-byte digest by a secret key.
pub uninterp spec fn ecdsa_signature(secret: Seq<u8>, digest: Seq<u8>) -> Seq<u8>;

/// Whether a compact signature of a digest verifies under a compressed public key.
pub uninterp spec fn ecdsa_valid(
    public_key: Seq<u8>,
    signature: Seq<u8>,
    digest: Seq<u8>,
) -> bool;

/// What the secp256k1 crate says of bytes that are no secret key.
pub open spec fn secret_key_error_text() -> Seq<char> {
    "malformed or out-of-range secret key"@
}

/// `sha2::Sha256::digest`. The result is named: a digest is a function of the bytes.
#[verifier::external_body]
pub(crate) fn sha256(data: &[u8]) -> (r: [u8; 32])
    ensures
        r@ == sha256_of(data@),
{
    <sha2::Sha256 as sha2::Digest>::digest(data).into()
}

/// `ripemd::Ripemd160::digest`. The result is named: a digest is a function of the bytes.
#[verifier::external_body]
pub(crate) fn ripemd160(data: &[u8]) -> (r: [u8; 20])
    ensures
        r@ == ripemd160_of(data@),
{
    <ripemd::Ripemd160 as ripemd::Digest>::digest(data).into()
}

/// `argon2::Argon2::hash_password_into`, for the Argon2id variant, version 0x13, without a
/// secret, into 32 bytes. The result is named: the tag is a function of the arguments. The
/// conditions are those under which the parameters and the lengths are accepted; the memory is
/// bounded by what is known to be available.
#[verifier::external_body]
pub(crate) fn argon2id(
    memory_kb: u32,
    iterations: u32,
    lanes: u32,
    data: &[u8],
    salt: &[u8],
) -> (r: [u8; 32])
    requires
        8 <= memory_kb <= 262_144,
        memory_kb >= 8 * lanes,
        iterations >= 1,
        1 <= lanes <= 0xFF_FFFF,
        data@.len() <= 0xFFFF_FFFF,
        8 <= salt@.len() <= 0xFFFF_FFFF,
    ensures
        r@ == argon2id_of(memory_kb, iterations, lanes, data@, salt@),
{
    let mut out = [0u8; 32];
    let params = argon2::Params::new(memory_kb, iterations, lanes, Some(out.len())).unwrap();
    let hasher = argon2::Argon2::new(argon2::Algorithm::Argon2id, argon2::Version::V0x13, params);
    hasher.hash_password_into(data, salt, &mut out).unwrap();
    out
}

/// `bs58::encode(..).into_string`. The text is named, and decoding it gives the bytes back.
#[verifier::external_body]
pub(crate) fn base58_encode(data: &[u8]) -> (r: String)
    ensures
        r@ == base58_text(data@),
        base58_bytes(r@) is Ok && base58_bytes(r@)->Ok_0 == data@,
{
    bs58::encode(data).into_string()
}

/// `bs58::decode(..).into_vec`, with the error as its `Display` text. The result is named: it is
/// a function of the text.
#[verifier::external_body]
pub(crate) fn base58_decode(text: &str) -> (r: Result<Vec<u8>, String>)
    ensures
        match r {
            Ok(bytes) => base58_bytes(text@) is Ok && bytes@ == base58_bytes(text@)->Ok_0,
            Err(words) => base58_bytes(text@) is Err && words@ == base58_bytes(text@)->Err_0,
        },
{
    bs58::decode(text).into_vec().map_err(|e| e.to_string())
}

/// `secp256k1::SecretKey::from_slice`, as to whether it accepts the bytes, with the error as its
/// `Display` text. The answer is named; only strings of 32 bytes are accepted, and there is one
/// error.
#[verifier::external_body]
pub(crate) fn check_secret_key(bytes: &[u8]) -> (r: Result<(), String>)
    ensures
        r is Ok == is_secret_key(bytes@),
        r is Ok ==> bytes@.len() == 32,
        match r {
            Ok(_) => true,
            Err(words) => words@ == secret_key_error_text(),
        },
{
    secp256k1::SecretKey::from_slice(bytes).map(|_| ()).map_err(|e| e.to_string())
}

/// `secp256k1::PublicKey::from_secret_key` and its compressed bytes. The result is named, and
/// parsing it gives it back.
#[verifier::external_body]
pub(crate) fn derive_public_key(secret: &[u8]) -> (r: [u8; 33])
    requires
        is_secret_key(secret@),
    ensures
        r@ == public_key_of(secret@),
        parsed_public_key(r@) == Some(r@),
{
    let key = secp256k1::SecretKey::from_slice(secret).unwrap();
    secp256k1::PublicKey::from_secret_key(&secp256k1::Secp256k1::signing_only(), &key).serialize()
}

/// `secp256k1::PublicKey::from_slice` and the compressed bytes of the key. The result is named:
/// it is a function of the bytes; parsing the compressed bytes gives them back.
#[verifier::external_body]
pub(crate) fn parse_public_key(bytes: &[u8]) -> (r: Option<[u8; 33]>)
    ensures
        match r {
            Some(key) => parsed_public_key(bytes@) == Some(key@) && parsed_public_key(key@) == Some(
                key@,
            ),
            None => parsed_public_key(bytes@) is None,
        },
{
    secp256k1::PublicKey::from_slice(bytes).ok().map(|key| key.serialize())
}

/// `secp256k1::ecdsa::Signature::from_compact`, as to whether it accepts the bytes. The answer
/// is named; only strings of 64 bytes are accepted.
#[verifier::external_body]
pub(crate) fn compact_signature_accepted(bytes: &[u8]) -> (r: bool)
    ensures
        r == is_compact_signature(bytes@),
        r ==> bytes@.len() == 64,
{
    secp256k1::ecdsa::Signature::from_compact(bytes).is_ok()
}

/// `secp256k1::Secp256k1::sign_ecdsa` and the compact bytes of the signature. The result is
/// named: the nonce is derived from the key and the digest. A signature verifies under the
/// public key of the key that made it.
#[verifier::external_body]
pub(crate) fn sign_digest(secret: &[u8], digest: &[u8; 32]) -> (r: [u8; 64])
    requires
        is_secret_key(secret@),
    ensures
        r@ == ecdsa_signature(secret@, digest@),
        is_compact_signature(r@),
        ecdsa_valid(public_key_of(secret@), r@, digest@),
{
    let key = secp256k1::SecretKey::from_slice(secret).unwrap();
    let message = secp256k1::Message::from_digest_slice(digest).unwrap();
    secp256k1::Secp256k1::signing_only().sign_ecdsa(&message, &key).serialize_compact()
}

/// `secp256k1::Secp256k1::verify_ecdsa`, on a key and a signature in the form in which the crate
/// writes them. The answer is named: it is a function of the three values.
#[verifier::external_body]
pub(crate) fn verify_digest(key: &[u8; 33], signature: &[u8], digest: &[u8; 32]) -> (r: bool)
    requires
        parsed_public_key(key@) is Some,
        is_compact_signature(signature@),
    ensures
        r == ecdsa_valid(key@, signature@, digest@),
{
    let public = secp256k1::PublicKey::from_slice(key).unwrap();
    let sig = secp256k1::ecdsa::Signature::from_compact(signature).unwrap();
    let message = secp256k1::Message::from_digest_slice(digest).unwrap();
    secp256k1::Secp256k1::verification_only().verify_ecdsa(&message, &sig, &public).is_ok()
}

/// `secp256k1::Secp256k1::generate_keypair` with the generator of the operating system: a secret
/// key, and the compressed bytes of its public key. Which key is drawn is left to chance.
#[verifier::external_body]
pub(crate) fn draw_key_pair() -> (r: ([u8; 32], [u8; 33]))
    ensures
        is_secret_key(r.0@),
        r.1@ == public_key_of(r.0@),
        parsed_public_key(r.1@) == Some(r.1@),
{
    let context = secp256k1::Secp256k1::new();
    let (secret, public) = context.generate_keypair(&mut secp256k1::rand::rngs::OsRng);
    (secret.secret_bytes(), public.serialize())
}

} // verus!
