use accum::block::BlockHeader;
use accum::crypto::{pow_hash, Argon2Cache};
use accum::types::Target;

/// Computed with the `argon2` and `sha2` crates alone.
const WORK_OF_ACCUM: [u8; 32] = [
    55, 58, 187, 144, 190, 82, 216, 78, 237, 217, 195, 113, 203, 100, 203, 167, 218, 17, 120, 141,
    34, 201, 51, 42, 100, 187, 88, 215, 193, 57, 227, 41,
];

fn header(nonce: u64) -> BlockHeader {
    BlockHeader {
        version: 1,
        prev_hash: [0u8; 32],
        merkle_root: [0u8; 32],
        timestamp: 1741353600,
        difficulty: Target([0xFF; 32]),
        nonce,
        epoch_index: 1,
    }
}

#[test]
fn work_of_known_bytes() {
    assert_eq!(pow_hash(b"accum"), WORK_OF_ACCUM);
}

#[test]
fn a_remembered_hash_is_the_hash() {
    let mut cache = Argon2Cache::new(10);
    assert_eq!(cache.hash_at(b"accum", 100), WORK_OF_ACCUM);
    assert_eq!(cache.hash_at(b"accum", 101), WORK_OF_ACCUM);
    let (hits, misses, _, timed) = cache.stats();
    assert_eq!((hits, misses, timed), (1, 1, 1));
}

#[test]
fn headers_are_hashed_through_the_cache() {
    let mut cache = Argon2Cache::new(10);
    let easy = header(7);
    let hash = easy.hash(&mut cache);
    assert_eq!(&hash[0..4], &[23, 3, 193, 211]);
    assert_eq!(header(0).hash_with_nonce(7, &mut cache), hash);
    assert!(easy.meets_target(&mut cache));
    let (hits, misses, _, _) = cache.stats();
    assert_eq!((hits, misses), (2, 1));
}

#[test]
fn the_prefilter_looks_at_a_digest_alone() {
    let bytes = header(0).to_bytes();
    assert!(Argon2Cache::prefilter(&bytes, 1, &Target([0xFF; 32])));
    assert!(!Argon2Cache::prefilter(&bytes, 1, &Target([0; 32])));
}
