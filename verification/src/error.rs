//! Errors.
use crate::text::{decimal, push_decimal};
use vstd::prelude::*;
use vstd::string::*;

verus! {

/// What can go wrong.
#[derive(Debug)]
pub enum Error {
    InvalidHeaderLength,
    InvalidPoW,
    InvalidTimestamp,
    InvalidPrevHash,
    InvalidMerkleRoot,
    InvalidCoinbase,
    InvalidEpoch,
    InvalidShare,
    InvalidShareLength,
    InvalidMinerId,
    StaleShare,
    TooManyShares,
    PrefilterRejected,
    ShareTargetNotMet,
    ShareError(String),
    InsufficientBond(u64),
    BondNotFound,
    BondLocked,
    InsufficientInput,
    DoubleSpend,
    InvalidSignature,
    P2p,
    PeerBanned,
    RateLimitExceeded,
    Storage,
    Database(String),
    KeyNotFound,
    Serialization,
    DeserializationFailed,
    /// The words of an error of the operating system.
    Io(String),
    Other(String),
}

/// The words of an error.
pub open spec fn error_text(e: Error) -> Seq<char> {
    match e {
        Error::InvalidHeaderLength => "Invalid header length: expected 120 bytes"@,
        Error::InvalidPoW => "Invalid block hash - PoW not met"@,
        Error::InvalidTimestamp => "Invalid timestamp"@,
        Error::InvalidPrevHash => "Invalid previous hash"@,
        Error::InvalidMerkleRoot => "Invalid merkle root"@,
        Error::InvalidCoinbase => "Invalid coinbase transaction"@,
        Error::InvalidEpoch => "Invalid epoch"@,
        Error::InvalidShare => "Invalid share"@,
        Error::InvalidShareLength => "Invalid share length: expected 180 bytes"@,
        Error::InvalidMinerId => "Invalid miner ID"@,
        Error::StaleShare => "Stale share - prev_hash mismatch"@,
        Error::TooManyShares => "Too many shares per miner"@,
        Error::PrefilterRejected => "Prefilter rejected"@,
        Error::ShareTargetNotMet => "Share target not met"@,
        Error::ShareError(words) => "Share error: "@ + words@,
        Error::InsufficientBond(amount) => "Insufficient bond - minimum "@ + decimal(
            amount as nat,
        ) + " LYT required"@,
        Error::BondNotFound => "Bond not found"@,
        Error::BondLocked => "Bond still locked"@,
        Error::InsufficientInput => "Insufficient input"@,
        Error::DoubleSpend => "Double spend"@,
        Error::InvalidSignature => "Invalid signature"@,
        Error::P2p => "P2P error"@,
        Error::PeerBanned => "Peer banned"@,
        Error::RateLimitExceeded => "Rate limit exceeded"@,
        Error::Storage => "Storage error"@,
        Error::Database(words) => "Database error: "@ + words@,
        Error::KeyNotFound => "Key not found"@,
        Error::Serialization => "Serialization error"@,
        Error::DeserializationFailed => "Deserialization failed"@,
        Error::Io(words) => "IO error: "@ + words@,
        Error::Other(words) => "Other error: "@ + words@,
    }
}

fn joined(head: &str, tail: &String) -> (r: String)
    ensures
        r@ == head@ + tail@,
{
    let mut r = head.to_string();
    r.append(tail.as_str());
    r
}

impl Error {
    /// The words of the error.
    pub fn message(&self) -> (r: String)
        ensures
            r@ == error_text(*self),
    {
        match self {
            Error::InvalidHeaderLength => "Invalid header length: expected 120 bytes".to_string(),
            Error::InvalidPoW => "Invalid block hash - PoW not met".to_string(),
            Error::InvalidTimestamp => "Invalid timestamp".to_string(),
            Error::InvalidPrevHash => "Invalid previous hash".to_string(),
            Error::InvalidMerkleRoot => "Invalid merkle root".to_string(),
            Error::InvalidCoinbase => "Invalid coinbase transaction".to_string(),
            Error::InvalidEpoch => "Invalid epoch".to_string(),
            Error::InvalidShare => "Invalid share".to_string(),
            Error::InvalidShareLength => "Invalid share length: expected 180 bytes".to_string(),
            Error::InvalidMinerId => "Invalid miner ID".to_string(),
            Error::StaleShare => "Stale share - prev_hash mismatch".to_string(),
            Error::TooManyShares => "Too many shares per miner".to_string(),
            Error::PrefilterRejected => "Prefilter rejected".to_string(),
            Error::ShareTargetNotMet => "Share target not met".to_string(),
            Error::ShareError(words) => joined("Share error: ", words),
            Error::InsufficientBond(amount) => {
                let mut r = "Insufficient bond - minimum ".to_string();
                push_decimal(&mut r, *amount as u128);
                r.append(" LYT required");
                r
            },
            Error::BondNotFound => "Bond not found".to_string(),
            Error::BondLocked => "Bond still locked".to_string(),
            Error::InsufficientInput => "Insufficient input".to_string(),
            Error::DoubleSpend => "Double spend".to_string(),
            Error::InvalidSignature => "Invalid signature".to_string(),
            Error::P2p => "P2P error".to_string(),
            Error::PeerBanned => "Peer banned".to_string(),
            Error::RateLimitExceeded => "Rate limit exceeded".to_string(),
            Error::Storage => "Storage error".to_string(),
            Error::Database(words) => joined("Database error: ", words),
            Error::KeyNotFound => "Key not found".to_string(),
            Error::Serialization => "Serialization error".to_string(),
            Error::DeserializationFailed => "Deserialization failed".to_string(),
            Error::Io(words) => joined("IO error: ", words),
            Error::Other(words) => joined("Other error: ", words),
        }
    }
}

} // verus!
