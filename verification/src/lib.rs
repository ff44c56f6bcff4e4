//! A verified proof-of-work ledger: targets, blocks, shares, rewards, peers and node state.
pub mod bytes;
pub mod collections;
pub mod constants;
pub mod types;
pub mod difficulty;
pub mod crypto;
pub mod primitives;
pub mod text;
pub mod block;
pub mod wallet;
pub mod merkle;
pub mod storage;
pub mod miner;
pub mod consensus;
pub mod config;
pub mod genesis;
pub mod network;
pub mod p2p;
pub mod mempool;
pub mod node;
pub mod mining;
pub mod chain;
pub mod error;
pub mod state;
pub mod transaction;
pub mod transaction_laws;
pub mod share;
pub mod median;
pub mod slash;
pub mod sync_shares;
pub mod epoch;
pub mod call_laws;
pub mod step_laws;
pub mod format_laws;
