//! The configuration of a node.
use crate::constants::{MAX_PEERS, MINIMUM_BOND_LYT, P2P_PORT, RPC_PORT};
use vstd::prelude::*;

verus! {

#[derive(Debug)]
pub struct Config {
    pub network: NetworkConfig,
    pub mining: MiningConfig,
    pub rpc: RpcConfig,
    pub storage: StorageConfig,
    pub advanced: AdvancedConfig,
}

#[derive(Debug)]
pub struct NetworkConfig {
    pub port: u16,
    pub bootnodes: Vec<String>,
    pub max_peers: usize,
    pub seed_nodes: Vec<String>,
    pub dns_seeds: Vec<String>,
    pub enable_seed_discovery: bool,
    pub seed_connection_timeout_secs: u64,
}

#[derive(Debug, Clone, Copy, PartialEq, Eq)]
pub struct MiningConfig {
    pub enabled: bool,
    pub bond: u64,
    pub threads: usize,
}

#[derive(Debug, Clone, Copy, PartialEq, Eq)]
pub struct RpcConfig {
    pub enabled: bool,
    pub port: u16,
}

#[derive(Debug)]
pub struct StorageConfig {
    pub path: String,
    pub prune: bool,
}

#[derive(Debug, Clone, Copy, PartialEq, Eq)]
pub struct AdvancedConfig {
    pub max_mempool_size: usize,
    pub checkpoint_interval: u64,
    pub enable_attack_detection: bool,
    pub enable_ddos_protection: bool,
    pub max_checkpoints: usize,
    pub share_pool_memory_mb: usize,
    pub backup_interval_blocks: u64,
}

/// The texts of a list of strings.
pub open spec fn texts(s: Seq<String>) -> Seq<Seq<char>> {
    s.map_values(|t: String| t@)
}

impl Default for Config {
    fn default() -> (r: Self)
        ensures
            r.network.port == P2P_PORT,
            texts(r.network.bootnodes@) == seq!["seed.accum.network:30333"@],
            r.network.max_peers == MAX_PEERS,
            texts(r.network.seed_nodes@) == seq![
                "seed1.accum.network:30333"@,
                "seed2.accum.network:30333"@,
                "seed3.accum.network:30333"@,
                "seed4.accum.network:30333"@,
                "seed5.accum.network:30333"@,
            ],
            texts(r.network.dns_seeds@) == seq!["dnsseed.accum.network"@, "dnsseed.accum.org"@],
            r.network.enable_seed_discovery,
            r.network.seed_connection_timeout_secs == 10,
            r.mining == (MiningConfig { enabled: true, bond: MINIMUM_BOND_LYT, threads: 4 }),
            r.rpc == (RpcConfig { enabled: true, port: RPC_PORT }),
            r.storage.path@ == "~/.accum"@,
            !r.storage.prune,
            r.advanced == (AdvancedConfig {
                max_mempool_size: 10000,
                checkpoint_interval: 1000,
                enable_attack_detection: true,
                enable_ddos_protection: true,
                max_checkpoints: 100,
                share_pool_memory_mb: 500,
                backup_interval_blocks: 100,
            }),
    {
        let bootnodes: Vec<String> = vec!["seed.accum.network:30333".to_string()];
        let seed_nodes: Vec<String> = vec![
            "seed1.accum.network:30333".to_string(),
            "seed2.accum.network:30333".to_string(),
            "seed3.accum.network:30333".to_string(),
            "seed4.accum.network:30333".to_string(),
            "seed5.accum.network:30333".to_string(),
        ];
        let dns_seeds: Vec<String> = vec![
            "dnsseed.accum.network".to_string(),
            "dnsseed.accum.org".to_string(),
        ];
        assert(texts(bootnodes@) =~= seq!["seed.accum.network:30333"@]);
        assert(texts(seed_nodes@) =~= seq![
            "seed1.accum.network:30333"@,
            "seed2.accum.network:30333"@,
            "seed3.accum.network:30333"@,
            "seed4.accum.network:30333"@,
            "seed5.accum.network:30333"@,
        ]);
        assert(texts(dns_seeds@) =~= seq!["dnsseed.accum.network"@, "dnsseed.accum.org"@]);
        Config {
            network: NetworkConfig {
                port: P2P_PORT,
                bootnodes,
                max_peers: MAX_PEERS,
                seed_nodes,
                dns_seeds,
                enable_seed_discovery: true,
                seed_connection_timeout_secs: 10,
            },
            mining: MiningConfig { enabled: true, bond: MINIMUM_BOND_LYT, threads: 4 },
            rpc: RpcConfig { enabled: true, port: RPC_PORT },
            storage: StorageConfig { path: "~/.accum".to_string(), prune: false },
            advanced: AdvancedConfig {
                max_mempool_size: 10000,
                checkpoint_interval: 1000,
                enable_attack_detection: true,
                enable_ddos_protection: true,
                max_checkpoints: 100,
                share_pool_memory_mb: 500,
                backup_interval_blocks: 100,
            },
        }
    }
}

} // verus!
