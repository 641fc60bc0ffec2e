//! The genesis command and the configuration part of a genesis file.

use vstd::prelude::*;

verus! {

/// Genesis command
#[derive(Debug, Clone)]
pub struct Command {
    /// The path to the genesis file
    pub path: String,
}

impl Command {
    /// The path that is used where none is given.
    pub fn default_path() -> (path: &'static str)
        ensures
            path@ == "genesis.json"@,
    {
        "genesis.json"
    }
}

/// Optimism Object
#[derive(Debug, Clone)]
pub struct Optimism {
    pub eip1559_elasticity: u64,
    pub eip1559_denominator: u64,
}

/// The genesis inner config object
#[derive(Debug, Clone)]
pub struct GenesisConfig {
    pub chain_name: String,
    pub chain_id: u64,
    pub homestead_block: u64,
    pub eip150_block: u64,
    pub eip150_hash: String,
    pub eip155_block: u64,
    pub eip158_block: u64,
    pub byzantium_block: u64,
    pub constantinople_block: u64,
    pub petersburg_block: u64,
    pub istanbul_block: u64,
    pub muir_glacier_block: u64,
    pub berlin_block: u64,
    pub london_block: u64,
    pub arrow_glacier_block: u64,
    pub gray_glacier_block: u64,
    pub merge_netsplit_block: u64,
    pub bedrock_block: u64,
    pub terminal_total_difficulty: u64,
    pub terminal_total_difficulty_passed: bool,
    pub optimism: Optimism,
}

} // verus!
