use op_reth::cli::dirs::{HeadersDbPath, StateDbPath};
use op_reth::cli::genesis::{GenesisConfig, Optimism};
use op_reth::cli::Commands;

#[test]
fn database_directories() {
    assert_eq!(HeadersDbPath::dir_name(), "headers-db");
    assert_eq!(StateDbPath::dir_name(), "state-db");
}

#[test]
fn commands_and_their_paths() {
    let genesis = Commands::Genesis(op_reth::cli::genesis::Command {
        path: String::from(op_reth::cli::genesis::Command::default_path()),
    });
    assert_eq!(genesis.name(), "genesis");
    assert_eq!(genesis.path(), "genesis.json");
    let receipts = Commands::Receipts(op_reth::cli::receipts::Command {
        path: String::from(op_reth::cli::receipts::Command::default_path()),
    });
    assert_eq!(receipts.name(), "receipts");
    assert_eq!(receipts.path(), "data/");
}

#[test]
fn genesis_config_holds_its_fields() {
    let config = GenesisConfig {
        chain_name: String::from("optimism"),
        chain_id: 10,
        homestead_block: 0,
        eip150_block: 0,
        eip150_hash: String::from("0x00"),
        eip155_block: 0,
        eip158_block: 0,
        byzantium_block: 0,
        constantinople_block: 0,
        petersburg_block: 0,
        istanbul_block: 0,
        muir_glacier_block: 0,
        berlin_block: 3950000,
        london_block: 105235063,
        arrow_glacier_block: 105235063,
        gray_glacier_block: 105235063,
        merge_netsplit_block: 105235063,
        bedrock_block: 105235063,
        terminal_total_difficulty: 0,
        terminal_total_difficulty_passed: true,
        optimism: Optimism { eip1559_elasticity: 6, eip1559_denominator: 50 },
    };
    let copy = config.clone();
    assert_eq!(copy.chain_id, 10);
    assert_eq!(copy.optimism.eip1559_denominator, 50);
    assert_eq!(copy.chain_name, "optimism");
}
