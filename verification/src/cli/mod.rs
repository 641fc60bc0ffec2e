//! The commands of the program and what they load.

use vstd::prelude::*;

pub mod batch_laws;
pub mod dirs;
pub mod genesis;
pub mod receipts;

verus! {

/// Commands to be executed
#[derive(Debug, Clone)]
pub enum Commands {
    /// Load the genesis state
    Genesis(genesis::Command),
    /// Load Receipts
    Receipts(receipts::Command),
}

impl Commands {
    /// The name by which the command is called.
    pub fn name(&self) -> (name: &'static str)
        ensures
            name@ == (match *self {
                Commands::Genesis(_) => "genesis"@,
                Commands::Receipts(_) => "receipts"@,
            }),
    {
        match self {
            Commands::Genesis(_) => "genesis",
            Commands::Receipts(_) => "receipts",
        }
    }

    /// The path of the file that the command loads.
    pub fn path(&self) -> (path: &String)
        ensures
            *path == (match *self {
                Commands::Genesis(c) => c.path,
                Commands::Receipts(c) => c.path,
            }),
    {
        match self {
            Commands::Genesis(c) => &c.path,
            Commands::Receipts(c) => &c.path,
        }
    }
}

} // verus!
