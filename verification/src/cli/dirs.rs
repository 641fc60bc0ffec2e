//! The directories under the data directory that hold the two databases.

use vstd::prelude::*;

verus! {

/// The place of the headers database.
#[derive(Default, Debug, Clone)]
pub struct HeadersDbPath;

/// The place of the state database.
#[derive(Default, Debug, Clone)]
pub struct StateDbPath;

impl HeadersDbPath {
    /// Name of the directory, relative to the data directory.
    pub fn dir_name() -> (name: &'static str)
        ensures
            name@ == "headers-db"@,
    {
        "headers-db"
    }
}

impl StateDbPath {
    /// Name of the directory, relative to the data directory.
    pub fn dir_name() -> (name: &'static str)
        ensures
            name@ == "state-db"@,
    {
        "state-db"
    }
}

} // verus!
