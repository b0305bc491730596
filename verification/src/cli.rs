//! Command-line options of the service binary.

use vstd::prelude::*;

verus! {

/// Options accepted on the command line: whether to (re)initialize the
/// entity store, and how verbose to be.
#[derive(Debug, Clone, PartialEq, Eq)]
pub struct Cli {
    /// Initialize the database.
    pub init: bool,
    /// Verbosity, one level per repetition of the flag.
    pub verbose: u8,
}

impl Default for Cli {
    fn default() -> (r: Self)
        ensures
            !r.init && r.verbose == 0,
    {
        Cli { init: false, verbose: 0 }
    }
}

} // verus!
