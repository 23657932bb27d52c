//! The configuration the search runs with, as plain values. The process
//! boundary parses the command line into this record and validates it there;
//! `is_valid` restates the one range the core itself depends on.

use vstd::prelude::*;

verus! {

/// The resolved configuration of one search run.
#[derive(Clone, Copy, Debug)]
pub struct Args {
    /// How many tail zeroes a hash should contain.
    pub count_zeroes: u8,
    /// How many hashes are required to be found.
    pub records: usize,
    /// Number of threads; `None` leaves the choice to the runtime, which
    /// defaults to the number of logical CPU cores.
    pub threads: Option<usize>,
    /// Enable trace messages.
    pub debug: bool,
}

impl Args {
    /// The zero-digit count lies in the range the predicate is defined on.
    pub fn is_valid(&self) -> (r: bool)
        ensures
            r == (1 <= self.count_zeroes <= 64),
    {
        1 <= self.count_zeroes && self.count_zeroes <= 64
    }
}

} // verus!
