//! The signals exchanged between the coordinator and its workers, and the
//! record of one successful match.

use vstd::prelude::*;

verus! {

/// A worker found an index whose digest ends in the requested zeroes:
/// the index itself and its full 32-byte digest.
#[derive(Clone, Copy, Debug)]
pub struct HashFound {
    pub digit: u128,
    pub hash: [u8; 32],
}

/// The ASCII code of the lowercase hexadecimal digit for a nibble value.
pub open spec fn hex_digit(n: u8) -> u8
    recommends
        n < 16,
{
    if n < 10 {
        (n + 0x30) as u8
    } else {
        (n + 0x57) as u8
    }
}

impl HashFound {
    /// The digest as lowercase hexadecimal ASCII: two digits per byte, high
    /// nibble first, 64 bytes in all.
    pub fn hex_hash(&self) -> (r: Vec<u8>)
        ensures
            r@.len() == 64,
            forall|j: int|
                0 <= j < 32 ==> r@[2 * j] == hex_digit((self.hash@[j] / 16) as u8) && r@[2 * j + 1]
                    == hex_digit((self.hash@[j] % 16) as u8),
    {
        let mut r: Vec<u8> = Vec::new();
        let mut i: usize = 0;
        while i < 32
            invariant
                i <= 32,
                r@.len() == 2 * i,
                forall|j: int|
                    0 <= j < i ==> r@[2 * j] == hex_digit((self.hash@[j] / 16) as u8) && r@[2 * j
                        + 1] == hex_digit((self.hash@[j] % 16) as u8),
            decreases 32 - i,
        {
            let b = self.hash[i];
            let hi = b / 16;
            let lo = b % 16;
            r.push(if hi < 10 {
                hi + 0x30
            } else {
                hi + 0x57
            });
            r.push(if lo < 10 {
                lo + 0x30
            } else {
                lo + 0x57
            });
            i += 1;
        }
        r
    }
}

/// The coordinator assigns the half-open range of indices `[start, end)`
/// to a worker.
#[derive(Clone, Copy, Debug, PartialEq, Eq, Structural)]
pub struct SearchInsideRange {
    pub start: u128,
    pub end: u128,
}

/// A worker is ready for work. It carries the range the worker has just
/// finished, or `None` for the first, empty-handed readiness signal.
#[derive(Clone, Copy, Debug)]
pub struct WorkerReady(pub Option<SearchInsideRange>);

} // verus!
