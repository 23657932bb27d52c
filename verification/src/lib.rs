//! A brute-force search for integer indices whose digest ends in a requested
//! number of zero hexadecimal digits.
//!
//! The library holds the verified core: the trailing-zero predicate applied to
//! each digest, the coordinator that partitions the index space into blocks
//! and aggregates matches, and the worker scan over one block. The process
//! around it (argument parsing, the actor runtime, printing) lives outside.

use vstd::prelude::*;

pub mod arg;
pub mod laws;
pub mod manager;
pub mod messages;
pub mod worker;

verus! {

/// Length of a digest in bytes.
pub const SHA256_LENGTH_BYTES: usize = 32;

/// Length of a digest in hexadecimal digits.
pub const SHA256_LENGTH_CHARS: usize = 64;

/// The `k`-th hexadecimal digit of `digest`, counted from the end of its hex
/// rendering: digit 0 is the low nibble of the last byte, digit 1 the high
/// nibble of the last byte, digit 2 the low nibble of the next-to-last byte,
/// and so on.
pub open spec fn tail_nibble(digest: Seq<u8>, k: int) -> u8 {
    let b = digest[digest.len() - 1 - k / 2];
    if k % 2 == 0 {
        (b % 16) as u8
    } else {
        (b / 16) as u8
    }
}

/// The last `count` hexadecimal digits of `digest` are all zero.
pub open spec fn tail_zeroes(digest: Seq<u8>, count: int) -> bool {
    forall|k: int| 0 <= k < count ==> tail_nibble(digest, k) == 0
}

/// Returns true iff the trailing `count` hexadecimal digits of the 32-byte
/// digest `hash` are all zero. `count / 2` whole trailing bytes must be zero;
/// if `count` is odd, the low nibble of the byte just before them must be
/// zero as well.
pub fn is_zero_terminated(hash: &[u8], count: usize) -> (r: bool)
    requires
        hash@.len() == SHA256_LENGTH_BYTES,
        0 < count <= SHA256_LENGTH_CHARS,
    ensures
        r == tail_zeroes(hash@, count as int),
{
    let count_bytes = count / 2;
    let mut i: usize = SHA256_LENGTH_BYTES - count_bytes;
    while i < SHA256_LENGTH_BYTES
        invariant
            hash@.len() == SHA256_LENGTH_BYTES,
            0 < count <= SHA256_LENGTH_CHARS,
            count_bytes == count / 2,
            SHA256_LENGTH_BYTES - count_bytes <= i <= SHA256_LENGTH_BYTES,
            forall|j: int| SHA256_LENGTH_BYTES - count_bytes <= j < i ==> hash@[j] == 0,
        decreases SHA256_LENGTH_BYTES - i,
    {
        if hash[i] != 0 {
            proof {
                let b = hash@[i as int];
                let k = 2 * (31 - i as int);
                assert(b == 16 * (b / 16) + b % 16);
                if b % 16 != 0 {
                    assert(tail_nibble(hash@, k) != 0);
                } else {
                    assert(tail_nibble(hash@, k + 1) != 0);
                }
            }
            return false;
        }
        i += 1;
    }
    if count % 2 == 1 {
        let boundary = hash[SHA256_LENGTH_BYTES - 1 - count_bytes];
        if boundary % 16 != 0 {
            proof {
                let k = count - 1;
                assert(tail_nibble(hash@, k as int) != 0);
            }
            return false;
        }
    }
    proof {
        assert forall|k: int| 0 <= k < count implies tail_nibble(hash@, k) == 0 by {
            let bi = 31 - k / 2;
            assert(k == 2 * (k / 2) + k % 2);
            if k / 2 < count_bytes {
                assert(hash@[bi] == 0);
            } else {
                assert(k / 2 == count_bytes && count % 2 == 1 && k % 2 == 0);
                assert(hash@[bi] % 16 == 0);
            }
        }
    }
    true
}

/// An all-zero digest ends in any number of zero hexadecimal digits.
pub proof fn lemma_all_zero_digest(digest: Seq<u8>, count: int)
    requires
        digest.len() == 32,
        forall|i: int| 0 <= i < 32 ==> digest[i] == 0,
        1 <= count <= 64,
    ensures
        tail_zeroes(digest, count),
{
    assert forall|k: int| 0 <= k < count implies tail_nibble(digest, k) == 0 by {
        assert(digest[31 - k / 2] == 0);
    }
}

/// A digest whose very last hexadecimal digit is non-zero ends in no zero
/// hexadecimal digits at all.
pub proof fn lemma_no_tail_zero(digest: Seq<u8>, count: int)
    requires
        digest.len() == 32,
        digest[31] % 16 != 0,
        1 <= count <= 64,
    ensures
        !tail_zeroes(digest, count),
{
    assert(tail_nibble(digest, 0) != 0);
}

/// A digest whose last byte has a zero low nibble but a non-zero high nibble
/// ends in exactly one zero hexadecimal digit.
pub proof fn lemma_single_tail_zero(digest: Seq<u8>, count: int)
    requires
        digest.len() == 32,
        digest[31] % 16 == 0,
        digest[31] / 16 != 0,
        2 <= count <= 64,
    ensures
        tail_zeroes(digest, 1),
        !tail_zeroes(digest, count),
{
    assert(tail_nibble(digest, 0) == 0);
    assert(tail_nibble(digest, 1) != 0);
}

/// A digest whose last byte is zero but whose next-to-last byte has a
/// non-zero low nibble ends in exactly two zero hexadecimal digits.
pub proof fn lemma_even_tail_zeroes(digest: Seq<u8>, count: int)
    requires
        digest.len() == 32,
        digest[31] == 0,
        digest[30] % 16 != 0,
        3 <= count <= 64,
    ensures
        tail_zeroes(digest, 1),
        tail_zeroes(digest, 2),
        !tail_zeroes(digest, count),
{
    assert(tail_nibble(digest, 0) == 0);
    assert(tail_nibble(digest, 1) == 0);
    assert(tail_nibble(digest, 2) != 0);
}

} // verus!
