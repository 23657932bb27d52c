//! The worker: it scans one assigned block of indices at a time, digesting
//! each index's little-endian byte encoding and reporting every index whose
//! digest ends in the required number of zero hexadecimal digits.

use vstd::prelude::*;

use crate::is_zero_terminated;
use crate::messages::{HashFound, SearchInsideRange};
use crate::tail_zeroes;

verus! {

/// The `j`-th byte, counting from the least significant, of `x`.
pub open spec fn byte_at(x: u128, j: int) -> u8
    decreases j,
{
    if j <= 0 {
        (x % 256) as u8
    } else {
        byte_at(x / 256, j - 1)
    }
}

/// The canonical little-endian 16-byte encoding of an index.
pub open spec fn le_bytes(x: u128) -> Seq<u8> {
    Seq::new(16, |j: int| byte_at(x, j))
}

/// What `sha2::Sha256::digest` returns for the given input bytes.
pub uninterp spec fn sha256_of(bytes: Seq<u8>) -> Seq<u8>;

/// Relies on sha2::Sha256::digest: a 32-byte digest that is a deterministic
/// function of the input bytes alone.
#[verifier::external_body]
fn sha256(bytes: &[u8]) -> (r: [u8; 32])
    ensures
        r@ == sha256_of(bytes@),
{
    <sha2::Sha256 as sha2::Digest>::digest(bytes).into()
}

/// The digest of index `i` ends in `zeroes` zero hexadecimal digits.
pub open spec fn is_match(i: u128, zeroes: int) -> bool {
    tail_zeroes(sha256_of(le_bytes(i)), zeroes)
}

/// Some record in `s` carries index `i`.
pub open spec fn contains_digit(s: Seq<HashFound>, i: u128) -> bool {
    exists|k: int| 0 <= k < s.len() && s[k].digit == i
}

/// The records in `s` are exactly the matches of `[lo, hi)`: every record
/// carries a matching index of that range with its digest, in strictly
/// ascending order, and every matching index of the range is reported.
pub open spec fn matches_of_range(s: Seq<HashFound>, lo: u128, hi: u128, zeroes: int) -> bool {
    &&& forall|j: int|
        0 <= j < s.len() ==> lo <= #[trigger] s[j].digit < hi && s[j].hash@ == sha256_of(
            le_bytes(s[j].digit),
        ) && is_match(s[j].digit, zeroes)
    &&& forall|j: int, k: int| 0 <= j < k < s.len() ==> s[j].digit < s[k].digit
    &&& forall|i: u128| lo <= i < hi && is_match(i, zeroes) ==> contains_digit(s, i)
}

/// The little-endian encoding of `x`, one byte at a time.
pub fn index_le_bytes(x: u128) -> (r: Vec<u8>)
    ensures
        r@ == le_bytes(x),
{
    let mut r: Vec<u8> = Vec::new();
    let mut v: u128 = x;
    while r.len() < 16
        invariant
            r@.len() <= 16,
            forall|k: int| 0 <= k < r@.len() ==> r@[k] == byte_at(x, k),
            forall|k: int| k >= 0 ==> byte_at(v, k) == byte_at(x, r@.len() + k),
        decreases 16 - r.len(),
    {
        let ghost n = r@.len() as int;
        let b = (v % 256) as u8;
        proof {
            assert(byte_at(v, 0) == (v % 256) as u8);
            assert forall|k: int| k >= 0 implies #[trigger] byte_at(v / 256, k) == byte_at(
                x,
                n + 1 + k,
            ) by {
                assert(byte_at(v, k + 1) == byte_at(v / 256, k));
                assert(byte_at(v, k + 1) == byte_at(x, n + k + 1));
            }
        }
        r.push(b);
        v = v / 256;
    }
    proof {
        assert(r@ =~= le_bytes(x));
    }
    r
}

/// A worker holds its fixed configuration: the number of trailing zero
/// hexadecimal digits a digest must have to count as a match.
pub struct Worker {
    pub zeroes: u8,
}

impl Worker {
    /// Scans the assigned block: for every index in `[msg.start, msg.end)` in
    /// ascending order, digests it and keeps it when the digest ends in
    /// `self.zeroes` zero hexadecimal digits. Returns the match reports the
    /// worker emits, in emission order: ascending by index, one report for
    /// every matching index of the block and for nothing else.
    pub fn handle(&self, msg: SearchInsideRange) -> (found: Vec<HashFound>)
        requires
            1 <= self.zeroes <= 64,
            msg.start <= msg.end,
        ensures
            matches_of_range(found@, msg.start, msg.end, self.zeroes as int),
    {
        let mut found: Vec<HashFound> = Vec::new();
        let mut i: u128 = msg.start;
        while i < msg.end
            invariant
                msg.start <= i <= msg.end,
                1 <= self.zeroes <= 64,
                forall|j: int|
                    0 <= j < found@.len() ==> msg.start <= #[trigger] found@[j].digit < i
                        && found@[j].hash@ == sha256_of(le_bytes(found@[j].digit)) && is_match(
                        found@[j].digit,
                        self.zeroes as int,
                    ),
                forall|j: int, k: int|
                    0 <= j < k < found@.len() ==> found@[j].digit < found@[k].digit,
                forall|m: u128|
                    msg.start <= m < i && is_match(m, self.zeroes as int) ==> exists|j: int|
                        0 <= j < found@.len() && found@[j].digit == m,
            decreases msg.end - i,
        {
            let bytes = index_le_bytes(i);
            let digest = sha256(bytes.as_slice());
            if is_zero_terminated(digest.as_slice(), self.zeroes as usize) {
                let ghost before = found@;
                found.push(HashFound { digit: i, hash: digest });
                proof {
                    assert forall|m: u128|
                        msg.start <= m < i + 1 && is_match(m, self.zeroes as int) implies exists|
                        j: int,
                    | 0 <= j < found@.len() && found@[j].digit == m by {
                        if m < i {
                            let j = choose|j: int| 0 <= j < before.len() && before[j].digit == m;
                            assert(found@[j].digit == m);
                        } else {
                            assert(found@[found@.len() - 1].digit == i);
                        }
                    }
                }
            } else {
                proof {
                    assert(!is_match(i, self.zeroes as int));
                }
            }
            i = i + 1;
        }
        found
    }
}

} // verus!
