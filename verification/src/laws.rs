//! The laws of the search as a whole: match reports from adjacent blocks
//! compose, a sound and complete set of reports yields a correct final
//! report, and the search outcome is a function of its configuration alone.

use vstd::prelude::*;

use crate::manager::{
    lemma_sort_by_digit_len, lemma_sort_by_digit_multiset, lemma_sort_by_digit_sorted, report_of,
    sort_by_digit, sorted_by_digit,
};
use crate::messages::HashFound;
use crate::worker::{contains_digit, is_match, le_bytes, matches_of_range, sha256_of};

verus! {

/// A range that holds no index has no matches to report: the base case for
/// composing the reports of consecutive blocks.
pub proof fn lemma_matches_of_empty(lo: u128, zeroes: int)
    ensures
        matches_of_range(Seq::<HashFound>::empty(), lo, lo, zeroes),
{
}

/// The match reports of two adjacent ranges, in order, are the match reports
/// of the combined range: issuing blocks gap-free and in sequence loses no
/// match and keeps the reports ascending.
pub proof fn lemma_matches_concat(
    a: Seq<HashFound>,
    b: Seq<HashFound>,
    lo: u128,
    mid: u128,
    hi: u128,
    zeroes: int,
)
    requires
        lo <= mid <= hi,
        matches_of_range(a, lo, mid, zeroes),
        matches_of_range(b, mid, hi, zeroes),
    ensures
        matches_of_range(a + b, lo, hi, zeroes),
{
    let c = a + b;
    assert forall|j: int|
        0 <= j < c.len() implies lo <= #[trigger] c[j].digit < hi && c[j].hash@ == sha256_of(
        le_bytes(c[j].digit),
    ) && is_match(c[j].digit, zeroes) by {
        if j < a.len() {
            assert(c[j] == a[j]);
        } else {
            assert(c[j] == b[j - a.len()]);
        }
    }
    assert forall|j: int, k: int| 0 <= j < k < c.len() implies c[j].digit < c[k].digit by {
        if k < a.len() {
            assert(c[j] == a[j] && c[k] == a[k]);
        } else if j >= a.len() {
            assert(c[j] == b[j - a.len()] && c[k] == b[k - a.len()]);
        } else {
            assert(c[j] == a[j] && c[k] == b[k - a.len()]);
        }
    }
    assert forall|i: u128| lo <= i < hi && is_match(i, zeroes) implies contains_digit(c, i) by {
        if i < mid {
            let k = choose|k: int| 0 <= k < a.len() && a[k].digit == i;
            assert(c[k].digit == i);
        } else {
            let k = choose|k: int| 0 <= k < b.len() && b[k].digit == i;
            assert(c[a.len() + k].digit == i);
        }
    }
}

/// The coordinator reports correctly: if the aggregated reports are exactly
/// the matching indices below `bound` — each reported once, with its digest —
/// then the final report holds matching indices in strictly ascending order,
/// as many as required or as exist, and every matching index it omits is
/// greater than every one it holds: the report is the smallest matches.
pub proof fn lemma_report_correct(hashes: Seq<HashFound>, bound: u128, zeroes: int, records: int)
    requires
        0 <= records,
        forall|j: int|
            0 <= j < hashes.len() ==> #[trigger] hashes[j].digit < bound && hashes[j].hash@
                == sha256_of(le_bytes(hashes[j].digit)) && is_match(hashes[j].digit, zeroes),
        forall|i: u128| i < bound && is_match(i, zeroes) ==> contains_digit(hashes, i),
        forall|j: int, k: int| 0 <= j < k < hashes.len() ==> hashes[j].digit != hashes[k].digit,
    ensures
        ({
            let r = report_of(hashes, records);
            &&& r.len() == if records < hashes.len() {
                records
            } else {
                hashes.len() as int
            }
            &&& forall|j: int, k: int| 0 <= j < k < r.len() ==> r[j].digit < r[k].digit
            &&& forall|j: int|
                0 <= j < r.len() ==> #[trigger] r[j].digit < bound && r[j].hash@ == sha256_of(
                    le_bytes(r[j].digit),
                ) && is_match(r[j].digit, zeroes)
            &&& forall|i: u128|
                i < bound && is_match(i, zeroes) && !contains_digit(r, i) ==> forall|j: int|
                    0 <= j < r.len() ==> r[j].digit < i
        }),
{
    let s = sort_by_digit(hashes);
    lemma_sort_by_digit_len(hashes);
    lemma_sort_by_digit_sorted(hashes);
    lemma_sort_by_digit_multiset(hashes);
    hashes.to_multiset_ensures();
    s.to_multiset_ensures();
    // The sorted list holds the same records as the aggregate.
    assert forall|j: int| 0 <= j < s.len() implies hashes.contains(#[trigger] s[j]) by {
        assert(s.contains(s[j]));
        assert(s.to_multiset().count(s[j]) > 0);
    }
    assert forall|j: int|
        0 <= j < s.len() implies #[trigger] s[j].digit < bound && s[j].hash@ == sha256_of(
        le_bytes(s[j].digit),
    ) && is_match(s[j].digit, zeroes) by {
        let k = choose|k: int| 0 <= k < hashes.len() && hashes[k] == s[j];
    }
    // No index occurs twice in the aggregate, so none does after sorting.
    assert forall|j: int, k: int|
        0 <= j < hashes.len() && 0 <= k < hashes.len() && j != k implies hashes[j]
        != hashes[k] by {
        if j < k {
            assert(hashes[j].digit != hashes[k].digit);
        } else {
            assert(hashes[k].digit != hashes[j].digit);
        }
    }
    assert(hashes.no_duplicates());
    hashes.lemma_multiset_has_no_duplicates();
    s.lemma_multiset_has_no_duplicates_conv();
    assert forall|j: int, k: int| 0 <= j < k < s.len() implies s[j].digit != s[k].digit by {
        if s[j].digit == s[k].digit {
            assert(s[j] != s[k]);
            let p = choose|p: int| 0 <= p < hashes.len() && hashes[p] == s[j];
            let q = choose|q: int| 0 <= q < hashes.len() && hashes[q] == s[k];
            assert(p != q);
            assert(hashes[p].digit != hashes[q].digit);
        }
    }
    // Sorted with no repeated index: strictly ascending.
    assert(sorted_by_digit(s));
    assert forall|j: int, k: int| 0 <= j < k < s.len() implies s[j].digit < s[k].digit by {
        assert(s[j].digit <= s[k].digit);
    }
    // Every matching index below the bound stands somewhere in the sorted list.
    assert forall|i: u128| i < bound && is_match(i, zeroes) implies contains_digit(s, i) by {
        let k = choose|k: int| 0 <= k < hashes.len() && hashes[k].digit == i;
        assert(hashes.contains(hashes[k]));
        assert(hashes.to_multiset().count(hashes[k]) > 0);
        assert(s.contains(hashes[k]));
        let j = choose|j: int| 0 <= j < s.len() && s[j] == hashes[k];
        assert(s[j].digit == i);
    }
    // The report is a prefix of the sorted list; anything it omits lies
    // beyond its last entry.
    let r = report_of(hashes, records);
    assert forall|i: u128|
        i < bound && is_match(i, zeroes) && !contains_digit(r, i) implies forall|j: int|
        0 <= j < r.len() ==> r[j].digit < i by {
        let q = choose|q: int| 0 <= q < s.len() && s[q].digit == i;
        assert forall|j: int| 0 <= j < r.len() implies r[j].digit < i by {
            assert(r[j] == s[j]);
            if q < r.len() {
                assert(r[q] == s[q]);
                assert(contains_digit(r, i));
            }
            assert(j < q);
            assert(s[j].digit < s[q].digit);
        }
    }
}

/// Re-running the search yields the identical report: when two aggregates
/// are each the complete, unrepeated matches below their own explored bound,
/// and each holds at least the required count, the two sorted, truncated
/// reports are equal — even if the two runs explored different bounds.
pub proof fn lemma_rerun_identical(
    h1: Seq<HashFound>,
    bound1: u128,
    h2: Seq<HashFound>,
    bound2: u128,
    zeroes: int,
    records: int,
)
    requires
        0 <= records <= h1.len(),
        records <= h2.len(),
        forall|j: int|
            0 <= j < h1.len() ==> #[trigger] h1[j].digit < bound1 && h1[j].hash@ == sha256_of(
                le_bytes(h1[j].digit),
            ) && is_match(h1[j].digit, zeroes),
        forall|i: u128| i < bound1 && is_match(i, zeroes) ==> contains_digit(h1, i),
        forall|j: int, k: int| 0 <= j < k < h1.len() ==> h1[j].digit != h1[k].digit,
        forall|j: int|
            0 <= j < h2.len() ==> #[trigger] h2[j].digit < bound2 && h2[j].hash@ == sha256_of(
                le_bytes(h2[j].digit),
            ) && is_match(h2[j].digit, zeroes),
        forall|i: u128| i < bound2 && is_match(i, zeroes) ==> contains_digit(h2, i),
        forall|j: int, k: int| 0 <= j < k < h2.len() ==> h2[j].digit != h2[k].digit,
    ensures
        report_of(h1, records) == report_of(h2, records),
{
    lemma_report_correct(h1, bound1, zeroes, records);
    lemma_report_correct(h2, bound2, zeroes, records);
    let r1 = report_of(h1, records);
    let r2 = report_of(h2, records);
    assert(r1.len() == records);
    assert(r2.len() == records);
    // Each report omits no match below its own last entry: anything omitted
    // is greater than everything reported.
    assert forall|i: u128|
        -1 < i && is_match(i, zeroes) && r1.len() > 0 && i < r1[r1.len() - 1].digit
            implies contains_digit(r1, i) by {
        assert(r1[r1.len() - 1].digit < bound1);
        if !contains_digit(r1, i) {
            assert(r1[r1.len() - 1].digit < i);
        }
    }
    assert forall|i: u128|
        -1 < i && is_match(i, zeroes) && r2.len() > 0 && i < r2[r2.len() - 1].digit
            implies contains_digit(r2, i) by {
        assert(r2[r2.len() - 1].digit < bound2);
        if !contains_digit(r2, i) {
            assert(r2[r2.len() - 1].digit < i);
        }
    }
    lemma_search_deterministic(r1, r2, zeroes, -1);
}

/// The search outcome is determined by its configuration: two reports that
/// each list, in ascending order with its digest, matching indices above `lo`
/// and omit no matching index between `lo` and their last entry, and that
/// have the same length, are the same report. Digests are a function of the
/// index alone, so re-running the search with the same configuration yields
/// the identical result list.
pub proof fn lemma_search_deterministic(a: Seq<HashFound>, b: Seq<HashFound>, zeroes: int, lo: int)
    requires
        a.len() == b.len(),
        forall|j: int|
            0 <= j < a.len() ==> lo < #[trigger] a[j].digit && a[j].hash@ == sha256_of(
                le_bytes(a[j].digit),
            ) && is_match(a[j].digit, zeroes),
        forall|j: int|
            0 <= j < b.len() ==> lo < #[trigger] b[j].digit && b[j].hash@ == sha256_of(
                le_bytes(b[j].digit),
            ) && is_match(b[j].digit, zeroes),
        forall|j: int, k: int| 0 <= j < k < a.len() ==> a[j].digit < a[k].digit,
        forall|j: int, k: int| 0 <= j < k < b.len() ==> b[j].digit < b[k].digit,
        forall|i: u128|
            lo < i && is_match(i, zeroes) && a.len() > 0 && i < a[a.len() - 1].digit
                ==> contains_digit(a, i),
        forall|i: u128|
            lo < i && is_match(i, zeroes) && b.len() > 0 && i < b[b.len() - 1].digit
                ==> contains_digit(b, i),
    ensures
        a == b,
    decreases a.len(),
{
    broadcast use vstd::array::group_array_axioms;

    if a.len() == 0 {
        assert(a =~= b);
    } else {
        // The heads carry the same index: were one smaller, the other report
        // would have to contain it below its own first entry.
        if a[0].digit < b[0].digit {
            assert(b[0].digit <= b[b.len() - 1].digit);
            assert(contains_digit(b, a[0].digit));
            let k = choose|k: int| 0 <= k < b.len() && b[k].digit == a[0].digit;
            assert(b[0].digit <= b[k].digit);
            assert(false);
        }
        if b[0].digit < a[0].digit {
            assert(a[0].digit <= a[a.len() - 1].digit);
            assert(contains_digit(a, b[0].digit));
            let k = choose|k: int| 0 <= k < a.len() && a[k].digit == b[0].digit;
            assert(a[0].digit <= a[k].digit);
            assert(false);
        }
        assert(a[0].digit == b[0].digit);
        // Equal index, and the digest is a function of the index.
        assert(a[0].hash@ == b[0].hash@);
        assert(a[0].hash =~= b[0].hash);
        assert(a[0] == b[0]);
        // The tails are such enumerations above the head's index.
        let at = a.skip(1);
        let bt = b.skip(1);
        assert forall|i: u128|
            a[0].digit < i && is_match(i, zeroes) && at.len() > 0 && i < at[at.len() - 1].digit
                implies contains_digit(at, i) by {
            assert(at[at.len() - 1] == a[a.len() - 1]);
            assert(contains_digit(a, i));
            let k = choose|k: int| 0 <= k < a.len() && a[k].digit == i;
            assert(k > 0);
            assert(at[k - 1].digit == i);
        }
        assert forall|i: u128|
            b[0].digit < i && is_match(i, zeroes) && bt.len() > 0 && i < bt[bt.len() - 1].digit
                implies contains_digit(bt, i) by {
            assert(bt[bt.len() - 1] == b[b.len() - 1]);
            assert(contains_digit(b, i));
            let k = choose|k: int| 0 <= k < b.len() && b[k].digit == i;
            assert(k > 0);
            assert(bt[k - 1].digit == i);
        }
        lemma_search_deterministic(at, bt, zeroes, a[0].digit as int);
        assert forall|j: int| 0 <= j < a.len() implies a[j] == b[j] by {
            if j > 0 {
                assert(a[j] == at[j - 1]);
                assert(b[j] == bt[j - 1]);
            }
        }
        assert(a =~= b);
    }
}

} // verus!
