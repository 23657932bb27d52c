//! The coordinator: it partitions the index space into fixed-size blocks,
//! tracks which issued blocks are still in flight, aggregates match reports,
//! and decides on every readiness signal whether to dispatch the next block,
//! wait for in-flight work, or stop.

use vstd::prelude::*;
use vstd::seq_lib::to_multiset_insert;

use crate::messages::{HashFound, SearchInsideRange, WorkerReady};

verus! {

/// Workers scan blocks of this many consecutive indices.
pub const BLOCK_SIZE: u128 = 100000;

/// The lifecycle of one issued block: it starts out in flight and is marked
/// finished exactly once, when the worker reports the block complete.
#[derive(Clone, Copy, Debug, PartialEq, Eq, Structural)]
pub enum BlockStatus {
    Started,
    Finished,
}

/// Some issued block is still in flight.
pub open spec fn has_started(blocks: Seq<BlockStatus>) -> bool {
    exists|i: int| 0 <= i < blocks.len() && blocks[i] is Started
}

/// The block table after a readiness signal: a signal that carries a finished
/// range marks that range's block finished, a bare readiness signal changes
/// nothing.
pub open spec fn mark_finished(blocks: Seq<BlockStatus>, msg: WorkerReady) -> Seq<BlockStatus> {
    match msg.0 {
        Option::Some(range) => blocks.update(
            range.start as int / (BLOCK_SIZE as int),
            BlockStatus::Finished,
        ),
        Option::None => blocks,
    }
}

/// What the coordinator does in response to one readiness signal.
#[derive(Clone, Copy, Debug, PartialEq, Eq, Structural)]
pub enum ManagerAction {
    /// Assign this range to the requesting worker.
    Dispatch(SearchInsideRange),
    /// Enough matches exist but some block is still in flight: let it drain.
    Wait,
    /// Enough matches exist and every issued block is finished: terminate.
    Stop,
}

/// Chain-builder for the coordinator's configuration.
#[derive(Debug, Clone, Copy)]
pub struct ManagerBuilder {
    pub workers_count: Option<usize>,
    pub records: Option<usize>,
    pub zeroes: Option<u8>,
}

impl Default for ManagerBuilder {
    fn default() -> (r: Self)
        ensures
            r.workers_count is None,
            r.records is None,
            r.zeroes is None,
    {
        ManagerBuilder { workers_count: None, records: None, zeroes: None }
    }
}

impl ManagerBuilder {
    /// Sets the number of workers.
    pub fn with_workers(self, workers_count: usize) -> (r: Self)
        ensures
            r.workers_count == Some(workers_count),
            r.records == self.records,
            r.zeroes == self.zeroes,
    {
        ManagerBuilder { workers_count: Some(workers_count), ..self }
    }

    /// Sets the number of required hashes to be found.
    pub fn with_records(self, records: usize) -> (r: Self)
        ensures
            r.records == Some(records),
            r.workers_count == self.workers_count,
            r.zeroes == self.zeroes,
    {
        ManagerBuilder { records: Some(records), ..self }
    }

    /// Sets the number of trailing zero hexadecimal digits required of a hash.
    pub fn with_zeroes(self, zeroes: u8) -> (r: Self)
        ensures
            r.zeroes == Some(zeroes),
            r.workers_count == self.workers_count,
            r.records == self.records,
    {
        ManagerBuilder { zeroes: Some(zeroes), ..self }
    }

    /// Builds the coordinator: every configuration value must have been set,
    /// and the zero-digit count must lie in the range the predicate is
    /// defined on — an out-of-range count is rejected at construction, not
    /// later. The block table and the match list start out empty.
    pub fn build(self) -> (m: Manager)
        requires
            self.workers_count is Some,
            self.records is Some,
            self.zeroes is Some,
            1 <= self.zeroes.unwrap() <= 64,
        ensures
            m.workers_count == self.workers_count.unwrap(),
            m.records == self.records.unwrap(),
            m.zeroes == self.zeroes.unwrap(),
            m.blocks_calc@ == Seq::<BlockStatus>::empty(),
            m.hashes_found@ == Seq::<HashFound>::empty(),
    {
        let m = Manager {
            workers_count: self.workers_count.unwrap(),
            records: self.records.unwrap(),
            zeroes: self.zeroes.unwrap(),
            hashes_found: Vec::new(),
            blocks_calc: Vec::new(),
        };
        proof {
            assert(m.blocks_calc@ =~= Seq::<BlockStatus>::empty());
            assert(m.hashes_found@ =~= Seq::<HashFound>::empty());
        }
        m
    }
}

/// The coordinator. It is the single owner of the block table and of the
/// matches found so far; every mutation goes through one of its handlers,
/// called one at a time.
pub struct Manager {
    /// Number of workers.
    pub workers_count: usize,
    /// Required number of hashes to be found.
    pub records: usize,
    /// Required number of trailing zero hexadecimal digits.
    pub zeroes: u8,
    /// Status of every block ever issued, in issuance order: block `k`
    /// covers `[k * BLOCK_SIZE, (k + 1) * BLOCK_SIZE)`.
    pub blocks_calc: Vec<BlockStatus>,
    /// Every match reported so far, in arrival order.
    pub hashes_found: Vec<HashFound>,
}

impl Manager {
    /// Handles one readiness signal. A signal carrying a finished range marks
    /// that block finished. Then: while fewer matches exist than required,
    /// the next sequential block is issued to the requesting worker; once
    /// enough exist, the coordinator stops if no block is in flight and
    /// otherwise lets in-flight work drain.
    pub fn handle_worker_ready(&mut self, msg: WorkerReady) -> (action: ManagerAction)
        requires
            match msg.0 {
                Option::Some(range) => range.start % BLOCK_SIZE == 0 && range.start / BLOCK_SIZE
                    < old(self).blocks_calc@.len(),
                Option::None => true,
            },
            old(self).blocks_calc@.len() < usize::MAX,
        ensures
            final(self).workers_count == old(self).workers_count,
            final(self).records == old(self).records,
            final(self).zeroes == old(self).zeroes,
            final(self).hashes_found == old(self).hashes_found,
            ({
                let blocks = mark_finished(old(self).blocks_calc@, msg);
                if old(self).hashes_found@.len() < old(self).records {
                    &&& final(self).blocks_calc@ == blocks.push(BlockStatus::Started)
                    &&& action == ManagerAction::Dispatch(
                        SearchInsideRange {
                            start: (blocks.len() * BLOCK_SIZE as int) as u128,
                            end: ((blocks.len() + 1) * BLOCK_SIZE as int) as u128,
                        },
                    )
                } else if !has_started(blocks) {
                    &&& final(self).blocks_calc@ == blocks
                    &&& action == ManagerAction::Stop
                } else {
                    &&& final(self).blocks_calc@ == blocks
                    &&& action == ManagerAction::Wait
                }
            }),
    {
        if let Some(range) = msg.0 {
            // The worker has finished this block: mark it finished.
            let index = (range.start / BLOCK_SIZE) as usize;
            self.blocks_calc[index] = BlockStatus::Finished;
        }
        if self.hashes_found.len() < self.records {
            // Fewer matches than required: issue the next sequential block.
            proof {
                assert(self.blocks_calc@.len() as u128 <= u64::MAX as u128);
            }
            let start = (self.blocks_calc.len() as u128) * BLOCK_SIZE;
            self.blocks_calc.push(BlockStatus::Started);
            ManagerAction::Dispatch(SearchInsideRange { start, end: start + BLOCK_SIZE })
        } else if !any_started(&self.blocks_calc) {
            ManagerAction::Stop
        } else {
            ManagerAction::Wait
        }
    }

    /// Handles one match report: the record joins the aggregate list.
    pub fn handle_hash_found(&mut self, msg: HashFound)
        ensures
            final(self).workers_count == old(self).workers_count,
            final(self).records == old(self).records,
            final(self).zeroes == old(self).zeroes,
            final(self).blocks_calc == old(self).blocks_calc,
            final(self).hashes_found@ == old(self).hashes_found@.push(msg),
    {
        self.hashes_found.push(msg);
    }

    /// The final report: the matches found, sorted by index ascending and
    /// truncated to the required record count (fewer only if fewer exist).
    pub fn results(&self) -> (r: Vec<HashFound>)
        ensures
            r@ == report_of(self.hashes_found@, self.records as int),
    {
        let mut sorted = sort_records(&self.hashes_found);
        proof {
            lemma_sort_by_digit_len(self.hashes_found@);
        }
        if self.records < sorted.len() {
            sorted.truncate(self.records);
        }
        sorted
    }
}

/// Some block in the table is still in flight.
fn any_started(blocks: &Vec<BlockStatus>) -> (r: bool)
    ensures
        r == has_started(blocks@),
{
    let mut i: usize = 0;
    while i < blocks.len()
        invariant
            i <= blocks@.len(),
            forall|j: int| 0 <= j < i ==> !(blocks@[j] is Started),
        decreases blocks@.len() - i,
    {
        if blocks[i] == BlockStatus::Started {
            return true;
        }
        i += 1;
    }
    false
}

/// Where `x` lands when inserted into `s` behind every element whose index is
/// no greater: the insertion step of a stable insertion sort by index.
pub open spec fn sorted_insert(s: Seq<HashFound>, x: HashFound) -> Seq<HashFound>
    decreases s.len(),
{
    if s.len() == 0 {
        seq![x]
    } else if s[0].digit <= x.digit {
        seq![s[0]] + sorted_insert(s.skip(1), x)
    } else {
        seq![x] + s
    }
}

/// Stable insertion sort of match records by index, ascending.
pub open spec fn sort_by_digit(s: Seq<HashFound>) -> Seq<HashFound>
    decreases s.len(),
{
    if s.len() == 0 {
        Seq::<HashFound>::empty()
    } else {
        sorted_insert(sort_by_digit(s.drop_last()), s.last())
    }
}

/// What the coordinator reports at termination: the aggregated matches,
/// sorted by index ascending, truncated to the first `records` entries.
pub open spec fn report_of(hashes: Seq<HashFound>, records: int) -> Seq<HashFound> {
    let sorted = sort_by_digit(hashes);
    if records < sorted.len() {
        sorted.take(records)
    } else {
        sorted
    }
}

/// The records stand in ascending index order.
pub open spec fn sorted_by_digit(s: Seq<HashFound>) -> bool {
    forall|j: int, k: int| 0 <= j < k < s.len() ==> s[j].digit <= s[k].digit
}

/// `sorted_insert` places `x` at the first position whose element has a
/// greater index.
proof fn lemma_sorted_insert_at(s: Seq<HashFound>, x: HashFound, p: int)
    requires
        0 <= p <= s.len(),
        forall|j: int| 0 <= j < p ==> s[j].digit <= x.digit,
        p < s.len() ==> s[p].digit > x.digit,
    ensures
        sorted_insert(s, x) == s.insert(p, x),
    decreases s.len(),
{
    if s.len() == 0 {
        assert(sorted_insert(s, x) =~= s.insert(0, x));
    } else if p == 0 {
        assert(sorted_insert(s, x) =~= s.insert(0, x));
    } else {
        lemma_sorted_insert_at(s.skip(1), x, p - 1);
        assert(sorted_insert(s, x) =~= s.insert(p, x));
    }
}

/// Sorting keeps the length.
pub proof fn lemma_sort_by_digit_len(s: Seq<HashFound>)
    ensures
        sort_by_digit(s).len() == s.len(),
    decreases s.len(),
{
    if s.len() > 0 {
        lemma_sort_by_digit_len(s.drop_last());
        lemma_sorted_insert_len(sort_by_digit(s.drop_last()), s.last());
    }
}

proof fn lemma_sorted_insert_len(s: Seq<HashFound>, x: HashFound)
    ensures
        sorted_insert(s, x).len() == s.len() + 1,
    decreases s.len(),
{
    if s.len() > 0 && s[0].digit <= x.digit {
        lemma_sorted_insert_len(s.skip(1), x);
    }
}

proof fn lemma_sorted_insert_sorted(s: Seq<HashFound>, x: HashFound)
    requires
        sorted_by_digit(s),
    ensures
        sorted_by_digit(sorted_insert(s, x)),
    decreases s.len(),
{
    lemma_sorted_insert_len(s, x);
    if s.len() > 0 && s[0].digit <= x.digit {
        lemma_sorted_insert_sorted(s.skip(1), x);
        lemma_sorted_insert_ge(s.skip(1), x);
        let r = seq![s[0]] + sorted_insert(s.skip(1), x);
        assert forall|j: int, k: int| 0 <= j < k < r.len() implies r[j].digit <= r[k].digit by {
            if j > 0 {
                assert(r[j] == sorted_insert(s.skip(1), x)[j - 1]);
                assert(r[k] == sorted_insert(s.skip(1), x)[k - 1]);
            }
        }
    }
}

/// Every element of the insertion's result is either `x` or one of `s`.
proof fn lemma_sorted_insert_ge(s: Seq<HashFound>, x: HashFound)
    ensures
        forall|j: int|
            0 <= j < sorted_insert(s, x).len() ==> #[trigger] sorted_insert(s, x)[j] == x || exists|
                k: int,
            | 0 <= k < s.len() && sorted_insert(s, x)[j] == s[k],
    decreases s.len(),
{
    lemma_sorted_insert_len(s, x);
    if s.len() > 0 && s[0].digit <= x.digit {
        lemma_sorted_insert_ge(s.skip(1), x);
        let r = seq![s[0]] + sorted_insert(s.skip(1), x);
        assert forall|j: int|
            0 <= j < r.len() implies #[trigger] r[j] == x || exists|k: int|
            0 <= k < s.len() && r[j] == s[k] by {
            if j == 0 {
                assert(r[0] == s[0]);
            } else {
                assert(r[j] == sorted_insert(s.skip(1), x)[j - 1]);
                if r[j] != x {
                    let k = choose|k: int|
                        0 <= k < s.skip(1).len() && sorted_insert(s.skip(1), x)[j - 1] == s.skip(
                            1,
                        )[k];
                    assert(r[j] == s[k + 1]);
                }
            }
        }
    }
}

/// Sorting keeps exactly the input records, as a multiset.
pub proof fn lemma_sort_by_digit_multiset(s: Seq<HashFound>)
    ensures
        sort_by_digit(s).to_multiset() == s.to_multiset(),
    decreases s.len(),
{
    if s.len() == 0 {
        assert(s =~= Seq::<HashFound>::empty());
    } else {
        let dl = s.drop_last();
        let x = s.last();
        lemma_sort_by_digit_multiset(dl);
        lemma_sorted_insert_multiset(sort_by_digit(dl), x);
        assert(sort_by_digit(s).to_multiset() == dl.to_multiset().insert(x));
        assert(dl.push(x) =~= s);
        assert(dl.push(x).to_multiset() =~= dl.to_multiset().insert(x)) by {
            dl.to_multiset_ensures();
        }
        assert(s.to_multiset() == dl.to_multiset().insert(x));
    }
}

/// The result of sorting is in ascending index order.
pub proof fn lemma_sort_by_digit_sorted(s: Seq<HashFound>)
    ensures
        sorted_by_digit(sort_by_digit(s)),
    decreases s.len(),
{
    if s.len() > 0 {
        lemma_sort_by_digit_sorted(s.drop_last());
        lemma_sorted_insert_sorted(sort_by_digit(s.drop_last()), s.last());
    }
}

proof fn lemma_sorted_insert_multiset(s: Seq<HashFound>, x: HashFound)
    ensures
        sorted_insert(s, x).to_multiset() == s.to_multiset().insert(x),
    decreases s.len(),
{
    lemma_sorted_insert_position(s, x);
    let p = choose|p: int|
        0 <= p <= s.len() && (forall|j: int| 0 <= j < p ==> s[j].digit <= x.digit) && (p < s.len()
            ==> s[p].digit > x.digit) && sorted_insert(s, x) == s.insert(p, x);
    to_multiset_insert(s, p, x);
}

/// There is a position at which `sorted_insert` inserts.
proof fn lemma_sorted_insert_position(s: Seq<HashFound>, x: HashFound)
    ensures
        exists|p: int|
            0 <= p <= s.len() && (forall|j: int| 0 <= j < p ==> s[j].digit <= x.digit) && (p
                < s.len() ==> s[p].digit > x.digit) && sorted_insert(s, x) == s.insert(p, x),
    decreases s.len(),
{
    if s.len() == 0 {
        lemma_sorted_insert_at(s, x, 0);
        assert(0 <= 0 <= s.len() && (forall|j: int| 0 <= j < 0 ==> s[j].digit <= x.digit) && (0
            < s.len() ==> s[0].digit > x.digit) && sorted_insert(s, x) == s.insert(0, x));
    } else if s[0].digit > x.digit {
        lemma_sorted_insert_at(s, x, 0);
        assert(0 <= 0 <= s.len() && (forall|j: int| 0 <= j < 0 ==> s[j].digit <= x.digit) && (0
            < s.len() ==> s[0].digit > x.digit) && sorted_insert(s, x) == s.insert(0, x));
    } else {
        lemma_sorted_insert_position(s.skip(1), x);
        let q = choose|q: int|
            0 <= q <= s.skip(1).len() && (forall|j: int|
                0 <= j < q ==> s.skip(1)[j].digit <= x.digit) && (q < s.skip(1).len() ==> s.skip(
                1,
            )[q].digit > x.digit) && sorted_insert(s.skip(1), x) == s.skip(1).insert(q, x);
        assert forall|j: int| 0 <= j < q + 1 implies s[j].digit <= x.digit by {
            if j > 0 {
                assert(s[j] == s.skip(1)[j - 1]);
            }
        }
        assert(q + 1 < s.len() ==> s[q + 1] == s.skip(1)[q]);
        lemma_sorted_insert_at(s, x, q + 1);
        assert(0 <= q + 1 <= s.len() && (forall|j: int| 0 <= j < q + 1 ==> s[j].digit <= x.digit)
            && (q + 1 < s.len() ==> s[q + 1].digit > x.digit) && sorted_insert(s, x) == s.insert(
            q + 1,
            x,
        ));
    }
}

/// Insertion sort of match records by index, ascending and stable.
pub fn sort_records(v: &Vec<HashFound>) -> (r: Vec<HashFound>)
    ensures
        r@ == sort_by_digit(v@),
{
    let mut out: Vec<HashFound> = Vec::new();
    let mut i: usize = 0;
    while i < v.len()
        invariant
            i <= v@.len(),
            out@ == sort_by_digit(v@.take(i as int)),
        decreases v@.len() - i,
    {
        let x = v[i];
        let ghost prev = out@;
        let mut p: usize = 0;
        while p < out.len() && out[p].digit <= x.digit
            invariant
                p <= out@.len(),
                out@ == prev,
                forall|j: int| 0 <= j < p ==> out@[j].digit <= x.digit,
            decreases out@.len() - p,
        {
            p += 1;
        }
        out.insert(p, x);
        proof {
            lemma_sorted_insert_at(prev, x, p as int);
            assert(v@.take(i + 1).drop_last() =~= v@.take(i as int));
            assert(v@.take(i + 1).last() == v@[i as int]);
        }
        i += 1;
    }
    proof {
        assert(v@.take(v@.len() as int) =~= v@);
    }
    out
}

} // verus!
