use libhf::is_zero_terminated;
use libhf::manager::{Manager, ManagerAction, ManagerBuilder, BLOCK_SIZE};
use libhf::messages::{HashFound, SearchInsideRange, WorkerReady};
use libhf::worker::Worker;
use sha2::{Digest, Sha256};

fn build_manager(records: usize, zeroes: u8) -> Manager {
    ManagerBuilder::default()
        .with_workers(1)
        .with_records(records)
        .with_zeroes(zeroes)
        .build()
}

/// Drives one coordinator and one worker to completion, the way the actor
/// runtime does: readiness signal in, dispatched block scanned, match reports
/// delivered before the block's completion signal.
fn drive(records: usize, zeroes: u8) -> Vec<HashFound> {
    let mut manager = build_manager(records, zeroes);
    let worker = Worker { zeroes };
    let mut signal = WorkerReady(None);
    loop {
        match manager.handle_worker_ready(signal) {
            ManagerAction::Dispatch(range) => {
                for found in worker.handle(range) {
                    manager.handle_hash_found(found);
                }
                signal = WorkerReady(Some(range));
            }
            ManagerAction::Stop => return manager.results(),
            ManagerAction::Wait => unreachable!("a single worker never has to wait"),
        }
    }
}

fn reference_digest(index: u128) -> [u8; 32] {
    Sha256::digest(index.to_le_bytes()).into()
}

#[test]
fn args_validity_range() {
    let mut args = libhf::arg::Args { count_zeroes: 1, records: 0, threads: None, debug: false };
    assert!(args.is_valid());
    args.count_zeroes = 64;
    assert!(args.is_valid());
    args.count_zeroes = 0;
    assert!(!args.is_valid());
    args.count_zeroes = 65;
    assert!(!args.is_valid());
}

#[test]
fn builder_sets_configuration() {
    let m = build_manager(3, 2);
    assert_eq!(m.workers_count, 1);
    assert_eq!(m.records, 3);
    assert_eq!(m.zeroes, 2);
    assert_eq!(m.blocks_calc.len(), 0);
    assert_eq!(m.hashes_found.len(), 0);
}

#[test]
fn blocks_are_issued_in_sequence() {
    let mut m = build_manager(5, 1);
    let first = m.handle_worker_ready(WorkerReady(None));
    let second = m.handle_worker_ready(WorkerReady(None));
    assert_eq!(
        first,
        ManagerAction::Dispatch(SearchInsideRange { start: 0, end: BLOCK_SIZE })
    );
    assert_eq!(
        second,
        ManagerAction::Dispatch(SearchInsideRange { start: BLOCK_SIZE, end: 2 * BLOCK_SIZE })
    );
    assert_eq!(m.blocks_calc.len(), 2);
}

#[test]
fn zero_records_stops_at_once() {
    let mut m = build_manager(0, 1);
    let action = m.handle_worker_ready(WorkerReady(None));
    assert_eq!(action, ManagerAction::Stop);
    assert_eq!(m.blocks_calc.len(), 0);
    assert!(m.results().is_empty());
}

#[test]
fn in_flight_blocks_drain_before_stop() {
    let mut m = build_manager(1, 1);
    // Two workers announce themselves: two blocks go out.
    let a0 = m.handle_worker_ready(WorkerReady(None));
    let a1 = m.handle_worker_ready(WorkerReady(None));
    let r0 = SearchInsideRange { start: 0, end: BLOCK_SIZE };
    let r1 = SearchInsideRange { start: BLOCK_SIZE, end: 2 * BLOCK_SIZE };
    assert_eq!(a0, ManagerAction::Dispatch(r0));
    assert_eq!(a1, ManagerAction::Dispatch(r1));
    // The target is reached while the second block is still in flight.
    m.handle_hash_found(HashFound { digit: 77, hash: [0u8; 32] });
    let after_first = m.handle_worker_ready(WorkerReady(Some(r0)));
    assert_eq!(after_first, ManagerAction::Wait);
    // Only when the last block drains does the coordinator stop.
    let after_second = m.handle_worker_ready(WorkerReady(Some(r1)));
    assert_eq!(after_second, ManagerAction::Stop);
}

#[test]
fn results_are_sorted_and_truncated() {
    let mut m = build_manager(2, 1);
    for digit in [5u128, 1, 9, 3] {
        m.handle_hash_found(HashFound { digit, hash: [digit as u8; 32] });
    }
    let r = m.results();
    assert_eq!(r.len(), 2);
    assert_eq!(r[0].digit, 1);
    assert_eq!(r[0].hash, [1u8; 32]);
    assert_eq!(r[1].digit, 3);
    assert_eq!(r[1].hash, [3u8; 32]);
}

#[test]
fn results_keep_all_when_fewer_than_required() {
    let mut m = build_manager(10, 1);
    for digit in [4u128, 2] {
        m.handle_hash_found(HashFound { digit, hash: [0u8; 32] });
    }
    let r = m.results();
    assert_eq!(r.len(), 2);
    assert_eq!(r[0].digit, 2);
    assert_eq!(r[1].digit, 4);
}

#[test]
fn worker_reports_real_digests() {
    // The first index whose digest ends in one zero nibble, found by hand.
    let mut first_match: u128 = 0;
    while reference_digest(first_match)[31] % 16 != 0 {
        first_match += 1;
    }
    let worker = Worker { zeroes: 1 };
    let found = worker.handle(SearchInsideRange { start: first_match, end: first_match + 1 });
    assert_eq!(found.len(), 1);
    assert_eq!(found[0].digit, first_match);
    assert_eq!(found[0].hash, reference_digest(first_match));
}

#[test]
fn worker_scan_matches_reference_scan() {
    let worker = Worker { zeroes: 2 };
    let found = worker.handle(SearchInsideRange { start: 0, end: 3000 });
    let expected: Vec<u128> = (0u128..3000).filter(|&i| reference_digest(i)[31] == 0).collect();
    let got: Vec<u128> = found.iter().map(|f| f.digit).collect();
    assert_eq!(got, expected);
    for f in &found {
        assert_eq!(f.hash, reference_digest(f.digit));
    }
}

#[test]
fn end_to_end_single_match() {
    let r = drive(1, 1);
    assert_eq!(r.len(), 1);
    // The reported index is the smallest matching one.
    for i in 0..r[0].digit {
        assert!(reference_digest(i)[31] % 16 != 0);
    }
    assert_eq!(r[0].hash, reference_digest(r[0].digit));
    assert!(is_zero_terminated(r[0].hash.as_slice(), 1));
    // The printed rendering of the digest is plain lowercase hex.
    let hex: String = r[0].hex_hash().into_iter().map(|b| b as char).collect();
    let expected: String = r[0].hash.iter().map(|b| format!("{:02x}", b)).collect();
    assert_eq!(hex, expected);
}

#[test]
fn end_to_end_zero_records() {
    let r = drive(0, 1);
    assert!(r.is_empty());
}

#[test]
fn rerun_is_identical() {
    let first = drive(3, 1);
    let second = drive(3, 1);
    assert_eq!(first.len(), 3);
    assert_eq!(first.len(), second.len());
    for (a, b) in first.iter().zip(second.iter()) {
        assert_eq!(a.digit, b.digit);
        assert_eq!(a.hash, b.hash);
    }
}
