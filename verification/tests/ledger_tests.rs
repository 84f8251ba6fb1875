use broker_core::invariants::assert_monotonic_offset;
use broker_core::ledger::Ledger;
use std::sync::{Arc, Mutex};

#[test]
fn fresh_ledger_starts_at_zero() {
    let ledger = Ledger::new();
    assert_eq!(ledger.next_offset(), 0);
    assert!(!ledger.is_exhausted());
}

#[test]
fn assign_returns_counter_then_advances_by_one() {
    let mut ledger = Ledger::new();
    for expected in 0u64..1000 {
        assert_eq!(ledger.next_offset(), expected);
        assert_eq!(ledger.assign_offset(), expected);
        assert_eq!(ledger.next_offset(), expected + 1);
    }
}

#[test]
fn monotonic_check_accepts_increasing_offsets() {
    assert_monotonic_offset(0, 1);
    assert_monotonic_offset(41, 42);
    assert_monotonic_offset(0, u64::MAX);
}

/// Runs `callers` callers that each ask for `each` offsets, on one ledger
/// behind one lock, in the order that `pick` gives, and returns what each
/// caller got.
fn interleave(callers: usize, each: usize, mut pick: impl FnMut(usize) -> usize) -> Vec<Vec<u64>> {
    let ledger = Arc::new(Mutex::new(Ledger::new()));
    let mut got: Vec<Vec<u64>> = vec![Vec::new(); callers];
    let mut turn = 0usize;
    while got.iter().any(|mine| mine.len() < each) {
        let mut who = pick(turn) % callers;
        while got[who].len() == each {
            who = (who + 1) % callers;
        }
        let handle = Arc::clone(&ledger);
        let offset = handle.lock().unwrap().assign_offset();
        got[who].push(offset);
        turn += 1;
    }
    assert_eq!(ledger.lock().unwrap().next_offset(), (callers * each) as u64);
    got
}

fn assert_contiguous(got: &[Vec<u64>], callers: usize, each: usize) {
    let mut all = Vec::new();
    for mine in got {
        assert_eq!(mine.len(), each);
        for pair in mine.windows(2) {
            assert!(pair[0] < pair[1]);
        }
        all.extend_from_slice(mine);
    }
    all.sort();
    let expected: Vec<u64> = (0..(callers * each) as u64).collect();
    assert_eq!(all, expected);
}

#[test]
fn interleaved_callers_get_a_contiguous_range_without_duplicates() {
    let callers = 8usize;
    let each = 500usize;
    let round_robin = interleave(callers, each, |turn| turn);
    assert_contiguous(&round_robin, callers, each);

    let one_after_the_other = interleave(callers, each, |turn| turn / each);
    assert_contiguous(&one_after_the_other, callers, each);

    let mut state = 0x2545_f491_4f6c_dd1du64;
    let scrambled = interleave(callers, each, |_| {
        state ^= state << 13;
        state ^= state >> 7;
        state ^= state << 17;
        (state % 1000) as usize
    });
    assert_contiguous(&scrambled, callers, each);
}
