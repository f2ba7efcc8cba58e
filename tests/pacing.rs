use mem_hog::ledger::PacingLedger;
use mem_hog::quantum::{quantum, work_nanos, Quantum, MAX_WRITE};

const SEC: u64 = 1_000_000_000;

#[test]
fn new_ledger_is_empty() {
    let l = PacingLedger::new(SEC, 42);
    assert_eq!(l.debt, 0);
    assert_eq!(l.loss, 0);
    assert_eq!(l.max_debt, SEC);
    assert_eq!(l.last_at, 42);
}

#[test]
fn update_adds_elapsed_time() {
    let mut l = PacingLedger::new(SEC, 100);
    assert_eq!(l.update(300), 200);
    assert_eq!(l.update(1_000), 900);
    assert_eq!(l.loss, 0);
    assert_eq!(l.last_at, 1_000);
}

#[test]
fn update_clamps_at_max_debt_and_counts_loss() {
    let mut l = PacingLedger::new(1_000, 0);
    assert_eq!(l.update(600), 600);
    assert_eq!(l.loss, 0);
    assert_eq!(l.update(1_500), 1_000);
    assert_eq!(l.loss, 500);
    assert_eq!(l.update(2_000), 1_000);
    assert_eq!(l.loss, 1_000);
    // debt plus loss is all the time that passed
    assert_eq!(l.debt + l.loss, 2_000);
}

#[test]
fn repeated_updates_never_exceed_max_debt() {
    let mut l = PacingLedger::new(5_000, 0);
    let mut prev = 0;
    for t in (0..100u64).map(|i| i * 997) {
        let d = l.update(t);
        assert!(d <= 5_000);
        assert!(d >= prev);
        prev = d;
    }
    assert_eq!(prev, 5_000);
    assert_eq!(l.loss, 99 * 997 - 5_000);
}

#[test]
fn clock_going_backwards_adds_nothing() {
    let mut l = PacingLedger::new(SEC, 1_000);
    assert_eq!(l.update(400), 0);
    assert_eq!(l.last_at, 400);
    assert_eq!(l.update(500), 100);
}

#[test]
fn pay_never_goes_below_zero() {
    let mut l = PacingLedger::new(SEC, 0);
    l.update(700);
    l.pay(200);
    assert_eq!(l.debt, 500);
    l.pay(u64::MAX);
    assert_eq!(l.debt, 0);
    l.pay(1);
    assert_eq!(l.debt, 0);
}

#[test]
fn zero_debt_sleeps_for_one_page() {
    assert_eq!(quantum(0, 1_000_000, 4096), Quantum::Sleep(4_096_000));
    assert_eq!(quantum(0, 3, 4096), Quantum::Sleep(4096 * SEC as u128 / 3));
}

#[test]
fn owed_bytes_become_whole_pages() {
    // one second at 1e6 bytes/s: 1e6 bytes, 244 whole pages
    assert_eq!(quantum(SEC, 1_000_000, 4096), Quantum::Pages(244));
    // exactly one page
    assert_eq!(quantum(4_096_000, 1_000_000, 4096), Quantum::Pages(1));
    // just under one page
    assert_eq!(quantum(4_095_000, 1_000_000, 4096), Quantum::Sleep(4_096_000));
}

#[test]
fn quantum_rounds_owed_bytes_to_nearest() {
    // 0.5 byte rounds up to 1
    assert_eq!(quantum(1, 500_000_000, 1), Quantum::Pages(1));
    // 0.4 byte rounds down to 0
    assert_eq!(quantum(1, 400_000_000, 1), Quantum::Sleep(2));
}

#[test]
fn quantum_is_capped_at_max_write() {
    assert_eq!(MAX_WRITE, 1 << 20);
    assert_eq!(quantum(100 * SEC, 1 << 30, 4096), Quantum::Pages(256));
    assert_eq!(quantum(u64::MAX, u64::MAX, 4096), Quantum::Pages(256));
    assert_eq!(quantum(u64::MAX, u64::MAX, 3), Quantum::Pages((1 << 20) / 3));
}

#[test]
fn work_nanos_is_time_at_rate() {
    assert_eq!(work_nanos(256, 4096, 1_000_000), 1_048_576_000);
    assert_eq!(work_nanos(1, 4096, 4096), SEC);
    assert_eq!(work_nanos(0, 4096, 7), 0);
    assert_eq!(work_nanos(u64::MAX, u64::MAX, 1), u64::MAX);
    assert_eq!(work_nanos(u64::MAX, 2, u64::MAX), 2 * SEC);
}

#[test]
fn next_quantum_and_pay_pages_run_an_iteration() {
    let mut l = PacingLedger::new(SEC, 0);
    assert_eq!(l.next_quantum(SEC / 2, 4096 * 100, 4096), Quantum::Pages(50));
    assert_eq!(l.debt, SEC / 2);
    l.pay_pages(50, 4096, 4096 * 100);
    assert_eq!(l.debt, 0);
    assert_eq!(l.next_quantum(SEC / 2 + 1, 4096 * 100, 4096), Quantum::Sleep(10_000_000));
}
