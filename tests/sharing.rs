use mem_hog::arena::{plan_write, GrowError, WritePlan, GROWTH_STEP};
use mem_hog::ledger::PacingLedger;
use mem_hog::quantum::Quantum;
use mem_hog::window::{reader_pages, reader_window, PageRange, ReadCursor};

const PAGE: u64 = 4096;

#[test]
fn three_readers_split_ten_pages() {
    assert_eq!(reader_window(10, 0, 3), PageRange { start: 0, end: 3 });
    assert_eq!(reader_window(10, 1, 3), PageRange { start: 3, end: 7 });
    assert_eq!(reader_window(10, 2, 3), PageRange { start: 7, end: 10 });
}

#[test]
fn windows_cover_written_pages_without_gaps() {
    for count in 1..=7u64 {
        for total in [0u64, 1, 2, 5, 99, 1000, 123_457] {
            let mut next = 0;
            for i in 0..count {
                let w = reader_window(total, i, count);
                assert_eq!(w.start, next);
                assert!(w.start <= w.end && w.end <= total);
                next = w.end;
            }
            assert_eq!(next, total);
        }
    }
}

#[test]
fn window_of_huge_total() {
    let w = reader_window(u64::MAX, 1, 2);
    assert_eq!(w, PageRange { start: u64::MAX / 2 + 1, end: u64::MAX });
}

#[test]
fn empty_window_is_skipped() {
    assert_eq!(reader_pages(0, 0, 1), None);
    assert_eq!(reader_pages(1, 0, 3), None);
    assert_eq!(reader_pages(1, 1, 3), Some(PageRange { start: 0, end: 1 }));
    assert_eq!(reader_pages(1, 2, 3), None);
}

#[test]
fn cursor_wraps_within_window() {
    let mut c = ReadCursor::new();
    let w = PageRange { start: 5, end: 8 };
    let pages: Vec<u64> = (0..7).map(|_| c.next_page(w)).collect();
    assert_eq!(pages, vec![5, 6, 7, 5, 6, 7, 5]);
    // a window that shrank below the cursor still keeps reads inside it
    let mut c = ReadCursor { pos: 10 };
    assert_eq!(c.next_page(PageRange { start: 2, end: 6 }), 4);
    assert_eq!(c.pos, 3);
}

#[test]
fn first_write_grows_arena_to_a_whole_step() {
    assert_eq!(GROWTH_STEP, 1 << 30);
    assert_eq!(
        plan_write(0, 10, 0, PAGE),
        Ok(WritePlan { start: 0, end: 10, grow_to: Some(1 << 30) })
    );
}

#[test]
fn write_within_arena_needs_no_growth() {
    assert_eq!(
        plan_write(100, 256, 1 << 30, PAGE),
        Ok(WritePlan { start: 100, end: 356, grow_to: None })
    );
    // exactly full
    let pages = (1u64 << 30) / PAGE;
    assert_eq!(
        plan_write(0, pages, 1 << 30, PAGE),
        Ok(WritePlan { start: 0, end: pages, grow_to: None })
    );
}

#[test]
fn write_past_arena_grows_to_next_step() {
    let pages = (1u64 << 30) / PAGE;
    assert_eq!(
        plan_write(pages, 1, 1 << 30, PAGE),
        Ok(WritePlan { start: pages, end: pages + 1, grow_to: Some(2 << 30) })
    );
}

#[test]
fn write_beyond_addressable_size_fails() {
    assert_eq!(plan_write(u64::MAX, 1, 0, 1), Err(GrowError::TooLarge));
    assert_eq!(plan_write(1 << 52, 1, 0, PAGE), Err(GrowError::TooLarge));
    assert_eq!(plan_write(u64::MAX - 1, 1, u64::MAX, 1), Ok(WritePlan { start: u64::MAX - 1, end: u64::MAX, grow_to: None }));
    assert_eq!(plan_write(u64::MAX - 1, 1, 0, 1), Err(GrowError::TooLarge));
}

/// Runs the writer's decisions against a simulated clock and arena for
/// `duration` nanoseconds; returns the published page count.
fn simulate_writer(rate: u64, duration: u64, work_ns: u64) -> u64 {
    let mut ledger = PacingLedger::new(1_000_000_000, 0);
    let mut now: u64 = 0;
    let mut arena: u64 = 0;
    let mut written: u64 = 0;
    while now < duration {
        match ledger.next_quantum(now, rate, PAGE) {
            Quantum::Sleep(ns) => {
                now += ns as u64;
                continue;
            }
            Quantum::Pages(n) => {
                let plan = plan_write(written, n, arena, PAGE).unwrap();
                assert!(written * PAGE <= arena || written == 0);
                if let Some(size) = plan.grow_to {
                    assert!(size > arena);
                    arena = size;
                }
                assert!(written * PAGE <= arena);
                assert!(plan.end * PAGE <= arena);
                written = plan.end;
                ledger.pay_pages(n, PAGE, rate);
                now += work_ns;
            }
        }
    }
    written
}

#[test]
fn simulated_run_writes_at_target_rate() {
    let rate: u64 = 10 << 20;
    let secs: u64 = 3;
    let written = simulate_writer(rate, secs * 1_000_000_000, 1_000_000);
    let expected = rate * secs / PAGE;
    let tolerance = (1 << 20) / PAGE + 1;
    assert!(written.abs_diff(expected) <= tolerance, "{} vs {}", written, expected);
}

#[test]
fn simulated_run_with_slow_rate() {
    let rate: u64 = 100 * PAGE;
    let written = simulate_writer(rate, 2_000_000_000, 10_000);
    assert!(written.abs_diff(200) <= 2, "{}", written);
}
