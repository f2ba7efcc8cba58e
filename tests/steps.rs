use mem_hog::arena::{GrowError, WritePlan};
use mem_hog::ledger::PacingLedger;
use mem_hog::step::{reader_step, writer_step, ReaderStep, WriterStep};
use mem_hog::window::ReadCursor;

const SEC: u64 = 1_000_000_000;
const PAGE: u64 = 4096;

#[test]
fn writer_step_sleeps_without_debt() {
    let mut l = PacingLedger::new(SEC, 0);
    assert_eq!(writer_step(&mut l, 0, PAGE * 100, PAGE, 0, 0), Ok(WriterStep::Sleep(10_000_000)));
    assert_eq!(l.debt, 0);
}

#[test]
fn writer_step_plans_growth_and_pays() {
    let mut l = PacingLedger::new(SEC, 0);
    let r = writer_step(&mut l, SEC / 2, PAGE * 100, PAGE, 7, 0);
    assert_eq!(r, Ok(WriterStep::Write(WritePlan { start: 7, end: 57, grow_to: Some(1 << 30) })));
    assert_eq!(l.debt, 0);
    let r = writer_step(&mut l, SEC, PAGE * 100, PAGE, 57, 1 << 30);
    assert_eq!(r, Ok(WriterStep::Write(WritePlan { start: 57, end: 107, grow_to: None })));
}

#[test]
fn writer_step_reports_growth_failure_unpaid() {
    let mut l = PacingLedger::new(SEC, 0);
    assert_eq!(writer_step(&mut l, SEC, PAGE, PAGE, u64::MAX, 0), Err(GrowError::TooLarge));
    assert_eq!(l.debt, SEC);
}

#[test]
fn reader_step_skips_empty_window_without_paying() {
    let mut l = PacingLedger::new(SEC, 0);
    let mut c = ReadCursor::new();
    assert_eq!(reader_step(&mut l, &mut c, SEC / 2, PAGE * 100, PAGE, 0, 0, 1), ReaderStep::Skip);
    assert_eq!(l.debt, SEC / 2);
    assert_eq!(c.pos, 0);
}

#[test]
fn reader_step_reads_quantum_wrapping_and_pays() {
    let mut l = PacingLedger::new(SEC, 0);
    let mut c = ReadCursor::new();
    // 5 pages owed; reader 1 of 2 over 6 pages reads [3, 6)
    let r = reader_step(&mut l, &mut c, SEC / 20, PAGE * 100, PAGE, 6, 1, 2);
    assert_eq!(r, ReaderStep::Read(vec![3, 4, 5, 3, 4]));
    assert_eq!(c.pos, 2);
    assert_eq!(l.debt, 0);
    assert_eq!(reader_step(&mut l, &mut c, SEC / 20, PAGE * 100, PAGE, 6, 1, 2), ReaderStep::Sleep(10_000_000));
    assert_eq!(c.pos, 2);
}
