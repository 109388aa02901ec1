use bytehound::util::Sigint;
use std::sync::atomic::{AtomicBool, Ordering};
use std::sync::Arc;
use bytehound::util::{table_to_string, ReadableDuration, ReadableSize, SizeUnit};

fn row(cells: &[&str]) -> Vec<String> {
    cells.iter().map(|cell| cell.to_string()).collect()
}

#[test]
fn table_columns_are_aligned() {
    let table = vec![row(&["a", "bb"]), row(&["ccc", "d"])];
    assert_eq!(table_to_string(&table), "a   bb\nccc d\n");
}

#[test]
fn table_rows_of_different_lengths() {
    let table = vec![row(&["name", "size"]), row(&["x"]), row(&["longer", "1", "extra"])];
    assert_eq!(table_to_string(&table), "name   size\nx     \nlonger 1    extra\n");
}

#[test]
fn empty_table_is_empty_text() {
    let table: Vec<Vec<String>> = vec![];
    assert_eq!(table_to_string(&table), "");
}

#[test]
fn wide_characters_count_once() {
    let table = vec![row(&["żółw", "x"]), row(&["ab", "y"])];
    assert_eq!(table_to_string(&table), "żółw x\nab   y\n");
}

#[test]
fn size_in_largest_unit() {
    assert_eq!(ReadableSize(999).parts(), (999, 0, SizeUnit::Bytes));
    assert_eq!(ReadableSize(1234).parts(), (1, 234, SizeUnit::Kilobytes));
    assert_eq!(ReadableSize(5_600_000).parts(), (5, 600, SizeUnit::Megabytes));
    assert_eq!(ReadableSize(2_000_000_001).parts(), (2, 0, SizeUnit::Gigabytes));
    assert_eq!(ReadableSize(3_500_000_000_000).parts(), (3, 500, SizeUnit::Terabytes));
}

#[test]
fn duration_parts() {
    let parts = ReadableDuration(90061).parts();
    assert_eq!((parts.days, parts.hours, parts.minutes, parts.secs), (1, 1, 1, 1));
    assert!(parts.show_days && parts.show_hours && parts.show_minutes);
    let parts = ReadableDuration(59).parts();
    assert_eq!(parts.secs, 59);
    assert!(!parts.show_days && !parts.show_hours && !parts.show_minutes);
    let parts = ReadableDuration(3600).parts();
    assert_eq!((parts.hours, parts.minutes, parts.secs), (1, 0, 0));
    assert!(!parts.show_days && parts.show_hours && parts.show_minutes);
}

#[test]
fn interrupt_flag_is_seen() {
    let flag = Arc::new(AtomicBool::new(false));
    let sigint = Sigint::new(flag.clone());
    assert!(!sigint.was_sent());
    flag.store(true, Ordering::Relaxed);
    assert!(sigint.was_sent());
}

#[test]
fn sizes_read_in_their_largest_unit() {
    assert_eq!(ReadableSize(0).to_text(), "      0");
    assert_eq!(ReadableSize(999).to_text(), "    999");
    assert_eq!(ReadableSize(1234).to_text(), "  1.234 KB");
    assert_eq!(ReadableSize(12_345_678).to_text(), " 12.345 MB");
    assert_eq!(ReadableSize(5_000_000_007).to_text(), "  5.000 GB");
    assert_eq!(ReadableSize(1_000_000_000_000_000).to_text(), "1000.000 TB");
}

#[test]
fn durations_read_from_their_largest_part() {
    assert_eq!(ReadableDuration(0).to_text(), "00s");
    assert_eq!(ReadableDuration(65).to_text(), "01m05s");
    assert_eq!(ReadableDuration(7200).to_text(), "02h00m00s");
    assert_eq!(ReadableDuration(90061).to_text(), "1 days 01h01m01s");
}
