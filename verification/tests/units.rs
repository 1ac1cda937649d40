//! Unit exercises of the storage primitives and the console counters.

use silpkg::progress::{ProgressBar, ProgressBarStyle};
use silpkg::spinner::{Spinner, SpinnerStyle};
use silpkg::storage::{MemStorage, ReadExt, ReadSeekWriteExt, WriteExt};
use silpkg::Truncate;

#[test]
fn storage_positioned_io() {
    let mut s = MemStorage::new();
    s.write_at(0, b"hello world");
    assert_eq!(s.len(), 11);
    s.write_u32_be(0, 0x0102_0304);
    assert_eq!(s.read_u32_be(0), 0x0102_0304);
    s.write_u16_be(4, 0xBEEF);
    assert_eq!(s.read_u16_be(4), 0xBEEF);
    s.write_u8(6, 0x7F);
    assert_eq!(s.read_u8(6), 0x7F);
    assert_eq!(s.read_n_exact(7, 4), b"orld".to_vec());
}

#[test]
fn storage_fill_copy_truncate() {
    let mut s = MemStorage::from_vec(b"abcdefgh".to_vec());
    s.fill(2, 0, 3);
    assert_eq!(s.as_vec().as_slice(), b"ab\0\0\0fgh");
    s.copy_within(0, 2, 6);
    assert_eq!(s.as_vec().as_slice(), b"ab\0\0\0fab");
    s.truncate(4);
    assert_eq!(s.as_vec().as_slice(), b"ab\0\0");
    s.truncate(6);
    assert_eq!(s.as_vec().as_slice(), b"ab\0\0\0\0");
}

#[test]
fn progress_counts() {
    let mut bar = ProgressBar::new(
        ProgressBarStyle { width: 60 },
        3,
        "working".to_string(),
    );
    assert_eq!(bar.current_progress, 0);
    bar.inc();
    bar.inc();
    assert_eq!(bar.current_progress, 2);
    assert_eq!(bar.max_progress, 3);
}

#[test]
fn spinner_wraps() {
    let style = SpinnerStyle::const_default();
    let n = style.stages.len();
    let mut spinner = Spinner::new(style, "busy".to_string());
    for _ in 0..n - 1 {
        spinner.inc();
    }
    assert_eq!(spinner.current, n - 1);
    spinner.inc();
    assert_eq!(spinner.current, 0);
}

#[test]
fn magic_check() {
    let ok = MemStorage::from_vec(b"PKG\n rest".to_vec());
    assert!(silpkg::parse::check_magic(&ok));
    let bad = MemStorage::from_vec(b"PKH\n rest".to_vec());
    assert!(!silpkg::parse::check_magic(&bad));
    let short = MemStorage::from_vec(b"PK".to_vec());
    assert!(!silpkg::parse::check_magic(&short));
}
