use ftpdown::progress::{progress_bar, progress_percent};

fn bar(filled: usize) -> String {
    format!("[{}{}]", "=".repeat(filled), " ".repeat(40 - filled))
}

#[test]
fn bar_at_zero_has_one_cell() {
    assert_eq!(progress_bar(0), bar(1));
}

#[test]
fn bar_at_half() {
    assert_eq!(progress_bar(50), bar(21));
    assert_eq!(progress_bar(25), bar(11));
}

#[test]
fn bar_is_full_at_and_beyond_the_end() {
    assert_eq!(progress_bar(100), bar(40));
    assert_eq!(progress_bar(1000), bar(40));
    assert_eq!(progress_bar(97), bar(39));
}

#[test]
fn bar_has_fixed_length() {
    for p in 0..=120 {
        assert_eq!(progress_bar(p).chars().count(), 42);
    }
}

#[test]
fn percent_of_file_fetched() {
    assert_eq!(progress_percent(50, 200), 25);
    assert_eq!(progress_percent(0, 7), 0);
    assert_eq!(progress_percent(7, 7), 100);
    assert_eq!(progress_percent(1, 3), 33);
}
