use ftpdown::actions::{entry_action, needs_fetch, EntryAction};

fn s(x: &str) -> String {
    x.to_string()
}

#[test]
fn directories_are_skipped() {
    assert_eq!(entry_action(&s("/var/www/"), &s(""), false), EntryAction::SkipDirectory);
    assert_eq!(entry_action(&s("/var/www/"), &s(""), true), EntryAction::SkipDirectory);
}

#[test]
fn wildcard_names_are_matched() {
    assert_eq!(entry_action(&s("/var/www/page(*).css"), &s("page(*).css"), false), EntryAction::FetchMatches);
    assert_eq!(entry_action(&s("/var/www/page(*).css"), &s("page(*).css"), true), EntryAction::ReportMatches);
}

#[test]
fn plain_files_are_fetched_unless_dry_run() {
    assert_eq!(entry_action(&s("/var/wow/a.mkv"), &s("a.mkv"), false), EntryAction::FetchFile);
    assert_eq!(entry_action(&s("/var/wow/a.mkv"), &s("a.mkv"), true), EntryAction::ReportFile);
}

#[test]
fn only_a_local_file_of_the_remote_size_is_kept() {
    assert!(needs_fetch(None, 10));
    assert!(needs_fetch(Some(9), 10));
    assert!(!needs_fetch(Some(10), 10));
    assert!(!needs_fetch(Some(0), 0));
}
