//! What the downloader does with each entry of a configuration and with
//! each file it has found for one: the decisions between the FTP calls.

use vstd::prelude::*;
use crate::paths::{is_dir, is_dir_path};
use crate::text::contains;
use crate::wildcard::{has_wildcard, wildcard};

verus! {

/// What to do with one entry of the `remoteFiles:` list.
#[derive(Debug, PartialEq, Eq, Structural, Clone, Copy)]
pub enum EntryAction {
    /// The remote path names a directory; directories are not fetched.
    SkipDirectory,
    /// Dry run: list the remote directory and say what matches the name.
    ReportMatches,
    /// List the remote directory and fetch what matches the name.
    FetchMatches,
    /// Dry run: say what would be fetched.
    ReportFile,
    /// Fetch the file.
    FetchFile,
}

/// The action for an entry whose remote path is `server_loc` and whose
/// name is `filename`: a directory is skipped; a name with `(*)` is matched
/// against the listing of the remote directory; in a dry run nothing is
/// fetched, only reported.
pub open spec fn entry_action_spec(
    server_loc: Seq<char>,
    filename: Seq<char>,
    dry_run: bool,
) -> EntryAction {
    if is_dir_path(server_loc) {
        EntryAction::SkipDirectory
    } else if contains(filename, wildcard()) {
        if dry_run {
            EntryAction::ReportMatches
        } else {
            EntryAction::FetchMatches
        }
    } else if dry_run {
        EntryAction::ReportFile
    } else {
        EntryAction::FetchFile
    }
}

/// Decides what to do with an entry; a dry run never fetches.
pub fn entry_action(server_loc: &String, filename: &String, dry_run: bool) -> (r: EntryAction)
    ensures
        r == entry_action_spec(server_loc@, filename@, dry_run),
        dry_run ==> !(r is FetchMatches) && !(r is FetchFile),
{
    if is_dir(server_loc) {
        EntryAction::SkipDirectory
    } else if has_wildcard(filename) {
        if dry_run {
            EntryAction::ReportMatches
        } else {
            EntryAction::FetchMatches
        }
    } else if dry_run {
        EntryAction::ReportFile
    } else {
        EntryAction::FetchFile
    }
}

/// Whether a file is to be fetched, given the size of the local file where
/// there is one and the size of the remote file: only a local file of the
/// remote size counts as already downloaded.
pub fn needs_fetch(local_size: Option<usize>, remote_size: usize) -> (r: bool)
    ensures
        r == (local_size != Some(remote_size)),
{
    match local_size {
        Some(l) => l != remote_size,
        None => true,
    }
}

} // verus!
