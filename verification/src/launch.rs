//! The launch decision: what committing the selected result means. The host
//! performs the action (opening through the workspace, spawning a shell)
//! and ends the session afterwards; which action to perform is decided
//! here, honoring the dual use of the `path` field.

use vstd::prelude::*;

use crate::search_mode::SearchMode;
use crate::search_mode::SearchResult;

verus! {

/// The side effect committing a result asks the host for.
#[derive(Debug)]
pub enum LaunchAction {
    /// Open the file or application bundle at this path through the host's
    /// file opener.
    Open(String),
    /// Run this command line through a shell, fire-and-forget.
    Shell(String),
}

/// Decides the action for a committed result: application and file results
/// are opened by path; `Run` results carry their shell command in the path
/// field and are executed.
pub fn launch_action(result: &SearchResult) -> (a: LaunchAction)
    ensures
        result.result_type == SearchMode::Apps || result.result_type == SearchMode::Files ==> a
            == LaunchAction::Open(result.path),
        result.result_type == SearchMode::Run ==> a == LaunchAction::Shell(result.path),
{
    match result.result_type {
        SearchMode::Apps => LaunchAction::Open(result.path.clone()),
        SearchMode::Files => LaunchAction::Open(result.path.clone()),
        SearchMode::Run => LaunchAction::Shell(result.path.clone()),
    }
}

} // verus!
