//! The three search modes of the launcher and the normalized result record
//! that every provider hands to the presentation layer.

use vstd::prelude::*;

verus! {

/// Which provider answers the current query: installed applications,
/// the file search, or the fixed table of system commands.
#[derive(Debug, Clone, Copy, PartialEq, Eq, Structural)]
pub enum SearchMode {
    Apps,
    Files,
    Run,
}

impl SearchMode {
    /// Human-readable label of the mode.
    pub fn as_str(&self) -> (r: &str)
        ensures
            *self == SearchMode::Apps ==> r@ == "Apps"@,
            *self == SearchMode::Files ==> r@ == "Files"@,
            *self == SearchMode::Run ==> r@ == "Run"@,
    {
        match self {
            SearchMode::Apps => "Apps",
            SearchMode::Files => "Files",
            SearchMode::Run => "Run",
        }
    }
}

/// One displayable candidate. For `Run` results, `path` holds the shell
/// command to execute instead of a filesystem path; every provider and the
/// launch decision honor this dual use.
#[derive(Debug)]
pub struct SearchResult {
    pub name: String,
    pub path: String,
    pub result_type: SearchMode,
}

/// The mathematical content of a `SearchResult`: its fields as sequences.
pub ghost struct ResultView {
    pub name: Seq<char>,
    pub path: Seq<char>,
    pub result_type: SearchMode,
}

/// The view of one result.
pub open spec fn result_view(r: SearchResult) -> ResultView {
    ResultView { name: r.name@, path: r.path@, result_type: r.result_type }
}

/// The views of a whole result list.
pub open spec fn result_views(rs: Seq<SearchResult>) -> Seq<ResultView> {
    rs.map_values(|x: SearchResult| result_view(x))
}

impl Clone for SearchResult {
    fn clone(&self) -> (r: Self)
        ensures
            r == *self,
    {
        SearchResult {
            name: self.name.clone(),
            path: self.path.clone(),
            result_type: self.result_type,
        }
    }
}

impl SearchResult {
    pub fn new(name: String, path: String, result_type: SearchMode) -> (r: Self)
        ensures
            r.name == name,
            r.path == path,
            r.result_type == result_type,
    {
        Self { name, path, result_type }
    }
}

} // verus!
