use rufi::file_search::browse_sample;
use rufi::file_search::rank_file_matches;
use rufi::file_search::DirEntryInfo;
use rufi::file_search::FileWalk;
use rufi::file_search::MAX_DEPTH;
use rufi::file_search::MAX_RAW_MATCHES;
use rufi::search_mode::SearchMode;
use rufi::search_mode::SearchResult;

fn file_entry(name: &str) -> DirEntryInfo {
    DirEntryInfo {
        name: name.to_string(),
        path: format!("/home/user/{}", name),
        canonical: Some(format!("/home/user/{}", name)),
        is_dir: false,
    }
}

fn dir_entry(name: &str) -> DirEntryInfo {
    DirEntryInfo {
        name: name.to_string(),
        path: format!("/home/user/{}", name),
        canonical: Some(format!("/home/user/{}", name)),
        is_dir: true,
    }
}

fn raw_match(name: &str) -> SearchResult {
    SearchResult::new(name.to_string(), format!("/home/user/{}", name), SearchMode::Files)
}

#[test]
fn empty_query_gives_no_file_results() {
    let raw = vec![raw_match("notes.txt")];
    assert!(rank_file_matches(&raw, "").is_empty());
}

#[test]
fn file_results_are_capped_at_eight() {
    let raw: Vec<SearchResult> = (0..30).map(|i| raw_match(&format!("report-{}.txt", i))).collect();
    let out = rank_file_matches(&raw, "report");
    assert_eq!(out.len(), 8);
    for r in &out {
        assert_eq!(r.result_type, SearchMode::Files);
    }
    let few = rank_file_matches(&vec![raw_match("report.txt")], "report");
    assert_eq!(few.len(), 1);
}

#[test]
fn equal_file_scores_keep_raw_order() {
    let mut first = raw_match("notes.txt");
    first.path = "/home/user/a/notes.txt".to_string();
    let mut second = raw_match("notes.txt");
    second.path = "/home/user/b/notes.txt".to_string();
    let out = rank_file_matches(&vec![first, second], "notes");
    assert_eq!(out.len(), 2);
    assert_eq!(out[0].path, "/home/user/a/notes.txt");
    assert_eq!(out[1].path, "/home/user/b/notes.txt");
}

#[test]
fn unmatched_raw_results_are_dropped() {
    let raw = vec![raw_match("notes.txt"), raw_match("budget.xls")];
    let out = rank_file_matches(&raw, "notes");
    assert_eq!(out.len(), 1);
    assert_eq!(out[0].name, "notes.txt");
}

#[test]
fn walk_matches_are_case_insensitive_substrings() {
    let mut walk = FileWalk::new("/home/user".to_string(), "RePort");
    let (_, depth) = walk.next_dir().expect("the root is pending");
    assert_eq!(depth, 0);
    walk.offer_entry(depth, &file_entry("Quarterly-REPORT-final.txt"));
    walk.offer_entry(depth, &file_entry("unrelated.txt"));
    let matches = walk.take_matches();
    assert_eq!(matches.len(), 1);
    assert_eq!(matches[0].name, "Quarterly-REPORT-final.txt");
    assert_eq!(matches[0].path, "/home/user/Quarterly-REPORT-final.txt");
    assert_eq!(matches[0].result_type, SearchMode::Files);
}

#[test]
fn walk_skips_dotfiles_and_pruned_directories() {
    let mut walk = FileWalk::new("/home/user".to_string(), "e");
    let (_, depth) = walk.next_dir().expect("the root is pending");
    walk.offer_entry(depth, &file_entry(".env"));
    walk.offer_entry(depth, &dir_entry("Library"));
    walk.offer_entry(depth, &dir_entry("node_modules"));
    walk.offer_entry(depth, &dir_entry("target"));
    // none matched, and none of the pruned directories was queued
    assert!(walk.next_dir().is_none());
    assert!(walk.take_matches().is_empty());
}

#[test]
fn walk_descends_only_to_the_depth_bound() {
    let mut walk = FileWalk::new("/home/user".to_string(), "zzz");
    let mut deepest = 0;
    while let Some((_, depth)) = walk.next_dir() {
        deepest = deepest.max(depth);
        walk.offer_entry(depth, &dir_entry(&format!("nested-{}", depth)));
    }
    assert_eq!(deepest, MAX_DEPTH);
}

#[test]
fn walk_stops_at_the_match_cap() {
    let mut walk = FileWalk::new("/home/user".to_string(), "data");
    let (_, depth) = walk.next_dir().expect("the root is pending");
    for i in 0..60 {
        walk.offer_entry(depth, &file_entry(&format!("data-{}.bin", i)));
    }
    // the cap also ends the walk itself
    assert!(walk.next_dir().is_none());
    let matches = walk.take_matches();
    assert_eq!(matches.len(), MAX_RAW_MATCHES);
}

#[test]
fn walk_drops_entries_without_canonical_path() {
    let mut walk = FileWalk::new("/home/user".to_string(), "data");
    let (_, depth) = walk.next_dir().expect("the root is pending");
    let mut broken = file_entry("data.bin");
    broken.canonical = None;
    walk.offer_entry(depth, &broken);
    assert!(walk.take_matches().is_empty());
}

#[test]
fn browse_sample_skips_dotfiles_and_truncates() {
    let mut entries: Vec<DirEntryInfo> = vec![file_entry(".hidden")];
    for i in 0..30 {
        entries.push(file_entry(&format!("doc-{}.txt", i)));
    }
    let out = browse_sample(&entries, 4);
    assert_eq!(out.len(), 4);
    assert_eq!(out[0].name, "doc-0.txt");
    assert_eq!(out[3].name, "doc-3.txt");
    assert_eq!(out[0].result_type, SearchMode::Files);
    // the collection cap comes before the requested count
    let all = browse_sample(&entries, 100);
    assert_eq!(all.len(), 20);
}
