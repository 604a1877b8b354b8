use fuzzy_matcher::skim::SkimMatcherV2;
use fuzzy_matcher::FuzzyMatcher;
use rufi::app_search::apps_to_results;
use rufi::app_search::fuzzy_search;
use rufi::app_search::Application;
use rufi::search_mode::SearchMode;

fn app(name: &str) -> Application {
    Application {
        name: name.to_string(),
        path: format!("/Applications/{}.app", name),
        is_action: false,
        command: None,
    }
}

fn names(apps: &[Application]) -> Vec<&str> {
    apps.iter().map(|a| a.name.as_str()).collect()
}

#[test]
fn empty_query_is_identity() {
    let apps = vec![app("Zed"), app("Arc"), app("Music"), app("Arc")];
    let out = fuzzy_search(&apps, "");
    assert_eq!(names(&out), vec!["Zed", "Arc", "Music", "Arc"]);
    let out = fuzzy_search(&Vec::new(), "");
    assert!(out.is_empty());
}

#[test]
fn unmatched_candidates_are_excluded() {
    let apps = vec![app("Safari")];
    let out = fuzzy_search(&apps, "xyz");
    assert!(out.is_empty());
}

#[test]
fn scenario_sa_ranks_safari_over_slack_and_drops_terminal() {
    let apps = vec![app("Safari"), app("Slack"), app("Terminal")];
    let out = fuzzy_search(&apps, "sa");
    assert_eq!(names(&out), vec!["Safari", "Slack"]);
}

#[test]
fn scores_are_non_increasing() {
    let apps = vec![
        app("Safari"),
        app("System Settings"),
        app("Slack"),
        app("Sabers"),
        app("Visual Studio Code"),
        app("Disk Utility"),
    ];
    let out = fuzzy_search(&apps, "sa");
    assert!(!out.is_empty());
    let matcher = SkimMatcherV2::default();
    let scores: Vec<i64> = out
        .iter()
        .map(|a| {
            matcher
                .fuzzy_match(&a.name.to_lowercase(), "sa")
                .expect("every returned candidate matches")
        })
        .collect();
    for w in scores.windows(2) {
        assert!(w[0] >= w[1], "scores must be non-increasing: {:?}", scores);
    }
}

#[test]
fn equal_scores_keep_original_order() {
    let mut first = app("Safari");
    first.path = "/Applications/one/Safari.app".to_string();
    let mut second = app("Safari");
    second.path = "/Applications/two/Safari.app".to_string();
    let apps = vec![first, second];
    let out = fuzzy_search(&apps, "safari");
    assert_eq!(out.len(), 2);
    assert_eq!(out[0].path, "/Applications/one/Safari.app");
    assert_eq!(out[1].path, "/Applications/two/Safari.app");
}

#[test]
fn matching_is_case_insensitive_both_ways() {
    // an uppercase query still matches: both sides are lowercased before
    // the matcher sees them (the skim matcher alone would match "SAFARI"
    // case-sensitively and find nothing)
    let apps = vec![app("Safari")];
    let out = fuzzy_search(&apps, "SAFARI");
    assert_eq!(names(&out), vec!["Safari"]);
    let out = fuzzy_search(&apps, "safari");
    assert_eq!(names(&out), vec!["Safari"]);
}

#[test]
fn apps_to_results_truncates_and_tags() {
    let apps = vec![app("A"), app("B"), app("C")];
    let out = apps_to_results(&apps, 2);
    assert_eq!(out.len(), 2);
    assert_eq!(out[0].name, "A");
    assert_eq!(out[0].path, "/Applications/A.app");
    assert_eq!(out[0].result_type, SearchMode::Apps);
    assert_eq!(out[1].name, "B");
    let all = apps_to_results(&apps, 15);
    assert_eq!(all.len(), 3);
}
