use rufi::app_search::applications_from_scan;
use rufi::app_search::cache_is_fresh;
use rufi::app_search::system_actions;
use rufi::search_mode::SearchMode;
use rufi::system_commands::get_system_commands;
use rufi::system_commands::search_commands;
use rufi::system_commands::SystemCommand;

#[test]
fn command_table_is_fixed_and_ordered() {
    let cmds = get_system_commands();
    let names: Vec<&str> = cmds.iter().map(|c| c.name.as_str()).collect();
    assert_eq!(names, vec!["Shutdown", "Reboot", "Sleep", "Lock Screen"]);
    assert_eq!(cmds[3].command, "pmset displaysleepnow");
}

#[test]
fn empty_query_returns_all_commands_in_table_order() {
    let out = search_commands("");
    let expected = get_system_commands();
    assert_eq!(out.len(), 4);
    for (r, c) in out.iter().zip(expected.iter()) {
        assert_eq!(r.name, c.name);
        assert_eq!(r.path, c.command);
        assert_eq!(r.result_type, SearchMode::Run);
    }
}

#[test]
fn commands_are_fuzzy_searched() {
    let out = search_commands("shut");
    assert_eq!(out.len(), 1);
    assert_eq!(out[0].name, "Shutdown");
    assert_eq!(out[0].result_type, SearchMode::Run);
    assert!(out[0].path.contains("shut down"));
    assert!(search_commands("qqq").is_empty());
}

#[test]
fn command_matching_uses_smart_case() {
    // a capital in the query demands a capital in the label; lowercase
    // queries match either case
    assert!(search_commands("SH").is_empty());
    let out = search_commands("sh");
    assert_eq!(out.len(), 1);
    assert_eq!(out[0].name, "Shutdown");
}

#[test]
fn system_command_new_copies_its_fields() {
    let c = SystemCommand::new("Label", "true");
    assert_eq!(c.name, "Label");
    assert_eq!(c.command, "true");
}

#[test]
fn cache_freshness_respects_the_hour_boundary() {
    assert!(cache_is_fresh(0));
    assert!(cache_is_fresh(1799));
    assert!(cache_is_fresh(3599));
    assert!(!cache_is_fresh(3600));
    assert!(!cache_is_fresh(3601));
}

#[test]
fn scan_strips_the_bundle_suffix_and_sorts() {
    let entries = vec![
        ("Safari.app".to_string(), "/Applications/Safari.app".to_string()),
        ("notes.txt".to_string(), "/Applications/notes.txt".to_string()),
        ("Arc.app".to_string(), "/Applications/Arc.app".to_string()),
        ("Music.app".to_string(), "/System/Applications/Music.app".to_string()),
    ];
    let apps = applications_from_scan(&entries);
    let names: Vec<&str> = apps.iter().map(|a| a.name.as_str()).collect();
    assert_eq!(names, vec!["Arc", "Music", "Safari"]);
    assert_eq!(apps[2].path, "/Applications/Safari.app");
    assert!(!apps[0].is_action);
    assert!(apps[0].command.is_none());
}

#[test]
fn scan_sorting_is_by_byte_order_capitals_first() {
    let entries = vec![
        ("zoom.app".to_string(), "/Applications/zoom.app".to_string()),
        ("Zed.app".to_string(), "/Applications/Zed.app".to_string()),
        ("iTerm.app".to_string(), "/Applications/iTerm.app".to_string()),
    ];
    let apps = applications_from_scan(&entries);
    let names: Vec<&str> = apps.iter().map(|a| a.name.as_str()).collect();
    assert_eq!(names, vec!["Zed", "iTerm", "zoom"]);
}

#[test]
fn duplicate_app_names_keep_scan_order() {
    let entries = vec![
        ("Music.app".to_string(), "/Applications/Music.app".to_string()),
        ("Arc.app".to_string(), "/Applications/Arc.app".to_string()),
        ("Music.app".to_string(), "/System/Applications/Music.app".to_string()),
    ];
    let apps = applications_from_scan(&entries);
    let pairs: Vec<(&str, &str)> = apps.iter().map(|a| (a.name.as_str(), a.path.as_str())).collect();
    assert_eq!(
        pairs,
        vec![
            ("Arc", "/Applications/Arc.app"),
            ("Music", "/Applications/Music.app"),
            ("Music", "/System/Applications/Music.app"),
        ]
    );
}

#[test]
fn system_actions_table_is_complete() {
    let actions = system_actions();
    assert_eq!(actions.len(), 7);
    let names: Vec<&str> = actions.iter().map(|a| a.name.as_str()).collect();
    assert_eq!(
        names,
        vec![
            "🔍 Browser",
            "📁 Files",
            "⚡ Terminal",
            "🔌 Shutdown",
            "🔄 Reboot",
            "💤 Sleep",
            "🔒 Lock Screen"
        ]
    );
    for a in &actions {
        assert!(a.is_action);
        assert!(a.path.is_empty());
        assert!(a.command.is_some());
    }
    assert_eq!(actions[5].command.as_deref(), Some("pmset sleepnow"));
}
