use rufi::config::parse_hex_color;
use rufi::config::ColorConfig;
use rufi::config::WindowConfig;
use rufi::launch::launch_action;
use rufi::launch::LaunchAction;
use rufi::search_mode::SearchMode;
use rufi::search_mode::SearchResult;

#[test]
fn apps_and_files_are_opened_by_path() {
    let app = SearchResult::new(
        "Safari".to_string(),
        "/Applications/Safari.app".to_string(),
        SearchMode::Apps,
    );
    match launch_action(&app) {
        LaunchAction::Open(p) => assert_eq!(p, "/Applications/Safari.app"),
        LaunchAction::Shell(_) => panic!("an application is opened, not executed"),
    }
    let file = SearchResult::new(
        "notes.txt".to_string(),
        "/home/user/notes.txt".to_string(),
        SearchMode::Files,
    );
    match launch_action(&file) {
        LaunchAction::Open(p) => assert_eq!(p, "/home/user/notes.txt"),
        LaunchAction::Shell(_) => panic!("a file is opened, not executed"),
    }
}

#[test]
fn run_results_are_executed_from_the_path_field() {
    let cmd = SearchResult::new(
        "Sleep".to_string(),
        "pmset sleepnow".to_string(),
        SearchMode::Run,
    );
    match launch_action(&cmd) {
        LaunchAction::Shell(c) => assert_eq!(c, "pmset sleepnow"),
        LaunchAction::Open(_) => panic!("a command is executed, not opened"),
    }
}

#[test]
fn mode_labels() {
    assert_eq!(SearchMode::Apps.as_str(), "Apps");
    assert_eq!(SearchMode::Files.as_str(), "Files");
    assert_eq!(SearchMode::Run.as_str(), "Run");
}

#[test]
fn search_result_new_fills_the_fields() {
    let r = SearchResult::new("a".to_string(), "b".to_string(), SearchMode::Files);
    assert_eq!(r.name, "a");
    assert_eq!(r.path, "b");
    assert_eq!(r.result_type, SearchMode::Files);
}

#[test]
fn hex_colors_parse_by_channel() {
    assert_eq!(parse_hex_color("#282828"), (0x28, 0x28, 0x28));
    assert_eq!(parse_hex_color("#d79921"), (0xd7, 0x99, 0x21));
    assert_eq!(parse_hex_color("ebdbb2"), (0xeb, 0xdb, 0xb2));
    assert_eq!(parse_hex_color("#FFffFF"), (255, 255, 255));
}

#[test]
fn malformed_hex_channels_parse_as_zero() {
    assert_eq!(parse_hex_color(""), (0, 0, 0));
    assert_eq!(parse_hex_color("#"), (0, 0, 0));
    assert_eq!(parse_hex_color("#12"), (0x12, 0, 0));
    assert_eq!(parse_hex_color("#12345"), (0x12, 0x34, 0));
    assert_eq!(parse_hex_color("#zzzzzz"), (0, 0, 0));
}

#[test]
fn config_structs_hold_plain_values() {
    let w = WindowConfig { width: 700, height: 500 };
    assert_eq!((w.width, w.height), (700, 500));
    let c = ColorConfig {
        background: "#282828".to_string(),
        text: "#ebdbb2".to_string(),
        selection_background: "#d79921".to_string(),
        selection_text: "#282828".to_string(),
        input_background: "#3c3836".to_string(),
        border: "#504945".to_string(),
    };
    let copy = c.clone();
    assert_eq!(copy.background, c.background);
    assert_eq!(copy.border, "#504945");
}
