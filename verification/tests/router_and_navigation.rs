use rufi::navigation::Direction;
use rufi::navigation::SelectionState;
use rufi::navigation::GRID_COLUMNS;
use rufi::router::route;
use rufi::search_mode::SearchMode;
use rufi::search_mode::SearchResult;

fn results(n: usize) -> Vec<SearchResult> {
    (0..n)
        .map(|i| SearchResult::new(format!("r{}", i), format!("/tmp/r{}", i), SearchMode::Files))
        .collect()
}

#[test]
fn route_plain_input_is_apps_identity() {
    let (mode, query) = route("safari");
    assert_eq!(mode, SearchMode::Apps);
    assert_eq!(query, "safari");
}

#[test]
fn route_empty_input_is_apps_identity() {
    let (mode, query) = route("");
    assert_eq!(mode, SearchMode::Apps);
    assert_eq!(query, "");
}

#[test]
fn route_slash_sigil_is_files() {
    let (mode, query) = route("/x");
    assert_eq!(mode, SearchMode::Files);
    assert_eq!(query, "x");
}

#[test]
fn route_colon_sigil_is_run() {
    let (mode, query) = route(":x");
    assert_eq!(mode, SearchMode::Run);
    assert_eq!(query, "x");
}

#[test]
fn route_bare_sigils_leave_empty_queries() {
    let (mode, query) = route("/");
    assert_eq!(mode, SearchMode::Files);
    assert_eq!(query, "");
    let (mode, query) = route(":");
    assert_eq!(mode, SearchMode::Run);
    assert_eq!(query, "");
}

#[test]
fn route_sigil_not_in_front_is_apps() {
    let (mode, query) = route("a/b");
    assert_eq!(mode, SearchMode::Apps);
    assert_eq!(query, "a/b");
}

#[test]
fn wraparound_right_from_last() {
    let mut s = SelectionState::new();
    s.on_query_changed(results(12));
    s.hover(11);
    s.move_selection(Direction::Right, GRID_COLUMNS);
    assert_eq!(s.selected_index, 0);
}

#[test]
fn wraparound_left_from_first() {
    let mut s = SelectionState::new();
    s.on_query_changed(results(12));
    s.move_selection(Direction::Left, GRID_COLUMNS);
    assert_eq!(s.selected_index, 11);
}

#[test]
fn wraparound_up_from_top_row_clamps_to_short_last_row() {
    let mut s = SelectionState::new();
    s.on_query_changed(results(12));
    s.hover(1);
    s.move_selection(Direction::Up, GRID_COLUMNS);
    assert_eq!(s.selected_index, 11);
}

#[test]
fn wraparound_up_lands_in_a_full_last_row() {
    // with the length a multiple of the column count, the last row starts
    // at length - columns, not one row past the end
    let mut s = SelectionState::new();
    s.on_query_changed(results(10));
    s.hover(2);
    s.move_selection(Direction::Up, GRID_COLUMNS);
    assert_eq!(s.selected_index, 7);
    s.hover(4);
    s.move_selection(Direction::Up, GRID_COLUMNS);
    assert_eq!(s.selected_index, 9);
}

#[test]
fn down_moves_a_row_and_wraps_to_top() {
    let mut s = SelectionState::new();
    s.on_query_changed(results(12));
    s.hover(3);
    s.move_selection(Direction::Down, GRID_COLUMNS);
    assert_eq!(s.selected_index, 8);
    s.move_selection(Direction::Down, GRID_COLUMNS);
    assert_eq!(s.selected_index, 3);
}

#[test]
fn movement_on_empty_list_is_inert() {
    let mut s = SelectionState::new();
    for d in [Direction::Up, Direction::Down, Direction::Left, Direction::Right] {
        s.move_selection(d, GRID_COLUMNS);
        assert_eq!(s.selected_index, 0);
    }
}

#[test]
fn selection_resets_on_every_query_change() {
    let mut s = SelectionState::new();
    s.on_query_changed(results(12));
    s.hover(7);
    assert_eq!(s.selected_index, 7);
    s.on_query_changed(results(3));
    assert_eq!(s.selected_index, 0);
    s.move_selection(Direction::Right, GRID_COLUMNS);
    s.on_query_changed(results(0));
    assert_eq!(s.selected_index, 0);
}

#[test]
fn hover_sets_selection_directly() {
    let mut s = SelectionState::new();
    s.on_query_changed(results(5));
    s.hover(4);
    assert_eq!(s.selected_index, 4);
    let sel = s.selected().expect("non-empty selection");
    assert_eq!(sel.name, "r4");
}

#[test]
fn selected_is_none_on_empty_list() {
    let s = SelectionState::new();
    assert!(s.selected().is_none());
}
