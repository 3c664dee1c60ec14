use sukkiri::model::{all_categories, CategoryType, ScanProgress, ScanResult, ScanUpdate, ScannedItem};
use sukkiri::session::{Action, App, AppState, Key};

fn row(category: CategoryType, sizes: &[u64]) -> ScanResult {
    let items: Vec<ScannedItem> = sizes
        .iter()
        .enumerate()
        .map(|(i, s)| ScannedItem { path: format!("/tmp/{}/{i}", category.name()), size: *s, modified: 0 })
        .collect();
    ScanResult::assemble(category, "d".to_string(), "/tmp".to_string(), items)
}

fn browsing(rows: Vec<ScanResult>) -> App {
    let mut app = App::new_scanning();
    let categories: Vec<CategoryType> = rows.iter().map(|r| r.category).collect();
    app.start_scan(&categories);
    app.check_scan_status(rows.into_iter().map(ScanUpdate::Result).collect());
    assert!(matches!(app.state, AppState::Browsing));
    app
}

#[test]
fn test_check_scan_status_updates() {
    let mut app = App::new_scanning();

    let category = CategoryType::XcodeJunk;
    app.scan_progress.push(ScanProgress { category, items_count: 0, status: "Waiting...".to_string() });
    app.total_categories = 1;
    app.scan_pending = true;

    app.check_scan_status(vec![ScanUpdate::Progress(ScanProgress {
        category,
        items_count: 5,
        status: "Scanning...".to_string(),
    })]);

    let progress = app.progress_of(category).expect("Category should exist");
    assert_eq!(progress.items_count, 5);
    assert_eq!(progress.status, "Scanning...");
    assert!(matches!(app.state, AppState::Scanning));

    let result = ScanResult {
        category,
        total_size: 1024,
        items: vec![],
        is_selected: false,
        description: "Test description".to_string(),
        root_path: "/tmp".to_string(),
    };
    app.check_scan_status(vec![ScanUpdate::Result(result)]);

    let progress = app.progress_of(category).expect("Category should exist");
    assert_eq!(progress.status, "Done");

    assert_eq!(app.results.len(), 1);
    assert!(matches!(app.state, AppState::Browsing));
    assert!(!app.scan_pending);
}

#[test]
fn scan_waits_for_every_category() {
    let mut app = App::new_scanning();
    app.start_scan(&all_categories());
    assert_eq!(app.total_categories, 12);
    assert_eq!(app.progress_of(CategoryType::Trash).unwrap().status, "Waiting...");
    app.check_scan_status(vec![
        ScanUpdate::Progress(ScanProgress { category: CategoryType::Trash, items_count: 1, status: "Scanning...".to_string() }),
        ScanUpdate::Progress(ScanProgress { category: CategoryType::Trash, items_count: 1, status: "Scanning...".to_string() }),
        ScanUpdate::Result(row(CategoryType::Trash, &[5])),
    ]);
    assert_eq!(app.progress_of(CategoryType::Trash).unwrap().items_count, 2);
    assert!(matches!(app.state, AppState::Scanning));
    assert!(app.scan_pending);
    assert_eq!(app.results.len(), 1);
    assert_eq!(app.selected, None);
}

#[test]
fn completed_scan_sorts_rows_and_selects_first() {
    let app = browsing(vec![
        row(CategoryType::Trash, &[5]),
        row(CategoryType::Downloads, &[50, 1]),
        row(CategoryType::UserLogs, &[7]),
    ]);
    let totals: Vec<u64> = app.results.iter().map(|r| r.total_size).collect();
    assert_eq!(totals, vec![51, 7, 5]);
    assert_eq!(app.selected, Some(0));
    assert!(!app.scan_pending);
}

#[test]
fn updates_without_a_scan_are_ignored() {
    let mut app = App::new_scanning();
    app.check_scan_status(vec![ScanUpdate::Result(row(CategoryType::Trash, &[1]))]);
    assert!(app.results.is_empty());
    assert!(matches!(app.state, AppState::Scanning));
}

#[test]
fn cursor_wraps_both_ways() {
    let mut app = browsing(vec![row(CategoryType::Trash, &[3]), row(CategoryType::Downloads, &[2])]);
    app.next();
    assert_eq!(app.selected, Some(1));
    app.next();
    assert_eq!(app.selected, Some(0));
    app.previous();
    assert_eq!(app.selected, Some(1));
    let mut empty = App::new_scanning();
    empty.next();
    assert_eq!(empty.selected, None);
}

#[test]
fn clean_request_with_nothing_selected_stays_browsing() {
    let mut app = browsing(vec![row(CategoryType::Trash, &[3])]);
    assert_eq!(app.total_selected_size(), 0);
    app.request_clean();
    assert!(matches!(app.state, AppState::Browsing));
    assert!(matches!(app.handle_key(Key::Enter), Action::Continue));
    assert!(matches!(app.state, AppState::Browsing));
}

#[test]
fn clean_request_with_zero_sized_selection_stays_browsing() {
    let mut app = browsing(vec![row(CategoryType::Trash, &[0])]);
    app.toggle();
    assert!(app.results[0].is_selected);
    app.request_clean();
    assert!(matches!(app.state, AppState::Browsing));
}

#[test]
fn clean_request_with_selection_confirms() {
    let mut app = browsing(vec![row(CategoryType::Trash, &[3]), row(CategoryType::Downloads, &[4])]);
    app.handle_key(Key::Char(' '));
    assert_eq!(app.total_selected_size(), 4);
    app.handle_key(Key::Enter);
    assert!(matches!(app.state, AppState::Confirming));
    app.handle_key(Key::Esc);
    assert!(matches!(app.state, AppState::Browsing));
}

#[test]
fn confirmed_clean_round_trip() {
    let mut app = browsing(vec![row(CategoryType::Trash, &[3, 1]), row(CategoryType::Downloads, &[5])]);
    app.handle_key(Key::Char('j'));
    app.handle_key(Key::Char(' '));
    app.handle_key(Key::Enter);
    let items = match app.handle_key(Key::Char('y')) {
        Action::Clean(items) => items,
        _ => panic!("expected a clean"),
    };
    assert!(matches!(app.state, AppState::Cleaning));
    let sizes: Vec<u64> = items.iter().map(|i| i.size).collect();
    assert_eq!(sizes, vec![3, 1]);
    assert!(matches!(app.handle_key(Key::Char('q')), Action::Continue));
    app.finish_cleaning(Ok("Successfully cleaned 4 B!".to_string()));
    match &app.state {
        AppState::Done(m) => assert_eq!(m, "Successfully cleaned 4 B!"),
        _ => panic!("expected done"),
    }
    assert_eq!(app.results[1].total_size, 0);
    assert!(app.results[1].items.is_empty());
    assert!(!app.results[1].is_selected);
    assert_eq!(app.results[0].total_size, 5);
    assert_eq!(app.total_selected_size(), 0);
    app.handle_key(Key::Enter);
    assert!(matches!(app.state, AppState::Browsing));
}

#[test]
fn failed_clean_still_clears_selected_rows() {
    let mut app = browsing(vec![row(CategoryType::Trash, &[3]), row(CategoryType::Downloads, &[1])]);
    app.toggle();
    app.handle_key(Key::Enter);
    let _ = app.handle_key(Key::Enter);
    app.finish_cleaning(Err("Error during cleaning: boom".to_string()));
    match &app.state {
        AppState::Done(m) => assert_eq!(m, "Error during cleaning: boom"),
        _ => panic!("expected done"),
    }
    assert_eq!(app.results[0].total_size, 0);
    assert!(app.results[0].items.is_empty());
    assert!(!app.results[0].is_selected);
    assert_eq!(app.results[1].total_size, 1);
}

#[test]
fn selection_without_items_finishes_at_once() {
    let mut app = browsing(vec![row(CategoryType::Trash, &[])]);
    app.state = AppState::Confirming;
    let items = app.clean_selected();
    assert!(items.is_empty());
    match &app.state {
        AppState::Done(m) => assert_eq!(m, "Nothing selected to clean."),
        _ => panic!("expected done"),
    }
}

#[test]
fn quitting_from_browsing_and_scanning() {
    let mut app = App::new_scanning();
    assert!(matches!(app.handle_key(Key::Esc), Action::Quit));
    let mut b = browsing(vec![row(CategoryType::Trash, &[1])]);
    assert!(matches!(b.handle_key(Key::Char('q')), Action::Quit));
    assert!(matches!(b.handle_key(Key::Other), Action::Continue));
}

#[test]
fn repeated_categories_get_one_progress_entry() {
    let mut app = App::new_scanning();
    app.start_scan(&vec![CategoryType::Trash, CategoryType::Downloads, CategoryType::Trash]);
    assert_eq!(app.scan_progress.len(), 2);
    assert_eq!(app.total_categories, 3);
    assert_eq!(app.scan_progress[0].category, CategoryType::Trash);
    assert_eq!(app.scan_progress[1].category, CategoryType::Downloads);
}

#[test]
fn category_names() {
    assert_eq!(CategoryType::XcodeJunk.name(), "Xcode Junk");
    assert_eq!(CategoryType::DockerImages.name(), "Docker Images");
    assert_eq!(CategoryType::ScreenCapture.name(), "Screen Capture Files");
    assert_eq!(all_categories().len(), 12);
}
