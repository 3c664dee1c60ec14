use sukkiri::allowlist::Allowlist;
use sukkiri::model::{CategoryType, ScanResult, ScannedItem};
use sukkiri::scan::{item_stats, matching_directories, summarize, unprotected_entries, EntryMeta, WalkEntry};
use sukkiri::scanners::{
    probed_roots, scanner_for, Scanner, browser_roots, developer_caches_scanner, file_name_of, merge_roots, resolve_home, scan_browser_cache,
    scan_trash, scan_xcode_junk, system_logs_scanner, user_logs_scanner, xcode_roots, NodeModulesScanner,
    PathScanner, RootScan, ScreenCaptureScanner, UserCacheScanner,
};
use sukkiri::text::join_path;

fn item(path: &str, size: u64) -> ScannedItem {
    ScannedItem { path: path.to_string(), size, modified: 0 }
}

fn file(len: u64, modified: u64) -> Option<EntryMeta> {
    Some(EntryMeta { is_file: true, len, modified: Some(modified) })
}

fn dir(modified: u64) -> Option<EntryMeta> {
    Some(EntryMeta { is_file: false, len: 4096, modified: Some(modified) })
}

#[test]
fn two_folders_of_100_and_200_bytes() {
    let folder_a = item_stats("/t/FolderA".to_string(), Some(5), &vec![dir(5), file(100, 6)]);
    let folder_b = item_stats("/t/FolderB".to_string(), Some(7), &vec![dir(7), file(200, 8)]);
    assert_eq!(folder_a.size, 100);
    assert_eq!(folder_b.size, 200);
    let (total, items) = summarize(vec![folder_a, folder_b]);
    assert_eq!(total, 300);
    assert_eq!(items.len(), 2);
    assert_eq!(items[0].size, 200);
    assert_eq!(items[1].size, 100);
    assert_eq!(items[0].path, "/t/FolderB");
}

#[test]
fn empty_directory_sums_to_nothing() {
    let (total, items) = summarize(vec![]);
    assert_eq!(total, 0);
    assert!(items.is_empty());
}

#[test]
fn item_stats_counts_files_and_latest_time() {
    let entries = vec![dir(10), file(3, 50), None, Some(EntryMeta { is_file: true, len: 4, modified: None }), dir(70)];
    let it = item_stats("/x".to_string(), Some(10), &entries);
    assert_eq!(it.path, "/x");
    assert_eq!(it.size, 7);
    assert_eq!(it.modified, 70);
    let unreadable = item_stats("/y".to_string(), None, &vec![None]);
    assert_eq!(unreadable.size, 0);
    assert_eq!(unreadable.modified, 0);
}

#[test]
fn item_stats_saturates() {
    let it = item_stats("/big".to_string(), None, &vec![file(u64::MAX, 1), file(1, 1)]);
    assert_eq!(it.size, u64::MAX);
}

#[test]
fn summarize_keeps_equal_sizes_in_order() {
    let (total, items) = summarize(vec![item("/a", 5), item("/b", 9), item("/c", 5), item("/d", 1)]);
    assert_eq!(total, 20);
    let paths: Vec<&str> = items.iter().map(|i| i.path.as_str()).collect();
    assert_eq!(paths, vec!["/b", "/a", "/c", "/d"]);
}

#[test]
fn allowlisted_entries_are_not_measured() {
    let allowlist = Allowlist::new(vec!["/root/keep".to_string()]);
    let kept = unprotected_entries(
        vec!["/root/a".to_string(), "/root/keep".to_string(), "/root/keeper".to_string(), "/root/b".to_string()],
        &allowlist,
    );
    assert_eq!(kept, vec!["/root/a".to_string(), "/root/b".to_string()]);
}

#[test]
fn recursive_search_over_two_projects() {
    let entries = vec![
        WalkEntry { path: "/p".to_string(), name: "p".to_string(), is_dir: true },
        WalkEntry { path: "/p/Project1".to_string(), name: "Project1".to_string(), is_dir: true },
        WalkEntry { path: "/p/Project1/node_modules".to_string(), name: "node_modules".to_string(), is_dir: true },
        WalkEntry { path: "/p/Project2".to_string(), name: "Project2".to_string(), is_dir: true },
        WalkEntry { path: "/p/Project2/node_modules".to_string(), name: "node_modules".to_string(), is_dir: true },
        WalkEntry { path: "/p/Project2/node_modules.txt".to_string(), name: "node_modules".to_string(), is_dir: false },
    ];
    let found = matching_directories(entries, "node_modules", &Allowlist::new(vec![]));
    assert_eq!(found, vec!["/p/Project1/node_modules".to_string(), "/p/Project2/node_modules".to_string()]);
    let measured = vec![
        item_stats(found[0].clone(), None, &vec![dir(1), file(100, 2)]),
        item_stats(found[1].clone(), None, &vec![dir(1), file(200, 2)]),
    ];
    let scanner = NodeModulesScanner { home: "/Users/me".to_string() };
    let r = scanner.scan(measured);
    assert_eq!(r.items.len(), 2);
    assert_eq!(r.items[0].size, 200);
    assert_eq!(r.items[1].size, 100);
    assert_eq!(r.total_size, 300);
    assert_eq!(r.root_path, "/Users/me/Projects");
    assert_eq!(scanner.target_name(), "node_modules");
}

#[test]
fn recursive_search_respects_allowlist() {
    let entries = vec![
        WalkEntry { path: "/p/A/node_modules".to_string(), name: "node_modules".to_string(), is_dir: true },
        WalkEntry { path: "/p/B/node_modules".to_string(), name: "node_modules".to_string(), is_dir: true },
    ];
    let found = matching_directories(entries, "node_modules", &Allowlist::new(vec!["/p/A".to_string()]));
    assert_eq!(found, vec!["/p/B/node_modules".to_string()]);
}

#[test]
fn paths_join_with_one_separator() {
    assert_eq!(join_path("/Users/me", "Downloads"), "/Users/me/Downloads");
    assert_eq!(join_path("/Users/me/", "Downloads"), "/Users/me/Downloads");
    assert_eq!(join_path("", "x"), "x");
}

#[test]
fn xcode_roots_and_fallback() {
    let roots = xcode_roots("/Users/me");
    assert_eq!(roots[0], "/Users/me/Library/Developer/Xcode/DerivedData");
    assert_eq!(roots[3], "/Users/me/Library/Developer/CoreSimulator");
    let (items, desc, root) = scan_xcode_junk("/Users/me", vec![]);
    assert!(items.is_empty());
    assert_eq!(desc, "Xcode build artifacts, archives, and device support.");
    assert_eq!(root, "/Users/me/Library/Developer/Xcode");
}

#[test]
fn first_existing_root_wins() {
    let found = vec![
        RootScan { root: "/h/Library/Caches/com.apple.Safari".to_string(), items: vec![item("/s1", 5)] },
        RootScan { root: "/h/Library/Caches/Firefox".to_string(), items: vec![item("/f1", 9), item("/f2", 1)] },
    ];
    let (items, desc, root) = scan_browser_cache("/h", found);
    assert_eq!(root, "/h/Library/Caches/com.apple.Safari");
    assert_eq!(desc, "Web browser caches (Chrome, Safari, Firefox).");
    let paths: Vec<&str> = items.iter().map(|i| i.path.as_str()).collect();
    assert_eq!(paths, vec!["/f1", "/s1", "/f2"]);
    assert_eq!(browser_roots("/h")[2], "/h/Library/Caches/Firefox");
    let (none, _, fallback) = scan_browser_cache("/h", vec![]);
    assert!(none.is_empty());
    assert_eq!(fallback, "/h/Library/Caches");
}

#[test]
fn merge_keeps_root_order() {
    let (items, root) = merge_roots(
        vec![RootScan { root: "/a".to_string(), items: vec![item("/a/1", 1)] }],
        "/fallback".to_string(),
    );
    assert_eq!(root, "/a");
    assert_eq!(items.len(), 1);
}

#[test]
fn trash_scan() {
    let (items, desc, root) = scan_trash("/Users/me", vec![item("/Users/me/.Trash/x", 3)]);
    assert_eq!(items.len(), 1);
    assert_eq!(desc, "Trash folder contents.");
    assert_eq!(root, "/Users/me/.Trash");
}

#[test]
fn developer_caches_keep_existing_roots() {
    let s = developer_caches_scanner("/h", &vec![true, false, false, true, true, false]);
    assert_eq!(s.category(), CategoryType::DeveloperCaches);
    assert_eq!(s.paths, vec!["/h/.npm".to_string(), "/h/go/pkg/mod".to_string(), "/h/.cargo/registry".to_string()]);
    assert_eq!(s.description(), "Caches for npm, bun, pnpm, go, cargo, gradle, etc.");
}

#[test]
fn path_scanner_merges_and_sorts_all_roots() {
    let s = system_logs_scanner(&vec![true, true]);
    assert_eq!(s.paths, vec!["/Library/Logs".to_string(), "/private/var/log".to_string()]);
    let found = vec![
        RootScan { root: "/Library/Logs".to_string(), items: vec![item("/Library/Logs/a", 1)] },
        RootScan { root: "/private/var/log".to_string(), items: vec![item("/private/var/log/b", 8)] },
    ];
    let r = s.scan("/h", found);
    assert_eq!(r.category, CategoryType::SystemLogs);
    assert_eq!(r.total_size, 9);
    assert_eq!(r.items[0].size, 8);
    assert_eq!(r.root_path, "/Library/Logs");
}

#[test]
fn path_scanner_without_paths_shows_home() {
    let s = PathScanner { category: CategoryType::Downloads, description: "d".to_string(), paths: vec![] };
    let r = s.scan("/Users/me", vec![]);
    assert_eq!(r.root_path, "/Users/me");
    assert_eq!(r.total_size, 0);
    let logs = user_logs_scanner("/Users/me");
    assert_eq!(logs.paths, vec!["/Users/me/Library/Logs".to_string()]);
}

#[test]
fn user_cache_drops_browser_caches_and_adds_containers() {
    let s = UserCacheScanner { home: "/h".to_string() };
    let cache = vec![
        item("/h/Library/Caches/com.apple.Safari", 50),
        item("/h/Library/Caches/pip", 10),
        item("/h/Library/Caches/Firefox", 70),
    ];
    let containers = vec![item("/h/Library/Containers/app/Data/Library/Caches/x", 20)];
    let r = s.scan(cache, containers);
    assert_eq!(r.category, CategoryType::UserCache);
    assert_eq!(r.total_size, 30);
    assert_eq!(r.items.len(), 2);
    assert_eq!(r.items[0].size, 20);
    assert_eq!(r.root_path, "/h/Library/Caches");
    assert_eq!(s.containers_root(), "/h/Library/Containers");
    assert_eq!(UserCacheScanner::container_cache_root("/h/Library/Containers/app"), "/h/Library/Containers/app/Data/Library/Caches");
}

#[test]
fn screen_captures_by_name() {
    let s = ScreenCaptureScanner { home: "/h".to_string() };
    let desktop = vec![
        item("/h/Desktop/Screenshot 2024-01-01.png", 5),
        item("/h/Desktop/notes.txt", 50),
        item("/h/Desktop/スクリーンショット 1.png", 7),
        item("/h/Desktop/My Screenshot.png", 9),
    ];
    let r = s.scan(desktop);
    assert_eq!(r.items.len(), 2);
    assert_eq!(r.total_size, 12);
    assert_eq!(r.items[0].path, "/h/Desktop/スクリーンショット 1.png");
    assert_eq!(r.root_path, "/h/Desktop");
    assert_eq!(file_name_of("/a/b/c.txt"), "c.txt");
    assert_eq!(file_name_of("plain"), "plain");
}

#[test]
fn home_follows_invoking_user() {
    assert_eq!(resolve_home(Some("alice".to_string()), Some("/var/root".to_string())), Some("/Users/alice".to_string()));
    assert_eq!(resolve_home(None, Some("/Users/bob".to_string())), Some("/Users/bob".to_string()));
    assert_eq!(resolve_home(None, None), None);
}

#[test]
fn assembled_result_is_sorted_and_unselected() {
    let r = ScanResult::assemble(
        CategoryType::Trash,
        "t".to_string(),
        "/h/.Trash".to_string(),
        vec![item("/1", 1), item("/3", 3), item("/2", 2)],
    );
    assert_eq!(r.total_size, 6);
    let sizes: Vec<u64> = r.items.iter().map(|i| i.size).collect();
    assert_eq!(sizes, vec![3, 2, 1]);
    assert!(!r.is_selected);
}

#[test]
fn xcode_items_come_out_largest_first() {
    let found = vec![
        RootScan { root: "/h/a".to_string(), items: vec![item("/h/a/1", 1)] },
        RootScan { root: "/h/b".to_string(), items: vec![item("/h/b/5", 5)] },
    ];
    let (items, _, root) = scan_xcode_junk("/h", found);
    let sizes: Vec<u64> = items.iter().map(|i| i.size).collect();
    assert_eq!(sizes, vec![5, 1]);
    assert_eq!(root, "/h/a");
}

#[test]
fn equal_sizes_keep_listing_order() {
    let s = ScreenCaptureScanner { home: "/h".to_string() };
    let r = s.scan(vec![
        item("/h/Desktop/Screenshot b.png", 4),
        item("/h/Desktop/Screenshot a.png", 4),
        item("/h/Desktop/Screenshot c.png", 9),
    ]);
    let paths: Vec<&str> = r.items.iter().map(|i| i.path.as_str()).collect();
    assert_eq!(paths, vec!["/h/Desktop/Screenshot c.png", "/h/Desktop/Screenshot b.png", "/h/Desktop/Screenshot a.png"]);
}

#[test]
fn scanner_choice_per_category() {
    assert_eq!(probed_roots(CategoryType::SystemLogs, "/h"), vec!["/Library/Logs".to_string(), "/private/var/log".to_string()]);
    assert_eq!(probed_roots(CategoryType::DeveloperCaches, "/h").len(), 6);
    assert!(probed_roots(CategoryType::Trash, "/h").is_empty());
    match scanner_for(CategoryType::SystemLogs, "/h", &vec![false, true]) {
        Scanner::Paths(p) => assert_eq!(p.paths, vec!["/private/var/log".to_string()]),
        _ => panic!("expected a path scanner"),
    }
    match scanner_for(CategoryType::Downloads, "/h", &vec![]) {
        Scanner::Paths(p) => {
            assert_eq!(p.paths, vec!["/h/Downloads".to_string()]);
            assert_eq!(p.category(), CategoryType::Downloads);
        }
        _ => panic!("expected a path scanner"),
    }
    assert!(matches!(scanner_for(CategoryType::NodeModules, "/h", &vec![]), Scanner::NodeModules(_)));
    assert!(matches!(scanner_for(CategoryType::DockerImages, "/h", &vec![]), Scanner::Docker(_)));
    match scanner_for(CategoryType::Trash, "/h", &vec![]) {
        Scanner::Trash(h) => assert_eq!(h, "/h"),
        _ => panic!("expected the trash scanner"),
    }
}
