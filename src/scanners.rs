//! The category scanners: where each category looks, and how the
//! measurements of those places become the category's items.

use vstd::prelude::*;
use vstd::string::*;
use crate::model::{capped, keeps_order_per_size, size_sum, sort_by_size_desc, sorted_by_size, CategoryType, ScanResult, ScannedItem};
use crate::docker::DockerScanner;
use crate::text::{contains, is_prefix, join_path, joined, occurs_in, starts_with, to_owned_text};

verus! {

/// The measured entries of one scanned root that exists.
pub struct RootScan {
    pub root: String,
    pub items: Vec<ScannedItem>,
}

/// The items of all scanned roots, root after root.
pub open spec fn items_of_roots(found: Seq<RootScan>) -> Seq<ScannedItem>
    decreases found.len(),
{
    if found.len() == 0 {
        Seq::empty()
    } else {
        items_of_roots(found.drop_last()) + found.last().items@
    }
}

/// The first scanned root, or `fallback` where none exists.
pub open spec fn first_root_or(found: Seq<RootScan>, fallback: Seq<char>) -> Seq<char> {
    if found.len() > 0 {
        found[0].root@
    } else {
        fallback
    }
}

/// The items of all scanned roots in order, and the root to display: the
/// first one scanned, or `fallback` where none exists.
pub fn merge_roots(found: Vec<RootScan>, fallback: String) -> (r: (Vec<ScannedItem>, String))
    ensures
        r.0@ == items_of_roots(found@),
        r.1@ == first_root_or(found@, fallback@),
{
    let ghost all = found@;
    let n0 = found.len();
    let mut rest = found;
    let mut items: Vec<ScannedItem> = Vec::new();
    let mut root = fallback;
    let mut k: usize = 0;
    while rest.len() > 0
        invariant
            all.len() == n0,
            n0 == k + rest.len(),
            rest@ == all.subrange(k as int, n0 as int),
            items@ == items_of_roots(all.subrange(0, k as int)),
            root@ == first_root_or(all.subrange(0, k as int), fallback@),
        decreases rest.len(),
    {
        let RootScan { root: this_root, items: mut these } = rest.remove(0);
        proof {
            assert(rest@ =~= all.subrange(k + 1, n0 as int));
            let pre = all.subrange(0, k + 1);
            assert(pre.drop_last() =~= all.subrange(0, k as int));
            assert(pre.last() == all[k as int]);
            assert(pre[0] == all[0]);
        }
        if k == 0 {
            root = this_root;
        }
        items.append(&mut these);
        k += 1;
    }
    assert(all.subrange(0, n0 as int) =~= all);
    (items, root)
}

/// Under `home`, the places where Xcode leaves reclaimable data.
pub fn xcode_roots(home: &str) -> (r: Vec<String>)
    ensures
        r@.len() == 4,
        r@[0]@ == joined(home@, "Library/Developer/Xcode/DerivedData"@),
        r@[1]@ == joined(home@, "Library/Developer/Xcode/Archives"@),
        r@[2]@ == joined(home@, "Library/Developer/Xcode/iOS DeviceSupport"@),
        r@[3]@ == joined(home@, "Library/Developer/CoreSimulator"@),
{
    let mut r: Vec<String> = Vec::new();
    r.push(join_path(home, "Library/Developer/Xcode/DerivedData"));
    r.push(join_path(home, "Library/Developer/Xcode/Archives"));
    r.push(join_path(home, "Library/Developer/Xcode/iOS DeviceSupport"));
    r.push(join_path(home, "Library/Developer/CoreSimulator"));
    r
}

/// Xcode's category from the scans of those of [`xcode_roots`] that exist:
/// their items largest first, a description, and the root to display (the
/// first found, or `Library/Developer/Xcode` under `home`).
pub fn scan_xcode_junk(home: &str, found: Vec<RootScan>) -> (r: (Vec<ScannedItem>, String, String))
    ensures
        sorted_by_size(r.0@),
        r.0@.to_multiset() =~= items_of_roots(found@).to_multiset(),
        keeps_order_per_size(r.0@, items_of_roots(found@)),
        r.1@ == "Xcode build artifacts, archives, and device support."@,
        r.2@ == first_root_or(found@, joined(home@, "Library/Developer/Xcode"@)),
{
    let (items, root) = merge_roots(found, join_path(home, "Library/Developer/Xcode"));
    (sort_by_size_desc(items), to_owned_text("Xcode build artifacts, archives, and device support."), root)
}

/// Under `home`, the caches of the known web browsers.
pub fn browser_roots(home: &str) -> (r: Vec<String>)
    ensures
        r@.len() == 3,
        r@[0]@ == joined(home@, "Library/Caches/Google/Chrome"@),
        r@[1]@ == joined(home@, "Library/Caches/com.apple.Safari"@),
        r@[2]@ == joined(home@, "Library/Caches/Firefox"@),
{
    let mut r: Vec<String> = Vec::new();
    r.push(join_path(home, "Library/Caches/Google/Chrome"));
    r.push(join_path(home, "Library/Caches/com.apple.Safari"));
    r.push(join_path(home, "Library/Caches/Firefox"));
    r
}

/// The browser cache category from the scans of those of [`browser_roots`]
/// that exist, their items largest first; the root to display falls back to
/// `Library/Caches`.
pub fn scan_browser_cache(home: &str, found: Vec<RootScan>) -> (r: (Vec<ScannedItem>, String, String))
    ensures
        sorted_by_size(r.0@),
        r.0@.to_multiset() =~= items_of_roots(found@).to_multiset(),
        keeps_order_per_size(r.0@, items_of_roots(found@)),
        r.1@ == "Web browser caches (Chrome, Safari, Firefox)."@,
        r.2@ == first_root_or(found@, joined(home@, "Library/Caches"@)),
{
    let (items, root) = merge_roots(found, join_path(home, "Library/Caches"));
    (sort_by_size_desc(items), to_owned_text("Web browser caches (Chrome, Safari, Firefox)."), root)
}

/// The trash folder under `home`.
pub fn trash_root(home: &str) -> (r: String)
    ensures
        r@ == joined(home@, ".Trash"@),
{
    join_path(home, ".Trash")
}

/// The trash category from the measured entries of [`trash_root`] (none
/// where it does not exist).
pub fn scan_trash(home: &str, items: Vec<ScannedItem>) -> (r: (Vec<ScannedItem>, String, String))
    ensures
        r.0@ == items@,
        r.1@ == "Trash folder contents."@,
        r.2@ == joined(home@, ".Trash"@),
{
    (items, to_owned_text("Trash folder contents."), trash_root(home))
}

/// The candidates of `candidates` whose flag in `present` is set, in order.
pub open spec fn present_only(candidates: Seq<Seq<char>>, present: Seq<bool>) -> Seq<Seq<char>>
    decreases candidates.len(),
{
    if candidates.len() == 0 || present.len() != candidates.len() {
        Seq::empty()
    } else {
        let prev = present_only(candidates.drop_last(), present.drop_last());
        if present.last() {
            prev.push(candidates.last())
        } else {
            prev
        }
    }
}

/// The candidates that were found to exist (`present[i]` for `candidates[i]`).
pub fn keep_present(candidates: Vec<String>, present: &Vec<bool>) -> (r: Vec<String>)
    requires
        candidates@.len() == present@.len(),
    ensures
        r.deep_view() == present_only(candidates.deep_view(), present@),
{
    let ghost cs = candidates.deep_view();
    let n0 = candidates.len();
    assert(cs.len() == n0);
    let mut rest = candidates;
    let mut r: Vec<String> = Vec::new();
    let mut k: usize = 0;
    while rest.len() > 0
        invariant
            n0 == cs.len(),
            n0 == present@.len(),
            n0 == k + rest.len(),
            forall|i: int| 0 <= i < rest.len() ==> #[trigger] rest@[i]@ == cs[k + i],
            r.deep_view() == present_only(cs.subrange(0, k as int), present@.subrange(0, k as int)),
        decreases rest.len(),
    {
        let ghost old_rest = rest@;
        let c = rest.remove(0);
        proof {
            assert(c == old_rest[0]);
            assert forall|i: int| 0 <= i < rest.len() implies #[trigger] rest@[i]@ == cs[k + 1 + i] by {
                assert(rest@[i] == old_rest[i + 1]);
            }
            assert(cs.subrange(0, k + 1).drop_last() =~= cs.subrange(0, k as int));
            assert(present@.subrange(0, k + 1).drop_last() =~= present@.subrange(0, k as int));
        }
        if present[k] {
            let ghost cv = c@;
            r.push(c);
            proof {
                assert(r.deep_view() =~= present_only(cs.subrange(0, k as int), present@.subrange(0, k as int)).push(cv));
            }
        }
        k += 1;
    }
    assert(cs.subrange(0, n0 as int) =~= cs);
    assert(present@.subrange(0, n0 as int) =~= present@);
    r
}

/// A category that lists the entries of a fixed set of directories.
pub struct PathScanner {
    pub category: CategoryType,
    pub description: String,
    pub paths: Vec<String>,
}

impl PathScanner {
    /// The category it fills.
    pub fn category(&self) -> (r: CategoryType)
        ensures
            r == self.category,
    {
        self.category
    }

    /// What the category holds.
    pub fn description(&self) -> (r: String)
        ensures
            r@ == self.description@,
    {
        to_owned_text(self.description.as_str())
    }

    /// The category's result from the scans of its paths that exist: all
    /// their items, largest first; the root shown is the first of its paths,
    /// or `home` where it has none.
    pub fn scan(&self, home: &str, found: Vec<RootScan>) -> (r: ScanResult)
        ensures
            r.category == self.category,
            r.description@ == self.description@,
            r.root_path@ == (if self.paths@.len() > 0 {
                self.paths@[0]@
            } else {
                home@
            }),
            r.total_size == capped(size_sum(items_of_roots(found@))),
            sorted_by_size(r.items@),
            r.items@.to_multiset() =~= items_of_roots(found@).to_multiset(),
            keeps_order_per_size(r.items@, items_of_roots(found@)),
            !r.is_selected,
    {
        let (items, _) = merge_roots(found, to_owned_text(home));
        let root = if self.paths.len() > 0 {
            to_owned_text(self.paths[0].as_str())
        } else {
            to_owned_text(home)
        };
        ScanResult::assemble(self.category, self.description(), root, items)
    }
}

/// Under `home`, the caches of package managers and build tools.
pub fn developer_cache_roots(home: &str) -> (r: Vec<String>)
    ensures
        r@.len() == 6,
        r@[0]@ == joined(home@, ".npm"@),
        r@[1]@ == joined(home@, ".bun/install/cache"@),
        r@[2]@ == joined(home@, ".pnpm-store"@),
        r@[3]@ == joined(home@, "go/pkg/mod"@),
        r@[4]@ == joined(home@, ".cargo/registry"@),
        r@[5]@ == joined(home@, ".gradle/caches"@),
{
    let mut r: Vec<String> = Vec::new();
    r.push(join_path(home, ".npm"));
    r.push(join_path(home, ".bun/install/cache"));
    r.push(join_path(home, ".pnpm-store"));
    r.push(join_path(home, "go/pkg/mod"));
    r.push(join_path(home, ".cargo/registry"));
    r.push(join_path(home, ".gradle/caches"));
    r
}

/// The developer cache scanner over those of [`developer_cache_roots`] that
/// exist (`present[i]` for the `i`-th).
pub fn developer_caches_scanner(home: &str, present: &Vec<bool>) -> (r: PathScanner)
    requires
        present@.len() == 6,
    ensures
        r.category == CategoryType::DeveloperCaches,
        r.description@ == "Caches for npm, bun, pnpm, go, cargo, gradle, etc."@,
        r.paths.deep_view() == present_only(
            seq![
                joined(home@, ".npm"@),
                joined(home@, ".bun/install/cache"@),
                joined(home@, ".pnpm-store"@),
                joined(home@, "go/pkg/mod"@),
                joined(home@, ".cargo/registry"@),
                joined(home@, ".gradle/caches"@),
            ],
            present@,
        ),
{
    let candidates = developer_cache_roots(home);
    let ghost cs = candidates.deep_view();
    proof {
        assert(cs =~= seq![
            joined(home@, ".npm"@),
            joined(home@, ".bun/install/cache"@),
            joined(home@, ".pnpm-store"@),
            joined(home@, "go/pkg/mod"@),
            joined(home@, ".cargo/registry"@),
            joined(home@, ".gradle/caches"@),
        ]);
    }
    PathScanner {
        category: CategoryType::DeveloperCaches,
        description: to_owned_text("Caches for npm, bun, pnpm, go, cargo, gradle, etc."),
        paths: keep_present(candidates, present),
    }
}

/// The system log scanner over those of `/Library/Logs` and
/// `/private/var/log` that exist (`present[i]` for the `i`-th).
pub fn system_logs_scanner(present: &Vec<bool>) -> (r: PathScanner)
    requires
        present@.len() == 2,
    ensures
        r.category == CategoryType::SystemLogs,
        r.description@ == "System log files (/Library/Logs, /private/var/log)."@,
        r.paths.deep_view() == present_only(seq!["/Library/Logs"@, "/private/var/log"@], present@),
{
    let mut candidates: Vec<String> = Vec::new();
    candidates.push(to_owned_text("/Library/Logs"));
    candidates.push(to_owned_text("/private/var/log"));
    assert(candidates.deep_view() =~= seq!["/Library/Logs"@, "/private/var/log"@]);
    PathScanner {
        category: CategoryType::SystemLogs,
        description: to_owned_text("System log files (/Library/Logs, /private/var/log)."),
        paths: keep_present(candidates, present),
    }
}

/// The user log scanner: `Library/Logs` under `home`.
pub fn user_logs_scanner(home: &str) -> (r: PathScanner)
    ensures
        r.category == CategoryType::UserLogs,
        r.description@ == "User log files."@,
        r.paths@.len() == 1,
        r.paths@[0]@ == joined(home@, "Library/Logs"@),
{
    let mut paths: Vec<String> = Vec::new();
    paths.push(join_path(home, "Library/Logs"));
    PathScanner { category: CategoryType::UserLogs, description: to_owned_text("User log files."), paths }
}

/// The system cache scanner: `/Library/Caches`.
pub fn system_cache_scanner() -> (r: PathScanner)
    ensures
        r.category == CategoryType::SystemCache,
        r.description@ == "System cache files."@,
        r.paths@.len() == 1,
        r.paths@[0]@ == "/Library/Caches"@,
{
    let mut paths: Vec<String> = Vec::new();
    paths.push(to_owned_text("/Library/Caches"));
    PathScanner { category: CategoryType::SystemCache, description: to_owned_text("System cache files."), paths }
}

/// The downloads scanner: `Downloads` under `home`.
pub fn downloads_scanner(home: &str) -> (r: PathScanner)
    ensures
        r.category == CategoryType::Downloads,
        r.description@ == "All files in Downloads folder."@,
        r.paths@.len() == 1,
        r.paths@[0]@ == joined(home@, "Downloads"@),
{
    let mut paths: Vec<String> = Vec::new();
    paths.push(join_path(home, "Downloads"));
    PathScanner {
        category: CategoryType::Downloads,
        description: to_owned_text("All files in Downloads folder."),
        paths,
    }
}

/// The home directory to scan: that of the invoking user under `/Users`
/// when running on their behalf (`sudo_user`), else the process's own.
pub fn resolve_home(sudo_user: Option<String>, home_dir: Option<String>) -> (r: Option<String>)
    ensures
        sudo_user is Some ==> r is Some && r->0@ == joined("/Users"@, sudo_user->0@),
        sudo_user is None ==> r == home_dir,
{
    match sudo_user {
        Some(u) => Some(join_path("/Users", u.as_str())),
        None => home_dir,
    }
}

/// The scanner of dependency directories left in projects under `home`.
pub struct NodeModulesScanner {
    pub home: String,
}

impl NodeModulesScanner {
    /// The category it fills.
    pub fn category(&self) -> (r: CategoryType)
        ensures
            r == CategoryType::NodeModules,
    {
        CategoryType::NodeModules
    }

    /// What the category holds.
    pub fn description(&self) -> (r: String)
        ensures
            r@ == "Unused node_modules (Recursively found in ~/Projects)"@,
    {
        to_owned_text("Unused node_modules (Recursively found in ~/Projects)")
    }

    /// The directory under which projects are searched.
    pub fn projects_root(&self) -> (r: String)
        ensures
            r@ == joined(self.home@, "Projects"@),
    {
        join_path(self.home.as_str(), "Projects")
    }

    /// The directory name searched for.
    pub fn target_name(&self) -> (r: &'static str)
        ensures
            r@ == "node_modules"@,
    {
        "node_modules"
    }

    /// The category's result from the measured matches of the search (none
    /// where the projects directory does not exist), largest first.
    pub fn scan(&self, found: Vec<ScannedItem>) -> (r: ScanResult)
        ensures
            r.category == CategoryType::NodeModules,
            r.description@ == "Unused node_modules (Recursively found in ~/Projects)"@,
            r.root_path@ == joined(self.home@, "Projects"@),
            r.total_size == capped(size_sum(found@)),
            sorted_by_size(r.items@),
            r.items@.to_multiset() =~= found@.to_multiset(),
            keeps_order_per_size(r.items@, found@),
            !r.is_selected,
    {
        ScanResult::assemble(self.category(), self.description(), self.projects_root(), found)
    }
}

/// A path inside one of the browser caches that have a category of their own.
pub open spec fn in_browser_cache(p: Seq<char>) -> bool {
    occurs_in(p, "Library/Caches/Google/Chrome"@) || occurs_in(p, "Library/Caches/com.apple.Safari"@)
        || occurs_in(p, "Library/Caches/Firefox"@)
}

/// The items of `items` outside the browser caches, in order.
pub open spec fn outside_browser_caches(items: Seq<ScannedItem>) -> Seq<ScannedItem>
    decreases items.len(),
{
    if items.len() == 0 {
        Seq::empty()
    } else {
        let prev = outside_browser_caches(items.drop_last());
        if in_browser_cache(items.last().path@) {
            prev
        } else {
            prev.push(items.last())
        }
    }
}

/// Drops the items that lie in a browser cache, keeping the order of the rest.
pub fn drop_browser_caches(items: Vec<ScannedItem>) -> (r: Vec<ScannedItem>)
    ensures
        r@ == outside_browser_caches(items@),
{
    let ghost all = items@;
    let n0 = items.len();
    let mut rest = items;
    let mut r: Vec<ScannedItem> = Vec::new();
    let mut k: usize = 0;
    while rest.len() > 0
        invariant
            all.len() == n0,
            n0 == k + rest.len(),
            rest@ == all.subrange(k as int, n0 as int),
            r@ == outside_browser_caches(all.subrange(0, k as int)),
        decreases rest.len(),
    {
        let it = rest.remove(0);
        proof {
            assert(rest@ =~= all.subrange(k + 1, n0 as int));
            assert(all.subrange(0, k + 1).drop_last() =~= all.subrange(0, k as int));
        }
        let p = it.path.as_str();
        let browser = contains(p, "Library/Caches/Google/Chrome") || contains(p, "Library/Caches/com.apple.Safari")
            || contains(p, "Library/Caches/Firefox");
        if !browser {
            r.push(it);
            proof {
                assert(r@ =~= outside_browser_caches(all.subrange(0, k as int)).push(all[k as int]));
            }
        }
        k += 1;
    }
    assert(all.subrange(0, n0 as int) =~= all);
    r
}

/// The scanner of per-user caches, including those of sandboxed applications.
pub struct UserCacheScanner {
    pub home: String,
}

impl UserCacheScanner {
    /// The category it fills.
    pub fn category(&self) -> (r: CategoryType)
        ensures
            r == CategoryType::UserCache,
    {
        CategoryType::UserCache
    }

    /// What the category holds.
    pub fn description(&self) -> (r: String)
        ensures
            r@ == "User cache files (including sandboxed apps)."@,
    {
        to_owned_text("User cache files (including sandboxed apps).")
    }

    /// The user's cache directory.
    pub fn cache_root(&self) -> (r: String)
        ensures
            r@ == joined(self.home@, "Library/Caches"@),
    {
        join_path(self.home.as_str(), "Library/Caches")
    }

    /// The directory that holds one directory per sandboxed application.
    pub fn containers_root(&self) -> (r: String)
        ensures
            r@ == joined(self.home@, "Library/Containers"@),
    {
        join_path(self.home.as_str(), "Library/Containers")
    }

    /// The cache directory inside one application's container.
    pub fn container_cache_root(container: &str) -> (r: String)
        ensures
            r@ == joined(container@, "Data/Library/Caches"@),
    {
        join_path(container, "Data/Library/Caches")
    }

    /// The category's result from the measured entries of the cache
    /// directory, minus those in a browser cache, together with the measured
    /// entries of every container cache that exists; largest first.
    pub fn scan(&self, cache_items: Vec<ScannedItem>, container_items: Vec<ScannedItem>) -> (r: ScanResult)
        ensures
            r.category == CategoryType::UserCache,
            r.description@ == "User cache files (including sandboxed apps)."@,
            r.root_path@ == joined(self.home@, "Library/Caches"@),
            r.total_size == capped(size_sum(outside_browser_caches(cache_items@) + container_items@)),
            sorted_by_size(r.items@),
            r.items@.to_multiset() =~= (outside_browser_caches(cache_items@) + container_items@).to_multiset(),
            keeps_order_per_size(r.items@, (outside_browser_caches(cache_items@) + container_items@)),
            !r.is_selected,
    {
        let mut items = drop_browser_caches(cache_items);
        let mut more = container_items;
        items.append(&mut more);
        ScanResult::assemble(self.category(), self.description(), self.cache_root(), items)
    }
}

/// Where the last component of `p[..k]` starts: just after its last `/`, or 0.
pub open spec fn name_start(p: Seq<char>, k: int) -> int
    decreases k,
{
    if k <= 0 {
        0
    } else if p[k - 1] == '/' {
        k
    } else {
        name_start(p, k - 1)
    }
}

/// The last component of the path `p`: what follows its last `/`.
pub open spec fn file_name(p: Seq<char>) -> Seq<char> {
    p.subrange(name_start(p, p.len() as int), p.len() as int)
}

/// The last component of `path`.
pub fn file_name_of(path: &str) -> (r: &str)
    ensures
        r@ == file_name(path@),
{
    let n = path.unicode_len();
    let mut j: usize = n;
    while j > 0 && path.get_char(j - 1) != '/'
        invariant
            n == path@.len(),
            j <= n,
            name_start(path@, n as int) == name_start(path@, j as int),
        decreases j,
    {
        j -= 1;
    }
    path.substring_char(j, n)
}

/// A file name that marks a screen capture, in English or Japanese.
pub open spec fn is_capture_name(name: Seq<char>) -> bool {
    is_prefix("Screenshot"@, name) || is_prefix("スクリーンショット"@, name)
}

/// The items of `items` whose file name marks a screen capture, in order.
pub open spec fn captures(items: Seq<ScannedItem>) -> Seq<ScannedItem>
    decreases items.len(),
{
    if items.len() == 0 {
        Seq::empty()
    } else {
        let prev = captures(items.drop_last());
        if is_capture_name(file_name(items.last().path@)) {
            prev.push(items.last())
        } else {
            prev
        }
    }
}

/// The scanner of screen captures left on the desktop.
pub struct ScreenCaptureScanner {
    pub home: String,
}

impl ScreenCaptureScanner {
    /// The category it fills.
    pub fn category(&self) -> (r: CategoryType)
        ensures
            r == CategoryType::ScreenCapture,
    {
        CategoryType::ScreenCapture
    }

    /// What the category holds.
    pub fn description(&self) -> (r: String)
        ensures
            r@ == "Screenshots on Desktop."@,
    {
        to_owned_text("Screenshots on Desktop.")
    }

    /// The desktop directory, whose entries are examined (not its subtrees).
    pub fn desktop_root(&self) -> (r: String)
        ensures
            r@ == joined(self.home@, "Desktop"@),
    {
        join_path(self.home.as_str(), "Desktop")
    }

    /// The category's result from the measured entries of the desktop (none
    /// where it does not exist): those named as screen captures, largest first.
    pub fn scan(&self, desktop_items: Vec<ScannedItem>) -> (r: ScanResult)
        ensures
            r.category == CategoryType::ScreenCapture,
            r.description@ == "Screenshots on Desktop."@,
            r.root_path@ == joined(self.home@, "Desktop"@),
            r.total_size == capped(size_sum(captures(desktop_items@))),
            sorted_by_size(r.items@),
            r.items@.to_multiset() =~= captures(desktop_items@).to_multiset(),
            keeps_order_per_size(r.items@, captures(desktop_items@)),
            !r.is_selected,
    {
        let ghost all = desktop_items@;
        let n0 = desktop_items.len();
        let mut rest = desktop_items;
        let mut kept: Vec<ScannedItem> = Vec::new();
        let mut k: usize = 0;
        while rest.len() > 0
            invariant
                all.len() == n0,
                n0 == k + rest.len(),
                rest@ == all.subrange(k as int, n0 as int),
                kept@ == captures(all.subrange(0, k as int)),
            decreases rest.len(),
        {
            let it = rest.remove(0);
            proof {
                assert(rest@ =~= all.subrange(k + 1, n0 as int));
                assert(all.subrange(0, k + 1).drop_last() =~= all.subrange(0, k as int));
            }
            let name = file_name_of(it.path.as_str());
            if starts_with(name, "Screenshot") || starts_with(name, "スクリーンショット") {
                kept.push(it);
                proof {
                    assert(kept@ =~= captures(all.subrange(0, k as int)).push(all[k as int]));
                }
            }
            k += 1;
        }
        assert(all.subrange(0, n0 as int) =~= all);
        ScanResult::assemble(self.category(), self.description(), self.desktop_root(), kept)
    }
}

/// The scanner of each category, by strategy.
pub enum Scanner {
    /// Lists the entries of a fixed set of directories.
    Paths(PathScanner),
    /// The Xcode roots under `home`, see [`scan_xcode_junk`].
    XcodeJunk(String),
    /// The browser caches under `home`, see [`scan_browser_cache`].
    BrowserCache(String),
    /// The trash under `home`, see [`scan_trash`].
    Trash(String),
    UserCache(UserCacheScanner),
    ScreenCapture(ScreenCaptureScanner),
    NodeModules(NodeModulesScanner),
    Docker(DockerScanner),
}

/// The category that a scanner fills.
pub open spec fn scanner_category(s: Scanner) -> CategoryType {
    match s {
        Scanner::Paths(p) => p.category,
        Scanner::XcodeJunk(_) => CategoryType::XcodeJunk,
        Scanner::BrowserCache(_) => CategoryType::BrowserCache,
        Scanner::Trash(_) => CategoryType::Trash,
        Scanner::UserCache(_) => CategoryType::UserCache,
        Scanner::ScreenCapture(_) => CategoryType::ScreenCapture,
        Scanner::NodeModules(_) => CategoryType::NodeModules,
        Scanner::Docker(_) => CategoryType::DockerImages,
    }
}

/// How many candidate roots of a category are probed for existence before
/// its scanner is chosen.
pub open spec fn probe_count(c: CategoryType) -> nat {
    match c {
        CategoryType::SystemLogs => 2,
        CategoryType::DeveloperCaches => 6,
        _ => 0,
    }
}

/// The candidate roots of `category` whose existence is probed before its
/// scanner is chosen (none for the others).
pub fn probed_roots(category: CategoryType, home: &str) -> (r: Vec<String>)
    ensures
        r@.len() == probe_count(category),
        category == CategoryType::SystemLogs ==> r.deep_view() == seq!["/Library/Logs"@, "/private/var/log"@],
        category == CategoryType::DeveloperCaches ==> r.deep_view() == seq![
            joined(home@, ".npm"@),
            joined(home@, ".bun/install/cache"@),
            joined(home@, ".pnpm-store"@),
            joined(home@, "go/pkg/mod"@),
            joined(home@, ".cargo/registry"@),
            joined(home@, ".gradle/caches"@),
        ],
{
    match category {
        CategoryType::SystemLogs => {
            let mut r: Vec<String> = Vec::new();
            r.push(to_owned_text("/Library/Logs"));
            r.push(to_owned_text("/private/var/log"));
            assert(r.deep_view() =~= seq!["/Library/Logs"@, "/private/var/log"@]);
            r
        },
        CategoryType::DeveloperCaches => {
            let r = developer_cache_roots(home);
            assert(r.deep_view() =~= seq![
                joined(home@, ".npm"@),
                joined(home@, ".bun/install/cache"@),
                joined(home@, ".pnpm-store"@),
                joined(home@, "go/pkg/mod"@),
                joined(home@, ".cargo/registry"@),
                joined(home@, ".gradle/caches"@),
            ]);
            r
        },
        _ => Vec::new(),
    }
}

/// The scanner of `category` under `home`, given which of its
/// [`probed_roots`] exist (`present[i]` for the `i`-th).
pub fn scanner_for(category: CategoryType, home: &str, present: &Vec<bool>) -> (r: Scanner)
    requires
        present@.len() == probe_count(category),
    ensures
        scanner_category(r) == category,
        match r {
            Scanner::Paths(p) => match category {
                CategoryType::SystemLogs => p.description@ == "System log files (/Library/Logs, /private/var/log)."@
                    && p.paths.deep_view() == present_only(
                    seq!["/Library/Logs"@, "/private/var/log"@],
                    present@,
                ),
                CategoryType::DeveloperCaches => p.description@
                    == "Caches for npm, bun, pnpm, go, cargo, gradle, etc."@ && p.paths.deep_view() == present_only(
                    seq![
                        joined(home@, ".npm"@),
                        joined(home@, ".bun/install/cache"@),
                        joined(home@, ".pnpm-store"@),
                        joined(home@, "go/pkg/mod"@),
                        joined(home@, ".cargo/registry"@),
                        joined(home@, ".gradle/caches"@),
                    ],
                    present@,
                ),
                CategoryType::SystemCache => p.description@ == "System cache files."@ && p.paths.deep_view()
                    == seq!["/Library/Caches"@],
                CategoryType::UserLogs => p.description@ == "User log files."@ && p.paths.deep_view() == seq![
                    joined(home@, "Library/Logs"@),
                ],
                CategoryType::Downloads => p.description@ == "All files in Downloads folder."@
                    && p.paths.deep_view() == seq![joined(home@, "Downloads"@)],
                _ => false,
            },
            Scanner::XcodeJunk(h) => h@ == home@,
            Scanner::BrowserCache(h) => h@ == home@,
            Scanner::Trash(h) => h@ == home@,
            Scanner::UserCache(u) => u.home@ == home@,
            Scanner::ScreenCapture(c) => c.home@ == home@,
            Scanner::NodeModules(n) => n.home@ == home@,
            Scanner::Docker(_) => true,
        },
{
    match category {
        CategoryType::XcodeJunk => Scanner::XcodeJunk(to_owned_text(home)),
        CategoryType::SystemLogs => {
            let p = system_logs_scanner(present);
            Scanner::Paths(p)
        },
        CategoryType::SystemCache => {
            let p = system_cache_scanner();
            proof {
                assert(p.paths.deep_view() =~= seq!["/Library/Caches"@]);
            }
            Scanner::Paths(p)
        },
        CategoryType::UserLogs => {
            let p = user_logs_scanner(home);
            proof {
                assert(p.paths.deep_view() =~= seq![joined(home@, "Library/Logs"@)]);
            }
            Scanner::Paths(p)
        },
        CategoryType::UserCache => Scanner::UserCache(UserCacheScanner { home: to_owned_text(home) }),
        CategoryType::BrowserCache => Scanner::BrowserCache(to_owned_text(home)),
        CategoryType::Downloads => {
            let p = downloads_scanner(home);
            proof {
                assert(p.paths.deep_view() =~= seq![joined(home@, "Downloads"@)]);
            }
            Scanner::Paths(p)
        },
        CategoryType::Trash => Scanner::Trash(to_owned_text(home)),
        CategoryType::DeveloperCaches => {
            let p = developer_caches_scanner(home, present);
            Scanner::Paths(p)
        },
        CategoryType::ScreenCapture => Scanner::ScreenCapture(ScreenCaptureScanner { home: to_owned_text(home) }),
        CategoryType::NodeModules => Scanner::NodeModules(NodeModulesScanner { home: to_owned_text(home) }),
        CategoryType::DockerImages => Scanner::Docker(DockerScanner),
    }
}

} // verus!
