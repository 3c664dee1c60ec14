//! The data that scans produce and the session consumes.

use vstd::prelude::*;
use vstd::seq_lib::to_multiset_insert;
use vstd::string::*;

verus! {

broadcast use vstd::seq_lib::group_to_multiset_ensures, vstd::multiset::group_multiset_properties;

/// The fixed kinds of reclaimable data.
#[derive(Clone, Copy, Debug, PartialEq, Eq, Structural, Hash)]
pub enum CategoryType {
    XcodeJunk,
    SystemLogs,
    SystemCache,
    UserLogs,
    UserCache,
    BrowserCache,
    Downloads,
    Trash,
    DeveloperCaches,
    ScreenCapture,
    NodeModules,
    DockerImages,
}

/// The human-readable name of each category.
pub open spec fn category_name(c: CategoryType) -> Seq<char> {
    match c {
        CategoryType::XcodeJunk => "Xcode Junk"@,
        CategoryType::SystemLogs => "System Log Files"@,
        CategoryType::SystemCache => "System Cache Files"@,
        CategoryType::UserLogs => "User Log Files"@,
        CategoryType::UserCache => "User Cache Files"@,
        CategoryType::BrowserCache => "Browser Cache"@,
        CategoryType::Downloads => "Downloads"@,
        CategoryType::Trash => "Trash"@,
        CategoryType::DeveloperCaches => "Developer Caches"@,
        CategoryType::ScreenCapture => "Screen Capture Files"@,
        CategoryType::NodeModules => "Node Modules"@,
        CategoryType::DockerImages => "Docker Images"@,
    }
}

/// Every category, in the order in which a full scan launches them.
pub open spec fn every_category() -> Seq<CategoryType> {
    seq![
        CategoryType::XcodeJunk,
        CategoryType::SystemLogs,
        CategoryType::SystemCache,
        CategoryType::UserLogs,
        CategoryType::UserCache,
        CategoryType::BrowserCache,
        CategoryType::Downloads,
        CategoryType::Trash,
        CategoryType::DeveloperCaches,
        CategoryType::ScreenCapture,
        CategoryType::NodeModules,
        CategoryType::DockerImages,
    ]
}

impl CategoryType {
    /// The category's display name.
    pub fn name(&self) -> (r: &'static str)
        ensures
            r@ == category_name(*self),
    {
        match self {
            CategoryType::XcodeJunk => "Xcode Junk",
            CategoryType::SystemLogs => "System Log Files",
            CategoryType::SystemCache => "System Cache Files",
            CategoryType::UserLogs => "User Log Files",
            CategoryType::UserCache => "User Cache Files",
            CategoryType::BrowserCache => "Browser Cache",
            CategoryType::Downloads => "Downloads",
            CategoryType::Trash => "Trash",
            CategoryType::DeveloperCaches => "Developer Caches",
            CategoryType::ScreenCapture => "Screen Capture Files",
            CategoryType::NodeModules => "Node Modules",
            CategoryType::DockerImages => "Docker Images",
        }
    }
}

/// Every category, in launch order.
pub fn all_categories() -> (r: Vec<CategoryType>)
    ensures
        r@ == every_category(),
{
    let r = vec![
        CategoryType::XcodeJunk,
        CategoryType::SystemLogs,
        CategoryType::SystemCache,
        CategoryType::UserLogs,
        CategoryType::UserCache,
        CategoryType::BrowserCache,
        CategoryType::Downloads,
        CategoryType::Trash,
        CategoryType::DeveloperCaches,
        CategoryType::ScreenCapture,
        CategoryType::NodeModules,
        CategoryType::DockerImages,
    ];
    assert(r@ =~= every_category());
    r
}

/// One measured entry: a filesystem path or a virtual identifier, its size
/// in bytes, and its latest modification time in seconds since the Unix epoch.
pub struct ScannedItem {
    pub path: String,
    pub size: u64,
    pub modified: u64,
}

impl View for ScannedItem {
    type V = (Seq<char>, u64, u64);

    open spec fn view(&self) -> (Seq<char>, u64, u64) {
        (self.path@, self.size, self.modified)
    }
}

impl ScannedItem {
    /// A copy of this item.
    pub fn duplicate(&self) -> (r: ScannedItem)
        ensures
            r@ == self@,
    {
        ScannedItem { path: String::from_str(self.path.as_str()), size: self.size, modified: self.modified }
    }
}

/// The outcome of scanning one category.
pub struct ScanResult {
    pub category: CategoryType,
    pub total_size: u64,
    pub items: Vec<ScannedItem>,
    pub is_selected: bool,
    pub description: String,
    pub root_path: String,
}

/// Advisory progress of one category scan in flight.
pub struct ScanProgress {
    pub category: CategoryType,
    pub items_count: u64,
    pub status: String,
}

impl View for ScanProgress {
    type V = (CategoryType, u64, Seq<char>);

    open spec fn view(&self) -> (CategoryType, u64, Seq<char>) {
        (self.category, self.items_count, self.status@)
    }
}

/// A message from a category scan: progress while it runs, then its result.
pub enum ScanUpdate {
    Progress(ScanProgress),
    Result(ScanResult),
}

/// `n`, or `u64::MAX` where `n` does not fit.
pub open spec fn capped(n: int) -> int {
    if n > u64::MAX {
        u64::MAX as int
    } else {
        n
    }
}

/// The sum of the sizes of `items`.
pub open spec fn size_sum(items: Seq<ScannedItem>) -> int
    decreases items.len(),
{
    if items.len() == 0 {
        0
    } else {
        size_sum(items.drop_last()) + items.last().size
    }
}

/// `items` are ordered by size, largest first.
pub open spec fn sorted_by_size(items: Seq<ScannedItem>) -> bool {
    forall|i: int, j: int| 0 <= i < j < items.len() ==> items[i].size >= items[j].size
}

/// The total size of `items`, saturating at `u64::MAX`.
pub fn total_size_of(items: &Vec<ScannedItem>) -> (r: u64)
    ensures
        r == capped(size_sum(items@)),
{
    let mut acc: u64 = 0;
    let mut i: usize = 0;
    while i < items.len()
        invariant
            i <= items.len(),
            acc == capped(size_sum(items@.subrange(0, i as int))),
        decreases items.len() - i,
    {
        proof {
            let pre = items@.subrange(0, i as int + 1);
            assert(pre.drop_last() =~= items@.subrange(0, i as int));
        }
        acc = acc.saturating_add(items[i].size);
        i += 1;
    }
    assert(items@.subrange(0, items.len() as int) =~= items@);
    acc
}

/// Whether an item has size `v`.
pub open spec fn of_size(v: u64) -> spec_fn(ScannedItem) -> bool {
    |it: ScannedItem| it.size == v
}

/// `r` holds, for every size, the items of `items` of that size in the order
/// in which `items` holds them.
pub open spec fn keeps_order_per_size(r: Seq<ScannedItem>, items: Seq<ScannedItem>) -> bool {
    forall|v: u64| #[trigger] r.filter(of_size(v)) == items.filter(of_size(v))
}

/// Inserting `x` just before the first item no larger than it keeps, for
/// every size, the items of that size in order, with `x` first among its size.
proof fn lemma_insert_by_size(r: Seq<ScannedItem>, pos: int, x: ScannedItem, v: u64)
    requires
        0 <= pos <= r.len(),
        forall|k: int| 0 <= k < pos ==> r[k].size > x.size,
    ensures
        r.insert(pos, x).filter(of_size(v)) == (if x.size == v {
            seq![x]
        } else {
            Seq::empty()
        }) + r.filter(of_size(v)),
{
    let f = of_size(v);
    let a = r.subrange(0, pos);
    let b = r.subrange(pos, r.len() as int);
    assert(r =~= a + b);
    assert(r.insert(pos, x) =~= a + (seq![x] + b));
    Seq::filter_distributes_over_add(a, b, f);
    Seq::filter_distributes_over_add(a, seq![x] + b, f);
    b.lemma_filter_prepend(x, f);
    if x.size == v {
        a.lemma_all_neg_filter_empty(f);
        assert(a.filter(f) =~= Seq::<ScannedItem>::empty());
        assert(r.insert(pos, x).filter(f) =~= seq![x] + r.filter(f));
    } else {
        assert(r.insert(pos, x).filter(f) =~= r.filter(f));
    }
}

/// Reorders `items` by size, largest first; items of the same size keep
/// the order in which `items` holds them.
pub fn sort_by_size_desc(items: Vec<ScannedItem>) -> (r: Vec<ScannedItem>)
    ensures
        sorted_by_size(r@),
        r@.to_multiset() =~= items@.to_multiset(),
        keeps_order_per_size(r@, items@),
{
    let ghost all = items@;
    let n0 = items.len();
    let mut rest = items;
    let mut r: Vec<ScannedItem> = Vec::new();
    proof {
        vstd::multiset::lemma_multiset_empty_len(r@.to_multiset());
        assert forall|v: u64| #[trigger] r@.filter(of_size(v)) == all.subrange(n0 as int, n0 as int).filter(of_size(v)) by {
            assert(r@ =~= all.subrange(n0 as int, n0 as int));
        }
    }
    while rest.len() > 0
        invariant
            all.len() == n0,
            rest.len() <= n0,
            rest@ == all.subrange(0, rest.len() as int),
            sorted_by_size(r@),
            r@.to_multiset().add(rest@.to_multiset()) =~= all.to_multiset(),
            forall|v: u64| #[trigger] r@.filter(of_size(v)) == all.subrange(rest.len() as int, n0 as int).filter(of_size(v)),
        decreases rest.len(),
    {
        let ghost before = rest@;
        let x = match rest.pop() {
            Some(x) => x,
            None => {
                return r;
            },
        };
        proof {
            assert(before =~= rest@.push(x));
            before.drop_last().to_multiset_ensures();
            assert(before.to_multiset() =~= rest@.to_multiset().insert(x));
        }
        let mut pos: usize = 0;
        while pos < r.len() && r[pos].size > x.size
            invariant
                pos <= r.len(),
                forall|k: int| 0 <= k < pos ==> r@[k].size > x.size,
            decreases r.len() - pos,
        {
            pos += 1;
        }
        let ghost old_r = r@;
        r.insert(pos, x);
        proof {
            let k = rest.len() as int;
            assert(x == all[k]);
            assert(all.subrange(k, n0 as int) =~= seq![x] + all.subrange(k + 1, n0 as int));
            assert(rest@ =~= all.subrange(0, k));
            assert forall|v: u64| #[trigger] r@.filter(of_size(v)) == all.subrange(k, n0 as int).filter(of_size(v)) by {
                lemma_insert_by_size(old_r, pos as int, x, v);
                all.subrange(k + 1, n0 as int).lemma_filter_prepend(x, of_size(v));
            }
            to_multiset_insert(old_r, pos as int, x);
            old_r.insert_ensures(pos as int, x);
            assert forall|i: int, j: int| 0 <= i < j < r@.len() implies r@[i].size >= r@[j].size by {
                if j < pos {
                } else if j == pos {
                } else if i < pos {
                } else if i == pos {
                    assert(r@[j] == old_r[j - 1]);
                    if pos < old_r.len() {
                        assert(old_r[pos as int].size <= x.size);
                    }
                } else {
                    assert(r@[i] == old_r[i - 1]);
                    assert(r@[j] == old_r[j - 1]);
                }
            }
        }
    }
    proof {
        vstd::multiset::lemma_multiset_empty_len(rest@.to_multiset());
        assert(all.subrange(0, n0 as int) =~= all);
    }
    r
}

/// `rows` are ordered by total size, largest first.
pub open spec fn sorted_by_total(rows: Seq<ScanResult>) -> bool {
    forall|i: int, j: int| 0 <= i < j < rows.len() ==> rows[i].total_size >= rows[j].total_size
}

/// Reorders `rows` by total size, largest first.
pub fn sort_by_total_desc(rows: Vec<ScanResult>) -> (r: Vec<ScanResult>)
    ensures
        sorted_by_total(r@),
        r@.to_multiset() =~= rows@.to_multiset(),
{
    let ghost all = rows@;
    let mut rest = rows;
    let mut r: Vec<ScanResult> = Vec::new();
    proof {
        vstd::multiset::lemma_multiset_empty_len(r@.to_multiset());
    }
    while rest.len() > 0
        invariant
            sorted_by_total(r@),
            r@.to_multiset().add(rest@.to_multiset()) =~= all.to_multiset(),
        decreases rest.len(),
    {
        let ghost before = rest@;
        let x = match rest.pop() {
            Some(x) => x,
            None => {
                return r;
            },
        };
        proof {
            assert(before =~= rest@.push(x));
            assert(before.to_multiset() =~= rest@.to_multiset().insert(x));
        }
        let mut pos: usize = 0;
        while pos < r.len() && r[pos].total_size > x.total_size
            invariant
                pos <= r.len(),
                forall|k: int| 0 <= k < pos ==> r@[k].total_size > x.total_size,
            decreases r.len() - pos,
        {
            pos += 1;
        }
        let ghost old_r = r@;
        r.insert(pos, x);
        proof {
            to_multiset_insert(old_r, pos as int, x);
            old_r.insert_ensures(pos as int, x);
            assert forall|i: int, j: int| 0 <= i < j < r@.len() implies r@[i].total_size >= r@[j].total_size by {
                if j < pos {
                } else if j == pos {
                } else if i < pos {
                } else if i == pos {
                    assert(r@[j] == old_r[j - 1]);
                    if pos < old_r.len() {
                        assert(old_r[pos as int].total_size <= x.total_size);
                    }
                } else {
                    assert(r@[i] == old_r[i - 1]);
                    assert(r@[j] == old_r[j - 1]);
                }
            }
        }
    }
    proof {
        vstd::multiset::lemma_multiset_empty_len(rest@.to_multiset());
    }
    r
}

impl ScanResult {
    /// A category's result: `items` ordered largest first, with their total size.
    pub fn assemble(
        category: CategoryType,
        description: String,
        root_path: String,
        items: Vec<ScannedItem>,
    ) -> (r: ScanResult)
        ensures
            r.category == category,
            r.description@ == description@,
            r.root_path@ == root_path@,
            r.total_size == capped(size_sum(items@)),
            sorted_by_size(r.items@),
            r.items@.to_multiset() =~= items@.to_multiset(),
            keeps_order_per_size(r.items@, items@),
            !r.is_selected,
    {
        let total_size = total_size_of(&items);
        let items = sort_by_size_desc(items);
        ScanResult { category, total_size, items, is_selected: false, description, root_path }
    }
}

} // verus!
