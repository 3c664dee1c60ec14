//! The computing half of a scan: which entries to measure, how one entry's
//! measurements add up, and which items a category keeps.

use vstd::prelude::*;
use vstd::string::*;
use crate::allowlist::{protected_by, Allowlist};
use crate::model::{capped, keeps_order_per_size, size_sum, sort_by_size_desc, sorted_by_size, total_size_of, ScannedItem};
use crate::text::same_text;

verus! {

/// The paths of `paths` that no rule of `rules` protects, in order.
pub open spec fn unprotected_paths(rules: Seq<Seq<char>>, paths: Seq<Seq<char>>) -> Seq<Seq<char>>
    decreases paths.len(),
{
    if paths.len() == 0 {
        Seq::empty()
    } else {
        let prev = unprotected_paths(rules, paths.drop_last());
        if protected_by(rules, paths.last()) {
            prev
        } else {
            prev.push(paths.last())
        }
    }
}

/// The items of `items` whose path no rule of `rules` protects, in order.
pub open spec fn unprotected_items(rules: Seq<Seq<char>>, items: Seq<ScannedItem>) -> Seq<ScannedItem>
    decreases items.len(),
{
    if items.len() == 0 {
        Seq::empty()
    } else {
        let prev = unprotected_items(rules, items.drop_last());
        if protected_by(rules, items.last().path@) {
            prev
        } else {
            prev.push(items.last())
        }
    }
}

/// The entries of a listed directory that are to be measured: those that
/// the allowlist does not protect, in order.
pub fn unprotected_entries(entries: Vec<String>, allowlist: &Allowlist) -> (r: Vec<String>)
    ensures
        r.deep_view() == unprotected_paths(allowlist@, entries.deep_view()),
{
    let ghost all = entries.deep_view();
    let n0 = entries.len();
    assert(all.len() == n0);
    let mut rest = entries;
    let mut r: Vec<String> = Vec::new();
    let mut k: usize = 0;
    while rest.len() > 0
        invariant
            all.len() == k + rest.len(),
            all.len() <= usize::MAX,
            forall|i: int| 0 <= i < rest.len() ==> #[trigger] rest@[i]@ == all[k + i],
            r.deep_view() == unprotected_paths(allowlist@, all.subrange(0, k as int)),
        decreases rest.len(),
    {
        let ghost old_rest = rest@;
        let p = rest.remove(0);
        proof {
            assert(p == old_rest[0]);
            assert(p@ == all[k as int]);
            assert forall|i: int| 0 <= i < rest.len() implies #[trigger] rest@[i]@ == all[k + 1 + i] by {
                assert(rest@[i] == old_rest[i + 1]);
            }
            let pre = all.subrange(0, k + 1);
            assert(pre.drop_last() =~= all.subrange(0, k as int));
        }
        if !allowlist.is_allowed(p.as_str()) {
            r.push(p);
            proof {
                assert(r.deep_view() =~= unprotected_paths(allowlist@, all.subrange(0, k as int)).push(all[k as int]));
            }
        }
        k += 1;
    }
    assert(all.subrange(0, k as int) =~= all);
    r
}

/// The items that the allowlist does not protect, in order.
pub fn unprotected(items: Vec<ScannedItem>, allowlist: &Allowlist) -> (r: Vec<ScannedItem>)
    ensures
        r@ == unprotected_items(allowlist@, items@),
{
    let ghost all = items@;
    let n0 = items.len();
    assert(all.len() == n0);
    let mut rest = items;
    let mut r: Vec<ScannedItem> = Vec::new();
    let mut k: usize = 0;
    while rest.len() > 0
        invariant
            all.len() == k + rest.len(),
            all.len() <= usize::MAX,
            rest@ == all.subrange(k as int, all.len() as int),
            r@ == unprotected_items(allowlist@, all.subrange(0, k as int)),
        decreases rest.len(),
    {
        let it = rest.remove(0);
        proof {
            assert(rest@ =~= all.subrange(k + 1, all.len() as int));
            let pre = all.subrange(0, k + 1);
            assert(pre.drop_last() =~= all.subrange(0, k as int));
        }
        if !allowlist.is_allowed(it.path.as_str()) {
            r.push(it);
            proof {
                assert(r@ =~= unprotected_items(allowlist@, all.subrange(0, k as int)).push(all[k as int]));
            }
        }
        k += 1;
    }
    assert(all.subrange(0, k as int) =~= all);
    r
}

/// The metadata of one entry met while walking an item's subtree.
pub struct EntryMeta {
    pub is_file: bool,
    pub len: u64,
    /// Seconds since the Unix epoch, where the platform reports it.
    pub modified: Option<u64>,
}

/// The bytes of the regular files among `entries`; an entry whose
/// metadata could not be read (`None`) adds nothing.
pub open spec fn file_bytes(entries: Seq<Option<EntryMeta>>) -> int
    decreases entries.len(),
{
    if entries.len() == 0 {
        0
    } else {
        file_bytes(entries.drop_last()) + match entries.last() {
            Some(m) => if m.is_file {
                m.len as int
            } else {
                0
            },
            None => 0,
        }
    }
}

/// The latest of `start` and the modification times that `entries` report.
pub open spec fn latest_change(start: int, entries: Seq<Option<EntryMeta>>) -> int
    decreases entries.len(),
{
    if entries.len() == 0 {
        start
    } else {
        let prev = latest_change(start, entries.drop_last());
        match entries.last() {
            Some(m) => match m.modified {
                Some(t) => if t > prev {
                    t as int
                } else {
                    prev
                },
                None => prev,
            },
            None => prev,
        }
    }
}

/// The measurement of the item at `path` from the metadata of its own entry
/// (`root_modified`) and of every entry in its subtree: the bytes of all
/// regular files (saturating at `u64::MAX`) and the latest modification time.
/// Unreadable metadata counts as nothing, so the measurement never fails.
pub fn item_stats(path: String, root_modified: Option<u64>, entries: &Vec<Option<EntryMeta>>) -> (r: ScannedItem)
    ensures
        r.path@ == path@,
        r.size == capped(file_bytes(entries@)),
        r.modified == latest_change(
            match root_modified {
                Some(t) => t as int,
                None => 0,
            },
            entries@,
        ),
{
    let start: u64 = match root_modified {
        Some(t) => t,
        None => 0,
    };
    let mut size: u64 = 0;
    let mut modified: u64 = start;
    let mut i: usize = 0;
    while i < entries.len()
        invariant
            i <= entries.len(),
            size == capped(file_bytes(entries@.subrange(0, i as int))),
            modified == latest_change(start as int, entries@.subrange(0, i as int)),
        decreases entries.len() - i,
    {
        proof {
            let pre = entries@.subrange(0, i as int + 1);
            assert(pre.drop_last() =~= entries@.subrange(0, i as int));
            assert(pre.last() == entries@[i as int]);
        }
        match &entries[i] {
            Some(m) => {
                if m.is_file {
                    size = size.saturating_add(m.len);
                }
                match m.modified {
                    Some(t) => {
                        if t > modified {
                            modified = t;
                        }
                    },
                    None => {},
                }
            },
            None => {},
        }
        i += 1;
    }
    assert(entries@.subrange(0, entries.len() as int) =~= entries@);
    ScannedItem { path, size, modified }
}

/// The size total of a directory's measured entries, and the entries
/// ordered largest first.
pub fn summarize(items: Vec<ScannedItem>) -> (r: (u64, Vec<ScannedItem>))
    ensures
        r.0 == capped(size_sum(items@)),
        sorted_by_size(r.1@),
        r.1@.to_multiset() =~= items@.to_multiset(),
        keeps_order_per_size(r.1@, items@),
{
    let total = total_size_of(&items);
    (total, sort_by_size_desc(items))
}

/// A directory with no entries (or none at all) sums to zero bytes and no items.
pub proof fn lemma_nothing_found_weighs_nothing(items: Seq<ScannedItem>)
    requires
        items.len() == 0,
    ensures
        capped(size_sum(items)) == 0,
        items.to_multiset().len() == 0,
{
    items.to_multiset_ensures();
}

/// One entry met while walking a tree in search of directories of a given name.
pub struct WalkEntry {
    pub path: String,
    pub name: String,
    pub is_dir: bool,
}

/// Whether a walked entry is a directory named `target` that no rule protects.
pub open spec fn is_match(rules: Seq<Seq<char>>, e: WalkEntry, target: Seq<char>) -> bool {
    e.is_dir && e.name@ == target && !protected_by(rules, e.path@)
}

/// The paths of the matching entries, in walk order.
pub open spec fn matching_paths(rules: Seq<Seq<char>>, entries: Seq<WalkEntry>, target: Seq<char>) -> Seq<Seq<char>>
    decreases entries.len(),
{
    if entries.len() == 0 {
        Seq::empty()
    } else {
        let prev = matching_paths(rules, entries.drop_last(), target);
        if is_match(rules, entries.last(), target) {
            prev.push(entries.last().path@)
        } else {
            prev
        }
    }
}

/// The directories named `target` among walked entries, minus those the
/// allowlist protects; these are the items a recursive name search measures.
pub fn matching_directories(entries: Vec<WalkEntry>, target: &str, allowlist: &Allowlist) -> (r: Vec<String>)
    ensures
        r.deep_view() == matching_paths(allowlist@, entries@, target@),
{
    let ghost all = entries@;
    let n0 = entries.len();
    assert(all.len() == n0);
    let mut rest = entries;
    let mut r: Vec<String> = Vec::new();
    let mut k: usize = 0;
    while rest.len() > 0
        invariant
            all.len() == k + rest.len(),
            all.len() <= usize::MAX,
            rest@ == all.subrange(k as int, all.len() as int),
            r.deep_view() == matching_paths(allowlist@, all.subrange(0, k as int), target@),
        decreases rest.len(),
    {
        let e = rest.remove(0);
        proof {
            assert(rest@ =~= all.subrange(k + 1, all.len() as int));
            let pre = all.subrange(0, k + 1);
            assert(pre.drop_last() =~= all.subrange(0, k as int));
        }
        if e.is_dir && same_text(e.name.as_str(), target) && !allowlist.is_allowed(e.path.as_str()) {
            let ghost p = e.path@;
            r.push(e.path);
            proof {
                assert(r.deep_view() =~= matching_paths(allowlist@, all.subrange(0, k as int), target@).push(p));
            }
        }
        k += 1;
    }
    assert(all.subrange(0, k as int) =~= all);
    r
}

} // verus!
