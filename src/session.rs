//! The coordinating state machine: it owns the scan results and the
//! selection, takes scan updates, operator keys and the cleaner's outcome as
//! events, and says what the host loop is to do next.

use vstd::prelude::*;
use vstd::string::*;
use crate::model::{capped, sort_by_total_desc, sorted_by_total, CategoryType, ScanProgress, ScanResult, ScanUpdate, ScannedItem};
use crate::text::to_owned_text;

verus! {

/// Where the session stands.
pub enum AppState {
    Browsing,
    Confirming,
    Cleaning,
    Scanning,
    /// A clean has finished, with the message to show.
    Done(String),
}

/// A key pressed by the operator.
pub enum Key {
    Up,
    Down,
    Enter,
    Esc,
    Char(char),
    Other,
}

/// What the host loop is to do after an event.
pub enum Action {
    /// Keep running.
    Continue,
    /// Leave, without waiting for any scan in flight.
    Quit,
    /// Run the cleaner on these items off the coordinating thread, and hand
    /// its outcome to [`App::finish_cleaning`].
    Clean(Vec<ScannedItem>),
}

/// The session: scan results with their selection, the list cursor, and the
/// progress of a scan in flight.
pub struct App {
    pub results: Vec<ScanResult>,
    /// The row under the cursor, if any.
    pub selected: Option<usize>,
    pub state: AppState,
    pub scan_progress: Vec<ScanProgress>,
    pub total_categories: usize,
    /// Whether a scan's stream of updates is attached.
    pub scan_pending: bool,
}

/// The sum of the totals of the selected rows.
pub open spec fn selected_total(rows: Seq<ScanResult>) -> int
    decreases rows.len(),
{
    if rows.len() == 0 {
        0
    } else {
        selected_total(rows.drop_last()) + if rows.last().is_selected {
            rows.last().total_size as int
        } else {
            0
        }
    }
}

/// The cursor after moving down one row among `n`, wrapping to the top.
pub open spec fn cursor_after_next(cur: Option<usize>, n: int) -> int {
    match cur {
        Some(i) => if i >= n - 1 {
            0
        } else {
            i + 1
        },
        None => 0,
    }
}

/// The cursor after moving up one row among `n`, wrapping to the bottom.
pub open spec fn cursor_after_previous(cur: Option<usize>, n: int) -> int {
    match cur {
        Some(i) => if i == 0 {
            n - 1
        } else {
            i - 1
        },
        None => 0,
    }
}

/// `row` with its selection flag set to `b`.
pub open spec fn with_selection(row: ScanResult, b: bool) -> ScanResult {
    ScanResult { is_selected: b, ..row }
}

/// What each item of `items` is, as a value.
pub open spec fn item_views(items: Seq<ScannedItem>) -> Seq<(Seq<char>, u64, u64)> {
    items.map_values(|it: ScannedItem| it@)
}

/// The items of the selected rows, row after row.
pub open spec fn selected_items(rows: Seq<ScanResult>) -> Seq<(Seq<char>, u64, u64)>
    decreases rows.len(),
{
    if rows.len() == 0 {
        Seq::empty()
    } else {
        selected_items(rows.drop_last()) + if rows.last().is_selected {
            item_views(rows.last().items@)
        } else {
            Seq::empty()
        }
    }
}

/// How a row stands after a clean: a selected row keeps its
/// category, description and root but holds nothing and is no longer
/// selected; any other row is unchanged.
pub open spec fn row_after_clean(before: ScanResult, after: ScanResult) -> bool {
    if before.is_selected {
        &&& after.category == before.category
        &&& after.description == before.description
        &&& after.root_path == before.root_path
        &&& after.total_size == 0
        &&& after.items@.len() == 0
        &&& !after.is_selected
    } else {
        after == before
    }
}

/// `after` is `before` with every row cleaned as [`row_after_clean`] says.
pub open spec fn rows_after_clean(before: Seq<ScanResult>, after: Seq<ScanResult>) -> bool {
    after.len() == before.len() && forall|i: int| 0 <= i < before.len() ==> row_after_clean(#[trigger] before[i], after[i])
}

/// The first index at or after `i` of a progress entry for `c`, or the length.
pub open spec fn slot_from(ps: Seq<(CategoryType, u64, Seq<char>)>, c: CategoryType, i: int) -> int
    decreases ps.len() - i,
{
    if i >= ps.len() {
        ps.len() as int
    } else if ps[i].0 == c {
        i
    } else {
        slot_from(ps, c, i + 1)
    }
}

/// The progress entries as values.
pub open spec fn progress_views(ps: Seq<ScanProgress>) -> Seq<(CategoryType, u64, Seq<char>)> {
    ps.map_values(|p: ScanProgress| p@)
}

/// The progress entries after one update: a progress report adds its count
/// to its category's entry and sets its status; a result marks its
/// category's entry `Done`. An update for a category without an entry
/// changes nothing here.
pub open spec fn progress_step(ps: Seq<(CategoryType, u64, Seq<char>)>, u: ScanUpdate) -> Seq<(CategoryType, u64, Seq<char>)> {
    match u {
        ScanUpdate::Progress(p) => {
            let j = slot_from(ps, p.category, 0);
            if j < ps.len() {
                ps.update(j, (ps[j].0, capped(ps[j].1 + p.items_count) as u64, p.status@))
            } else {
                ps
            }
        },
        ScanUpdate::Result(r) => {
            let j = slot_from(ps, r.category, 0);
            if j < ps.len() {
                ps.update(j, (ps[j].0, ps[j].1, "Done"@))
            } else {
                ps
            }
        },
    }
}

/// The progress entries after the updates `us`, in order.
pub open spec fn progress_after(ps: Seq<(CategoryType, u64, Seq<char>)>, us: Seq<ScanUpdate>) -> Seq<(CategoryType, u64, Seq<char>)>
    decreases us.len(),
{
    if us.len() == 0 {
        ps
    } else {
        progress_step(progress_after(ps, us.drop_last()), us.last())
    }
}

/// The rows after one update: a result joins them.
pub open spec fn rows_step(rows: Seq<ScanResult>, u: ScanUpdate) -> Seq<ScanResult> {
    match u {
        ScanUpdate::Result(r) => rows.push(r),
        ScanUpdate::Progress(_) => rows,
    }
}

proof fn lemma_slot_from_bounds(ps: Seq<(CategoryType, u64, Seq<char>)>, c: CategoryType, i: int)
    requires
        0 <= i <= ps.len(),
    ensures
        i <= slot_from(ps, c, i) <= ps.len(),
    decreases ps.len() - i,
{
    if i < ps.len() && ps[i].0 != c {
        lemma_slot_from_bounds(ps, c, i + 1);
    }
}

proof fn lemma_slot_from_found(ps: Seq<(CategoryType, u64, Seq<char>)>, c: CategoryType, i: int)
    requires
        0 <= i <= ps.len(),
    ensures
        slot_from(ps, c, i) < ps.len() ==> ps[slot_from(ps, c, i)].0 == c,
        slot_from(ps, c, i) == ps.len() ==> forall|k: int| i <= k < ps.len() ==> ps[k].0 != c,
    decreases ps.len() - i,
{
    if i < ps.len() && ps[i].0 != c {
        lemma_slot_from_found(ps, c, i + 1);
    }
}

/// The categories of `cs`, each once, in the order of first appearance.
pub open spec fn distinct_categories(cs: Seq<CategoryType>) -> Seq<CategoryType>
    decreases cs.len(),
{
    if cs.len() == 0 {
        Seq::empty()
    } else {
        let prev = distinct_categories(cs.drop_last());
        if prev.contains(cs.last()) {
            prev
        } else {
            prev.push(cs.last())
        }
    }
}

/// No category has two progress entries.
pub open spec fn no_repeated_category(ps: Seq<(CategoryType, u64, Seq<char>)>) -> bool {
    forall|i: int, j: int| 0 <= i < j < ps.len() ==> ps[i].0 != ps[j].0
}

/// Progress entries only ever advance: updates keep every entry's
/// category (so still one entry per category) and never lower its count.
pub proof fn lemma_progress_counts_never_decrease(ps: Seq<(CategoryType, u64, Seq<char>)>, us: Seq<ScanUpdate>)
    ensures
        progress_after(ps, us).len() == ps.len(),
        no_repeated_category(ps) ==> no_repeated_category(progress_after(ps, us)),
        forall|i: int|
            0 <= i < ps.len() ==> (#[trigger] progress_after(ps, us)[i]).0 == ps[i].0 && progress_after(ps, us)[i].1
                >= ps[i].1,
    decreases us.len(),
{
    if us.len() > 0 {
        lemma_progress_counts_never_decrease(ps, us.drop_last());
        let before = progress_after(ps, us.drop_last());
        let after = progress_after(ps, us);
        assert(after == progress_step(before, us.last()));
        let c = match us.last() {
            ScanUpdate::Progress(p) => p.category,
            ScanUpdate::Result(r) => r.category,
        };
        lemma_slot_from_bounds(before, c, 0);
        assert forall|i: int| 0 <= i < ps.len() implies (#[trigger] after[i]).0 == ps[i].0 && after[i].1 >= ps[i].1 by {
            assert(before[i].0 == ps[i].0 && before[i].1 >= ps[i].1);
            match us.last() {
                ScanUpdate::Progress(p) => {
                    let j = slot_from(before, p.category, 0);
                    lemma_slot_from_bounds(before, p.category, 0);
                    if j < before.len() && i == j {
                        assert(after[i].1 == capped(before[j].1 + p.items_count) as u64);
                    }
                },
                ScanUpdate::Result(r) => {
                    lemma_slot_from_bounds(before, r.category, 0);
                },
            }
        }
    }
}

/// The results that the updates `us` carry, in order.
pub open spec fn result_rows(us: Seq<ScanUpdate>) -> Seq<ScanResult>
    decreases us.len(),
{
    if us.len() == 0 {
        Seq::empty()
    } else {
        match us.last() {
            ScanUpdate::Result(r) => result_rows(us.drop_last()).push(r),
            ScanUpdate::Progress(_) => result_rows(us.drop_last()),
        }
    }
}

/// How the session stands after a tick of a scan in flight, given the rows
/// gathered so far (`rows`) and the number of categories requested: complete
/// when every category has reported, and otherwise still scanning.
pub open spec fn scan_settles(
    rows: Seq<ScanResult>,
    requested: int,
    selected0: Option<usize>,
    state0: AppState,
    rows1: Seq<ScanResult>,
    selected1: Option<usize>,
    state1: AppState,
    pending1: bool,
) -> bool {
    if rows.len() == requested {
        &&& rows1.to_multiset() == rows.to_multiset()
        &&& sorted_by_total(rows1)
        &&& state1 is Browsing
        &&& !pending1
        &&& rows1.len() > 0 ==> selected1 == Some(0usize)
        &&& rows1.len() == 0 ==> selected1 == selected0
    } else {
        &&& rows1 == rows
        &&& selected1 == selected0
        &&& state1 == state0
        &&& pending1
    }
}

/// The index of the progress entry for `c` in `ps`, or the length of `ps`.
fn progress_slot(ps: &Vec<ScanProgress>, c: CategoryType) -> (r: usize)
    ensures
        r == slot_from(progress_views(ps@), c, 0),
        r <= ps@.len(),
{
    let ghost pv = progress_views(ps@);
    let mut i: usize = 0;
    while i < ps.len()
        invariant
            pv == progress_views(ps@),
            i <= ps.len(),
            slot_from(pv, c, 0) == slot_from(pv, c, i as int),
        decreases ps.len() - i,
    {
        if ps[i].category == c {
            return i;
        }
        i += 1;
    }
    i
}

/// `b` keeps the scan bookkeeping of `a`.
pub open spec fn keeps_scan(a: App, b: App) -> bool {
    &&& b.scan_progress@ == a.scan_progress@
    &&& b.total_categories == a.total_categories
    &&& b.scan_pending == a.scan_pending
}

/// `b` is `a` with the cursor moved down one row (wrapping), if there are rows.
pub open spec fn moved_next(a: App, b: App) -> bool {
    &&& keeps_scan(a, b)
    &&& b.results@ == a.results@
    &&& b.state == a.state
    &&& if a.results@.len() == 0 {
        b.selected == a.selected
    } else {
        b.selected == Some(cursor_after_next(a.selected, a.results@.len() as int) as usize)
    }
}

/// `b` is `a` with the cursor moved up one row (wrapping), if there are rows.
pub open spec fn moved_previous(a: App, b: App) -> bool {
    &&& keeps_scan(a, b)
    &&& b.results@ == a.results@
    &&& b.state == a.state
    &&& if a.results@.len() == 0 {
        b.selected == a.selected
    } else {
        b.selected == Some(cursor_after_previous(a.selected, a.results@.len() as int) as usize)
    }
}

/// The rows with the selection of the row under the cursor flipped, if the
/// cursor is on a row.
pub open spec fn toggled_rows(rows: Seq<ScanResult>, cursor: Option<usize>) -> Seq<ScanResult> {
    match cursor {
        Some(i) => if i < rows.len() {
            rows.update(i as int, with_selection(rows[i as int], !rows[i as int].is_selected))
        } else {
            rows
        },
        None => rows,
    }
}

/// `b` is `a` with the row under the cursor toggled.
pub open spec fn toggled(a: App, b: App) -> bool {
    &&& keeps_scan(a, b)
    &&& b.selected == a.selected
    &&& b.state == a.state
    &&& b.results@ == toggled_rows(a.results@, a.selected)
}

/// `b` is `a` after a request to clean: from `Browsing` with a positive
/// selected size, `Confirming`; otherwise no change.
pub open spec fn clean_requested(a: App, b: App) -> bool {
    &&& keeps_scan(a, b)
    &&& b.results@ == a.results@
    &&& b.selected == a.selected
    &&& if a.state is Browsing && selected_total(a.results@) > 0 {
        b.state is Confirming
    } else {
        b.state == a.state
    }
}

/// `b` is `a` moved to `state`, with nothing else changed.
pub open spec fn moved_to(a: App, b: App, state: AppState) -> bool {
    &&& keeps_scan(a, b)
    &&& b.results@ == a.results@
    &&& b.selected == a.selected
    &&& b.state == state
}

/// `b` is `a` once a clean has been started on `items`: the items of the
/// selected rows; with none, `Done` with a message saying so, else `Cleaning`.
pub open spec fn clean_started(a: App, b: App, items: Seq<ScannedItem>) -> bool {
    &&& keeps_scan(a, b)
    &&& b.results@ == a.results@
    &&& b.selected == a.selected
    &&& item_views(items) == selected_items(a.results@)
    &&& items.len() == 0 ==> b.state is Done && b.state->Done_0@ == "Nothing selected to clean."@
    &&& items.len() > 0 ==> b.state is Cleaning
}

proof fn lemma_selected_total_nonnegative(rows: Seq<ScanResult>)
    ensures
        selected_total(rows) >= 0,
    decreases rows.len(),
{
    if rows.len() > 0 {
        lemma_selected_total_nonnegative(rows.drop_last());
    }
}

proof fn lemma_nothing_selected(rows: Seq<ScanResult>)
    requires
        forall|i: int| 0 <= i < rows.len() ==> !(#[trigger] rows[i]).is_selected,
    ensures
        selected_total(rows) == 0,
    decreases rows.len(),
{
    if rows.len() > 0 {
        lemma_nothing_selected(rows.drop_last());
    }
}

/// From `Browsing`, a request to clean with nothing of size selected
/// leaves the session browsing; with a positive selected size it moves to
/// `Confirming` and nowhere else.
pub proof fn lemma_clean_request_gate(a: App, b: App)
    requires
        a.state is Browsing,
        clean_requested(a, b),
    ensures
        capped(selected_total(a.results@)) == 0 ==> b.state is Browsing,
        capped(selected_total(a.results@)) > 0 ==> b.state is Confirming,
{
    lemma_selected_total_nonnegative(a.results@);
}

/// After a clean every row that was selected holds nothing and
/// is unselected, so nothing of size is selected any more.
pub proof fn lemma_clean_clears_selection(before: Seq<ScanResult>, after: Seq<ScanResult>)
    requires
        rows_after_clean(before, after),
    ensures
        selected_total(after) == 0,
        forall|i: int|
            0 <= i < before.len() && (#[trigger] before[i]).is_selected ==> after[i].total_size == 0
                && after[i].items@.len() == 0 && !after[i].is_selected,
{
    assert forall|i: int| 0 <= i < after.len() implies !(#[trigger] after[i]).is_selected by {
        assert(row_after_clean(before[i], after[i]));
    }
    lemma_nothing_selected(after);
    assert forall|i: int|
        0 <= i < before.len() && (#[trigger] before[i]).is_selected implies after[i].total_size == 0
            && after[i].items@.len() == 0 && !after[i].is_selected by {
        assert(row_after_clean(before[i], after[i]));
    }
}

impl App {
    /// A session waiting for its first scan.
    pub fn new_scanning() -> (r: App)
        ensures
            r.results@.len() == 0,
            r.selected is None,
            r.state is Scanning,
            r.scan_progress@.len() == 0,
            r.total_categories == 0,
            !r.scan_pending,
    {
        App {
            results: Vec::new(),
            selected: None,
            state: AppState::Scanning,
            scan_progress: Vec::new(),
            total_categories: 0,
            scan_pending: false,
        }
    }

    /// Moves the cursor down one row, wrapping to the top; nothing happens
    /// without rows.
    pub fn next(&mut self)
        ensures
            moved_next(*old(self), *final(self)),
    {
        let n = self.results.len();
        if n == 0 {
            return;
        }
        let i: usize = match self.selected {
            Some(i) => if i >= n - 1 {
                0
            } else {
                i + 1
            },
            None => 0,
        };
        self.selected = Some(i);
    }

    /// Moves the cursor up one row, wrapping to the bottom; nothing happens
    /// without rows.
    pub fn previous(&mut self)
        ensures
            moved_previous(*old(self), *final(self)),
    {
        let n = self.results.len();
        if n == 0 {
            return;
        }
        let i: usize = match self.selected {
            Some(i) => if i == 0 {
                n - 1
            } else {
                i - 1
            },
            None => 0,
        };
        self.selected = Some(i);
    }

    /// Flips the selection of the row under the cursor, if the cursor is on a row.
    pub fn toggle(&mut self)
        ensures
            toggled(*old(self), *final(self)),
    {
        match self.selected {
            Some(i) => {
                if i < self.results.len() {
                    let ghost before = self.results@;
                    let mut row = self.results.remove(i);
                    row.is_selected = !row.is_selected;
                    self.results.insert(i, row);
                    assert(self.results@ =~= toggled_rows(before, Some(i)));
                }
            },
            None => {},
        }
    }

    /// The combined size of the selected rows, saturating at `u64::MAX`.
    pub fn total_selected_size(&self) -> (r: u64)
        ensures
            r == capped(selected_total(self.results@)),
    {
        let mut acc: u64 = 0;
        let mut i: usize = 0;
        while i < self.results.len()
            invariant
                i <= self.results.len(),
                acc == capped(selected_total(self.results@.subrange(0, i as int))),
            decreases self.results.len() - i,
        {
            proof {
                let pre = self.results@.subrange(0, i as int + 1);
                assert(pre.drop_last() =~= self.results@.subrange(0, i as int));
            }
            if self.results[i].is_selected {
                acc = acc.saturating_add(self.results[i].total_size);
            }
            i += 1;
        }
        assert(self.results@.subrange(0, self.results.len() as int) =~= self.results@);
        acc
    }

    /// Asks to clean the selection. From `Browsing`, with a positive selected
    /// size, the session moves to `Confirming`; otherwise nothing changes.
    pub fn request_clean(&mut self)
        ensures
            clean_requested(*old(self), *final(self)),
    {
        if let AppState::Browsing = self.state {
            if self.total_selected_size() > 0 {
                self.state = AppState::Confirming;
            }
        }
    }

    /// Declines a pending clean: from `Confirming` back to `Browsing`.
    pub fn cancel_clean(&mut self)
        ensures
            old(self).state is Confirming ==> moved_to(*old(self), *final(self), AppState::Browsing),
            !(old(self).state is Confirming) ==> *final(self) == *old(self),
    {
        if let AppState::Confirming = self.state {
            self.state = AppState::Browsing;
        }
    }

    /// Starts cleaning the selection: hands back copies of the items of the
    /// selected rows, row after row, for the cleaner to work on. With none,
    /// the session moves to `Done` with a message saying so; otherwise to
    /// `Cleaning`, until [`App::finish_cleaning`].
    pub fn clean_selected(&mut self) -> (r: Vec<ScannedItem>)
        ensures
            clean_started(*old(self), *final(self), r@),
    {
        let mut r: Vec<ScannedItem> = Vec::new();
        let mut i: usize = 0;
        while i < self.results.len()
            invariant
                i <= self.results.len(),
                item_views(r@) == selected_items(self.results@.subrange(0, i as int)),
            decreases self.results.len() - i,
        {
            proof {
                let pre = self.results@.subrange(0, i as int + 1);
                assert(pre.drop_last() =~= self.results@.subrange(0, i as int));
            }
            if self.results[i].is_selected {
                let ghost base = r@;
                let n = self.results[i].items.len();
                let mut j: usize = 0;
                while j < n
                    invariant
                        i < self.results.len(),
                        n == self.results@[i as int].items@.len(),
                        j <= n,
                        item_views(r@) == item_views(base) + item_views(
                            self.results@[i as int].items@.subrange(0, j as int),
                        ),
                    decreases n - j,
                {
                    let c = self.results[i].items[j].duplicate();
                    let ghost prev = r@;
                    r.push(c);
                    proof {
                        let items = self.results@[i as int].items@;
                        assert(item_views(r@) =~= item_views(prev).push(c@));
                        assert(item_views(items.subrange(0, j as int + 1)) =~= item_views(
                            items.subrange(0, j as int),
                        ).push(items[j as int]@));
                        assert(self.results@[i as int].items@.subrange(0, j as int + 1) =~= self.results@[
                            i as int
                        ].items@.subrange(0, j as int).push(self.results@[i as int].items@[j as int]));
                        assert(item_views(r@) =~= item_views(base) + item_views(
                            self.results@[i as int].items@.subrange(0, j as int + 1),
                        ));
                    }
                    j += 1;
                }
                assert(self.results@[i as int].items@.subrange(0, n as int) =~= self.results@[i as int].items@);
            } else {
                assert(item_views(r@) =~= selected_items(self.results@.subrange(0, i as int + 1)));
            }
            i += 1;
        }
        assert(self.results@.subrange(0, self.results.len() as int) =~= self.results@);
        if r.len() == 0 {
            self.state = AppState::Done(to_owned_text("Nothing selected to clean."));
        } else {
            self.state = AppState::Cleaning;
        }
        r
    }

    /// Takes the cleaner's outcome. Either way the session moves to `Done`
    /// with the outcome's message, and every selected row is emptied and
    /// unselected, since a clean that stopped part way may already have
    /// removed some of what those rows listed.
    pub fn finish_cleaning(&mut self, outcome: Result<String, String>)
        ensures
            final(self).selected == old(self).selected,
            final(self).scan_progress@ == old(self).scan_progress@,
            final(self).total_categories == old(self).total_categories,
            final(self).scan_pending == old(self).scan_pending,
            final(self).state is Done,
            final(self).state->Done_0 == match outcome {
                Ok(m) => m,
                Err(e) => e,
            },
            rows_after_clean(old(self).results@, final(self).results@),
    {
        let msg = match outcome {
            Ok(m) => m,
            Err(e) => e,
        };
        self.state = AppState::Done(msg);
        let ghost all = self.results@;
        let n0 = self.results.len();
        let mut rest: Vec<ScanResult> = Vec::new();
        std::mem::swap(&mut rest, &mut self.results);
        let mut rows: Vec<ScanResult> = Vec::new();
        let mut k: usize = 0;
        while rest.len() > 0
            invariant
                all.len() == n0,
                n0 == k + rest.len(),
                rest@ == all.subrange(k as int, n0 as int),
                rows@.len() == k,
                forall|i: int| 0 <= i < k ==> row_after_clean(#[trigger] all[i], rows@[i]),
            decreases rest.len(),
        {
            let row = rest.remove(0);
            proof {
                assert(rest@ =~= all.subrange(k + 1, n0 as int));
                assert(row == all[k as int]);
            }
            if row.is_selected {
                rows.push(ScanResult { is_selected: false, total_size: 0, items: Vec::new(), ..row });
            } else {
                rows.push(row);
            }
            k += 1;
        }
        self.results = rows;
    }

    /// Takes one key from the operator and says what the host is to do.
    /// While browsing: `q` quits, `j`/down and `k`/up move the cursor, space
    /// toggles the row, enter asks to clean. While confirming: `y`/enter
    /// starts the clean, `n`/`q`/escape declines. While scanning: `q`/escape
    /// quits. When done: escape, enter, space or `q` return to browsing.
    /// While cleaning every key is ignored.
    pub fn handle_key(&mut self, key: Key) -> (r: Action)
        ensures
            old(self).state is Browsing ==> match key {
                Key::Char('q') => r is Quit && *final(self) == *old(self),
                Key::Down | Key::Char('j') => r is Continue && moved_next(*old(self), *final(self)),
                Key::Up | Key::Char('k') => r is Continue && moved_previous(*old(self), *final(self)),
                Key::Char(' ') => r is Continue && toggled(*old(self), *final(self)),
                Key::Enter => r is Continue && clean_requested(*old(self), *final(self)),
                _ => r is Continue && *final(self) == *old(self),
            },
            old(self).state is Confirming ==> match key {
                Key::Char('y') | Key::Enter => match r {
                    Action::Clean(items) => items@.len() > 0 && clean_started(*old(self), *final(self), items@),
                    Action::Continue => clean_started(*old(self), *final(self), Seq::empty()),
                    Action::Quit => false,
                },
                Key::Char('n') | Key::Char('q') | Key::Esc => r is Continue && moved_to(
                    *old(self),
                    *final(self),
                    AppState::Browsing,
                ),
                _ => r is Continue && *final(self) == *old(self),
            },
            old(self).state is Cleaning ==> r is Continue && *final(self) == *old(self),
            old(self).state is Scanning ==> match key {
                Key::Char('q') | Key::Esc => r is Quit && *final(self) == *old(self),
                _ => r is Continue && *final(self) == *old(self),
            },
            old(self).state is Done ==> match key {
                Key::Esc | Key::Enter | Key::Char(' ') | Key::Char('q') => r is Continue && moved_to(
                    *old(self),
                    *final(self),
                    AppState::Browsing,
                ),
                _ => r is Continue && *final(self) == *old(self),
            },
    {
        match self.state {
            AppState::Browsing => match key {
                Key::Char('q') => Action::Quit,
                Key::Down | Key::Char('j') => {
                    self.next();
                    Action::Continue
                },
                Key::Up | Key::Char('k') => {
                    self.previous();
                    Action::Continue
                },
                Key::Char(' ') => {
                    self.toggle();
                    Action::Continue
                },
                Key::Enter => {
                    self.request_clean();
                    Action::Continue
                },
                _ => Action::Continue,
            },
            AppState::Confirming => match key {
                Key::Char('y') | Key::Enter => {
                    let items = self.clean_selected();
                    if items.len() > 0 {
                        Action::Clean(items)
                    } else {
                        proof {
                            assert(items@ =~= Seq::<ScannedItem>::empty());
                        }
                        Action::Continue
                    }
                },
                Key::Char('n') | Key::Char('q') | Key::Esc => {
                    self.state = AppState::Browsing;
                    Action::Continue
                },
                _ => Action::Continue,
            },
            AppState::Cleaning => Action::Continue,
            AppState::Scanning => match key {
                Key::Char('q') | Key::Esc => Action::Quit,
                _ => Action::Continue,
            },
            AppState::Done(_) => match key {
                Key::Esc | Key::Enter | Key::Char(' ') | Key::Char('q') => {
                    self.state = AppState::Browsing;
                    Action::Continue
                },
                _ => Action::Continue,
            },
        }
    }

    /// Prepares for a scan of `categories`: one progress entry per distinct
    /// category, in first-seen order, with no items counted and status
    /// `Waiting...`, and the session in `Scanning` until as many results as
    /// `categories` holds have come in.
    pub fn start_scan(&mut self, categories: &Vec<CategoryType>)
        ensures
            final(self).results@ == old(self).results@,
            final(self).selected == old(self).selected,
            final(self).state is Scanning,
            final(self).scan_pending,
            final(self).total_categories == categories@.len(),
            final(self).scan_progress@.len() == distinct_categories(categories@).len(),
            forall|i: int|
                0 <= i < final(self).scan_progress@.len() ==> #[trigger] final(self).scan_progress@[i]@ == (
                    distinct_categories(categories@)[i],
                    0u64,
                    "Waiting..."@,
                ),
            no_repeated_category(progress_views(final(self).scan_progress@)),
    {
        let mut ps: Vec<ScanProgress> = Vec::new();
        let mut i: usize = 0;
        while i < categories.len()
            invariant
                i <= categories.len(),
                ps@.len() == distinct_categories(categories@.subrange(0, i as int)).len(),
                forall|k: int|
                    0 <= k < ps@.len() ==> #[trigger] ps@[k]@ == (
                        distinct_categories(categories@.subrange(0, i as int))[k],
                        0u64,
                        "Waiting..."@,
                    ),
                no_repeated_category(progress_views(ps@)),
            decreases categories.len() - i,
        {
            let c = categories[i];
            let ghost prev = distinct_categories(categories@.subrange(0, i as int));
            let ghost pv = progress_views(ps@);
            proof {
                let pre = categories@.subrange(0, i as int + 1);
                assert(pre.drop_last() =~= categories@.subrange(0, i as int));
                assert(pre.last() == c);
                assert forall|k: int| 0 <= k < pv.len() implies #[trigger] pv[k].0 == prev[k] by {
                    assert(ps@[k]@ == (prev[k], 0u64, "Waiting..."@));
                }
            }
            let j = progress_slot(&ps, c);
            proof {
                lemma_slot_from_found(pv, c, 0);
            }
            if j == ps.len() {
                ps.push(ScanProgress { category: c, items_count: 0, status: to_owned_text("Waiting...") });
                proof {
                    assert(!prev.contains(c)) by {
                        if prev.contains(c) {
                            let k = choose|k: int| 0 <= k < prev.len() && prev[k] == c;
                            assert(pv[k].0 == c);
                        }
                    }
                    let npv = progress_views(ps@);
                    assert forall|x: int, y: int| 0 <= x < y < npv.len() implies npv[x].0 != npv[y].0 by {
                        if y == npv.len() - 1 {
                            assert(npv[x] == pv[x]);
                        } else {
                            assert(npv[x] == pv[x] && npv[y] == pv[y]);
                        }
                    }
                }
            } else {
                proof {
                    assert(prev[j as int] == c);
                    assert(prev.contains(c));
                }
            }
            i += 1;
        }
        assert(categories@.subrange(0, categories@.len() as int) =~= categories@);
        self.scan_progress = ps;
        self.total_categories = categories.len();
        self.scan_pending = true;
        self.state = AppState::Scanning;
    }

    /// The progress entry of `category`, if it has one.
    pub fn progress_of(&self, category: CategoryType) -> (r: Option<&ScanProgress>)
        ensures
            ({
                let j = slot_from(progress_views(self.scan_progress@), category, 0);
                if j < self.scan_progress@.len() {
                    r == Some(&self.scan_progress@[j])
                } else {
                    r is None
                }
            }),
    {
        let j = progress_slot(&self.scan_progress, category);
        if j < self.scan_progress.len() {
            Some(&self.scan_progress[j])
        } else {
            None
        }
    }

    /// Takes one update of a scan in flight: it updates the progress entries
    /// as [`progress_step`] says, and a result joins the rows.
    pub fn apply_scan_update(&mut self, update: ScanUpdate)
        ensures
            progress_views(final(self).scan_progress@) == progress_step(progress_views(old(self).scan_progress@), update),
            no_repeated_category(progress_views(old(self).scan_progress@)) ==> no_repeated_category(
                progress_views(final(self).scan_progress@),
            ),
            final(self).results@ == rows_step(old(self).results@, update),
            final(self).selected == old(self).selected,
            final(self).state == old(self).state,
            final(self).total_categories == old(self).total_categories,
            final(self).scan_pending == old(self).scan_pending,
    {
        let ghost pv = progress_views(self.scan_progress@);
        proof {
            let single = seq![update];
            assert(single.drop_last() =~= Seq::<ScanUpdate>::empty());
            assert(single.last() == update);
            lemma_progress_counts_never_decrease(pv, single);
        }
        match update {
            ScanUpdate::Progress(p) => {
                let j = progress_slot(&self.scan_progress, p.category);
                if j < self.scan_progress.len() {
                    let e = self.scan_progress.remove(j);
                    let ghost sv = p.status@;
                    let entry = ScanProgress {
                        category: e.category,
                        items_count: e.items_count.saturating_add(p.items_count),
                        status: p.status,
                    };
                    self.scan_progress.insert(j, entry);
                    assert(progress_views(self.scan_progress@) =~= pv.update(
                        j as int,
                        (pv[j as int].0, capped(pv[j as int].1 + p.items_count) as u64, sv),
                    ));
                }
            },
            ScanUpdate::Result(r) => {
                let j = progress_slot(&self.scan_progress, r.category);
                if j < self.scan_progress.len() {
                    let e = self.scan_progress.remove(j);
                    let entry = ScanProgress {
                        category: e.category,
                        items_count: e.items_count,
                        status: to_owned_text("Done"),
                    };
                    self.scan_progress.insert(j, entry);
                    assert(progress_views(self.scan_progress@) =~= pv.update(
                        j as int,
                        (pv[j as int].0, pv[j as int].1, "Done"@),
                    ));
                }
                self.results.push(r);
            },
        }
    }

    /// Drains the updates that arrived since the last tick, in order. Once
    /// every requested category has reported its result, the rows are ordered
    /// by total size (largest first), the cursor goes to the first row (if
    /// any), the update stream is detached and the session moves to
    /// `Browsing`. Without an attached stream nothing happens.
    pub fn check_scan_status(&mut self, updates: Vec<ScanUpdate>)
        ensures
            final(self).total_categories == old(self).total_categories,
            !old(self).scan_pending ==> {
                &&& final(self).results@ == old(self).results@
                &&& final(self).selected == old(self).selected
                &&& final(self).state == old(self).state
                &&& final(self).scan_progress@ == old(self).scan_progress@
                &&& !final(self).scan_pending
            },
            old(self).scan_pending ==> progress_views(final(self).scan_progress@)
                == progress_after(progress_views(old(self).scan_progress@), updates@),
            no_repeated_category(progress_views(old(self).scan_progress@)) ==> no_repeated_category(
                progress_views(final(self).scan_progress@),
            ),
            old(self).scan_pending ==> scan_settles(
                old(self).results@ + result_rows(updates@),
                old(self).total_categories as int,
                old(self).selected,
                old(self).state,
                final(self).results@,
                final(self).selected,
                final(self).state,
                final(self).scan_pending,
            ),
    {
        if !self.scan_pending {
            return;
        }
        let ghost all = updates@;
        let ghost rows0 = self.results@;
        let ghost progress0 = progress_views(self.scan_progress@);
        let n0 = updates.len();
        let mut rest = updates;
        let mut k: usize = 0;
        while rest.len() > 0
            invariant
                all.len() == n0,
                n0 == k + rest.len(),
                rest@ == all.subrange(k as int, n0 as int),
                self.results@ == rows0 + result_rows(all.subrange(0, k as int)),
                progress_views(self.scan_progress@) == progress_after(progress0, all.subrange(0, k as int)),
                self.selected == old(self).selected,
                self.state == old(self).state,
                self.total_categories == old(self).total_categories,
                self.scan_pending,
            decreases rest.len(),
        {
            let u = rest.remove(0);
            proof {
                assert(rest@ =~= all.subrange(k + 1, n0 as int));
                let pre = all.subrange(0, k + 1);
                assert(pre.drop_last() =~= all.subrange(0, k as int));
                assert(pre.last() == u);
            }
            let ghost gu = u;
            self.apply_scan_update(u);
            proof {
                match gu {
                    ScanUpdate::Result(r) => {
                        assert(self.results@ =~= rows0 + result_rows(all.subrange(0, k as int + 1)));
                    },
                    ScanUpdate::Progress(_) => {
                        assert(self.results@ =~= rows0 + result_rows(all.subrange(0, k as int + 1)));
                    },
                }
            }
            k += 1;
        }
        proof {
            lemma_progress_counts_never_decrease(progress0, all);
        }
        assert(all.subrange(0, n0 as int) =~= all);
        if self.results.len() == self.total_categories {
            let mut rows: Vec<ScanResult> = Vec::new();
            std::mem::swap(&mut rows, &mut self.results);
            self.results = sort_by_total_desc(rows);
            if self.results.len() > 0 {
                self.selected = Some(0);
            }
            self.state = AppState::Browsing;
            self.scan_pending = false;
        }
    }

    /// Acknowledges a finished clean: from `Done` back to `Browsing`.
    pub fn acknowledge(&mut self)
        ensures
            old(self).state is Done ==> moved_to(*old(self), *final(self), AppState::Browsing),
            !(old(self).state is Done) ==> *final(self) == *old(self),
    {
        if let AppState::Done(_) = self.state {
            self.state = AppState::Browsing;
        }
    }
}

} // verus!
