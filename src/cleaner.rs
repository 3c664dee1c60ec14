//! Deletion planning: which selected items are container images to remove
//! through the runtime and which are filesystem entries.

use vstd::prelude::*;
use vstd::string::*;
use crate::model::{capped, size_sum, total_size_of, ScannedItem};
use crate::text::{find_char, find_from, is_prefix, starts_with, to_owned_text};

verus! {

/// The scheme that marks the virtual path of a container image.
pub open spec fn virtual_scheme() -> Seq<char> {
    "docker://"@
}

/// Whether `p` is the virtual path of a container image.
pub open spec fn is_virtual(p: Seq<char>) -> bool {
    is_prefix(virtual_scheme(), p)
}

/// The image id in a virtual path: what follows the scheme, up to the first `/`.
pub open spec fn virtual_id(p: Seq<char>) -> Seq<char> {
    let rest = p.subrange(virtual_scheme().len() as int, p.len() as int);
    rest.subrange(0, find_from(rest, '/', 0))
}

/// The ids of the images among `items`, in order.
pub open spec fn image_ids(items: Seq<ScannedItem>) -> Seq<Seq<char>>
    decreases items.len(),
{
    if items.len() == 0 {
        Seq::empty()
    } else {
        let prev = image_ids(items.drop_last());
        if is_virtual(items.last().path@) {
            prev.push(virtual_id(items.last().path@))
        } else {
            prev
        }
    }
}

/// The filesystem paths among `items`, in order.
pub open spec fn file_paths(items: Seq<ScannedItem>) -> Seq<Seq<char>>
    decreases items.len(),
{
    if items.len() == 0 {
        Seq::empty()
    } else {
        let prev = file_paths(items.drop_last());
        if is_virtual(items.last().path@) {
            prev
        } else {
            prev.push(items.last().path@)
        }
    }
}

/// What a deletion does: images to remove, one at a time and in order, then
/// filesystem entries to remove or move to the trash.
pub struct DeletionPlan {
    pub image_ids: Vec<String>,
    pub file_paths: Vec<String>,
}

/// The id of the image whose virtual path is `p`.
fn id_of_virtual(p: &str) -> (r: String)
    requires
        is_virtual(p@),
    ensures
        r@ == virtual_id(p@),
{
    let scheme = "docker://";
    proof {
        reveal_strlit("docker://");
    }
    let n = p.unicode_len();
    let start = scheme.unicode_len();
    let rest = p.substring_char(start, n);
    let end = find_char(rest, '/', 0);
    to_owned_text(rest.substring_char(0, end))
}

/// Splits the selected items into container images (by id) and filesystem paths.
pub fn plan_deletion(items: &Vec<ScannedItem>) -> (r: DeletionPlan)
    ensures
        r.image_ids.deep_view() == image_ids(items@),
        r.file_paths.deep_view() == file_paths(items@),
{
    let mut ids: Vec<String> = Vec::new();
    let mut paths: Vec<String> = Vec::new();
    let mut i: usize = 0;
    while i < items.len()
        invariant
            i <= items.len(),
            ids.deep_view() == image_ids(items@.subrange(0, i as int)),
            paths.deep_view() == file_paths(items@.subrange(0, i as int)),
        decreases items.len() - i,
    {
        proof {
            let pre = items@.subrange(0, i as int + 1);
            assert(pre.drop_last() =~= items@.subrange(0, i as int));
            assert(pre.last() == items@[i as int]);
        }
        let p = items[i].path.as_str();
        if starts_with(p, "docker://") {
            let id = id_of_virtual(p);
            let ghost v = id@;
            ids.push(id);
            proof {
                assert(ids.deep_view() =~= image_ids(items@.subrange(0, i as int)).push(v));
            }
        } else {
            let owned = to_owned_text(p);
            paths.push(owned);
            proof {
                assert(paths.deep_view() =~= file_paths(items@.subrange(0, i as int)).push(p@));
            }
        }
        i += 1;
    }
    assert(items@.subrange(0, items.len() as int) =~= items@);
    DeletionPlan { image_ids: ids, file_paths: paths }
}

/// Cleaning an empty selection has nothing to do: no image to remove and
/// no path to delete.
pub proof fn lemma_empty_selection_plans_nothing(items: Seq<ScannedItem>)
    requires
        items.len() == 0,
    ensures
        image_ids(items).len() == 0,
        file_paths(items).len() == 0,
{
}

/// The reason given when the runtime refuses to remove image `id`.
pub fn removal_failure_message(id: &str, stdout: &str, stderr: &str) -> (r: String)
    ensures
        r@ == "Failed to remove Docker image "@ + id@ + ".\nStdout: "@ + stdout@ + "\nStderr: "@
            + stderr@,
{
    let mut r = to_owned_text("Failed to remove Docker image ");
    r.append(id);
    r.append(".\nStdout: ");
    r.append(stdout);
    r.append("\nStderr: ");
    r.append(stderr);
    r
}

/// The reason given when the runtime's removal command cannot be started.
pub fn launch_failure_message(error: &str) -> (r: String)
    ensures
        r@ == "Failed to execute docker rmi: "@ + error@,
{
    let mut r = to_owned_text("Failed to execute docker rmi: ");
    r.append(error);
    r
}

/// The text that humansize's `format_size` gives a byte count under its
/// binary (IEC) options, such as `1 KiB`.
pub uninterp spec fn binary_size_text(n: u64) -> Seq<char>;

/// Relies on `humansize::format_size` with `humansize::BINARY`: the text
/// depends on the number alone.
#[verifier::external_body]
pub(crate) fn format_binary_size(n: u64) -> (r: String)
    ensures
        r@ == binary_size_text(n),
{
    humansize::format_size(n, humansize::BINARY)
}

/// The message for a clean of `items` that went through, naming the bytes
/// freed (saturating at `u64::MAX`).
pub fn clean_success_message(items: &Vec<ScannedItem>) -> (r: String)
    ensures
        r@ == "Successfully cleaned "@ + binary_size_text(capped(size_sum(items@)) as u64) + "!"@,
{
    let size = total_size_of(items);
    let mut r = to_owned_text("Successfully cleaned ");
    let text = format_binary_size(size);
    r.append(text.as_str());
    r.append("!");
    r
}

/// The message for a clean that failed with `reason`.
pub fn clean_failure_message(reason: &str) -> (r: String)
    ensures
        r@ == "Error during cleaning: "@ + reason@,
{
    let mut r = to_owned_text("Error during cleaning: ");
    r.append(reason);
    r
}

/// How the runtime's removal of one image went.
pub enum RemovalOutcome {
    Removed,
    /// The command ran and failed, with what it printed.
    Refused { stdout: String, stderr: String },
    /// The command could not be started, with the reason.
    NotStarted(String),
}

/// After the removal of image `id`: nothing to report, so the deletion goes
/// on with the next image; or the reason that stops the whole deletion.
pub fn removal_stop_reason(id: &str, outcome: RemovalOutcome) -> (r: Option<String>)
    ensures
        match outcome {
            RemovalOutcome::Removed => r is None,
            RemovalOutcome::Refused { stdout, stderr } => r is Some && r->0@ == "Failed to remove Docker image "@
                + id@ + ".\nStdout: "@ + stdout@ + "\nStderr: "@ + stderr@,
            RemovalOutcome::NotStarted(e) => r is Some && r->0@ == "Failed to execute docker rmi: "@ + e@,
        },
{
    match outcome {
        RemovalOutcome::Removed => None,
        RemovalOutcome::Refused { stdout, stderr } => Some(
            removal_failure_message(id, stdout.as_str(), stderr.as_str()),
        ),
        RemovalOutcome::NotStarted(e) => Some(launch_failure_message(e.as_str())),
    }
}

/// How many of the filesystem removals failed (`false` in `removed`).
pub open spec fn failures(removed: Seq<bool>) -> nat
    decreases removed.len(),
{
    if removed.len() == 0 {
        0
    } else {
        failures(removed.drop_last()) + if removed.last() {
            0nat
        } else {
            1nat
        }
    }
}

proof fn lemma_failures_bounded(removed: Seq<bool>)
    ensures
        failures(removed) <= removed.len(),
    decreases removed.len(),
{
    if removed.len() > 0 {
        lemma_failures_bounded(removed.drop_last());
    }
}

/// The number of filesystem entries that were skipped because their removal failed.
pub fn count_skipped(removed: &Vec<bool>) -> (r: usize)
    ensures
        r == failures(removed@),
{
    let mut n: usize = 0;
    let mut i: usize = 0;
    while i < removed.len()
        invariant
            i <= removed.len(),
            n == failures(removed@.subrange(0, i as int)),
        decreases removed.len() - i,
    {
        proof {
            let pre = removed@.subrange(0, i as int + 1);
            assert(pre.drop_last() =~= removed@.subrange(0, i as int));
            lemma_failures_bounded(removed@.subrange(0, i as int));
        }
        if !removed[i] {
            n += 1;
        }
        i += 1;
    }
    assert(removed@.subrange(0, removed.len() as int) =~= removed@);
    n
}

/// The decimal digit `d` as a character.
pub open spec fn digit_char(d: nat) -> char {
    (('0' as int) + d) as char
}

/// The decimal numeral of `n`, without leading zeros.
pub open spec fn decimal(n: nat) -> Seq<char>
    decreases n,
{
    if n < 10 {
        seq![digit_char(n)]
    } else {
        decimal(n / 10).push(digit_char(n % 10))
    }
}

fn digit_text(d: u64) -> (r: &'static str)
    requires
        d < 10,
    ensures
        r@ == seq![digit_char(d as nat)],
{
    proof {
        reveal_strlit("0");
        reveal_strlit("1");
        reveal_strlit("2");
        reveal_strlit("3");
        reveal_strlit("4");
        reveal_strlit("5");
        reveal_strlit("6");
        reveal_strlit("7");
        reveal_strlit("8");
        reveal_strlit("9");
    }
    let r = match d {
        0 => "0",
        1 => "1",
        2 => "2",
        3 => "3",
        4 => "4",
        5 => "5",
        6 => "6",
        7 => "7",
        8 => "8",
        _ => "9",
    };
    assert(r@ =~= seq![digit_char(d as nat)]);
    r
}

/// The decimal numeral of `n`.
pub fn decimal_text(n: u64) -> (r: String)
    ensures
        r@ == decimal(n as nat),
    decreases n,
{
    if n < 10 {
        to_owned_text(digit_text(n))
    } else {
        let mut r = decimal_text(n / 10);
        r.append(digit_text(n % 10));
        r
    }
}

/// What a permanent deletion that went through reports: the bytes freed
/// and, where some entries could not be removed, how many were skipped.
pub open spec fn success_text(items: Seq<ScannedItem>, skipped: nat) -> Seq<char> {
    "Successfully cleaned "@ + binary_size_text(capped(size_sum(items)) as u64) + "!"@ + if skipped == 0 {
        Seq::empty()
    } else {
        " ("@ + decimal(skipped) + " items skipped)"@
    }
}

/// What the cleaner's run over `items` reports back to the session: the
/// success message with the number of entries skipped, or the failure
/// message built from its reason.
pub fn cleaning_outcome(items: &Vec<ScannedItem>, run: Result<usize, String>) -> (r: Result<String, String>)
    ensures
        run is Ok ==> r is Ok && r->Ok_0@ == success_text(items@, run->Ok_0 as nat),
        run is Err ==> r is Err && r->Err_0@ == "Error during cleaning: "@ + run->Err_0@,
{
    match run {
        Ok(skipped) => {
            let mut m = clean_success_message(items);
            if skipped > 0 {
                m.append(" (");
                let n = decimal_text(skipped as u64);
                m.append(n.as_str());
                m.append(" items skipped)");
            }
            Ok(m)
        },
        Err(e) => Err(clean_failure_message(e.as_str())),
    }
}

} // verus!
