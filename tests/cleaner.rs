use sukkiri::cleaner::{
    clean_failure_message, clean_success_message, cleaning_outcome, count_skipped, decimal_text,
    launch_failure_message, plan_deletion, removal_failure_message, removal_stop_reason, RemovalOutcome,
};
use sukkiri::model::ScannedItem;

fn item(path: &str, size: u64) -> ScannedItem {
    ScannedItem { path: path.to_string(), size, modified: 0 }
}

#[test]
fn plan_splits_images_from_files() {
    let items = vec![
        item("/tmp/a.txt", 1),
        item("docker://abc123/repo:tag", 2),
        item("/tmp/dir", 3),
        item("docker://def456", 4),
    ];
    let plan = plan_deletion(&items);
    assert_eq!(plan.image_ids, vec!["abc123".to_string(), "def456".to_string()]);
    assert_eq!(plan.file_paths, vec!["/tmp/a.txt".to_string(), "/tmp/dir".to_string()]);
}

#[test]
fn empty_selection_plans_nothing() {
    let plan = plan_deletion(&vec![]);
    assert!(plan.image_ids.is_empty());
    assert!(plan.file_paths.is_empty());
}

#[test]
fn failure_messages() {
    assert_eq!(
        removal_failure_message("abc", "out", "err"),
        "Failed to remove Docker image abc.\nStdout: out\nStderr: err"
    );
    assert_eq!(launch_failure_message("not found"), "Failed to execute docker rmi: not found");
    assert_eq!(clean_failure_message("x"), "Error during cleaning: x");
}

#[test]
fn success_message_names_bytes_freed() {
    assert_eq!(clean_success_message(&vec![item("/a", 1000), item("/b", 24)]), "Successfully cleaned 1 KiB!");
    assert_eq!(clean_success_message(&vec![]), "Successfully cleaned 0 B!");
    assert_eq!(clean_success_message(&vec![item("/a", 1536)]), "Successfully cleaned 1.50 KiB!");
}

#[test]
fn outcome_of_a_clean() {
    let items = vec![item("/a", 2048)];
    assert_eq!(cleaning_outcome(&items, Ok(0)), Ok("Successfully cleaned 2 KiB!".to_string()));
    assert_eq!(
        cleaning_outcome(&items, Ok(12)),
        Ok("Successfully cleaned 2 KiB! (12 items skipped)".to_string())
    );
    assert_eq!(cleaning_outcome(&items, Err("boom".to_string())), Err("Error during cleaning: boom".to_string()));
}

#[test]
fn first_failed_image_stops_the_deletion() {
    assert_eq!(removal_stop_reason("abc", RemovalOutcome::Removed), None);
    assert_eq!(
        removal_stop_reason("abc", RemovalOutcome::Refused { stdout: "o".to_string(), stderr: "e".to_string() }),
        Some("Failed to remove Docker image abc.\nStdout: o\nStderr: e".to_string())
    );
    assert_eq!(
        removal_stop_reason("abc", RemovalOutcome::NotStarted("missing".to_string())),
        Some("Failed to execute docker rmi: missing".to_string())
    );
}

#[test]
fn skipped_entries_are_counted() {
    assert_eq!(count_skipped(&vec![]), 0);
    assert_eq!(count_skipped(&vec![true, false, true, false, false]), 3);
}

#[test]
fn decimal_numerals() {
    assert_eq!(decimal_text(0), "0");
    assert_eq!(decimal_text(7), "7");
    assert_eq!(decimal_text(10), "10");
    assert_eq!(decimal_text(18446744073709551615), "18446744073709551615");
}
