use mirror_sync::model::{LocalRecord, ManifestEntry};
use mirror_sync::planner::{plan_full_sync, verify_mirror};

fn entry(path: &str, hash: &str) -> ManifestEntry {
    ManifestEntry {
        path: path.to_string(),
        hash: hash.to_string(),
    }
}

fn enabled(path: &str, hash: &str) -> LocalRecord {
    LocalRecord {
        canonical_path: path.to_string(),
        actual_path: path.to_string(),
        hash: hash.to_string(),
        disabled: false,
    }
}

fn disabled(canonical: &str, actual: &str, hash: &str) -> LocalRecord {
    LocalRecord {
        canonical_path: canonical.to_string(),
        actual_path: actual.to_string(),
        hash: hash.to_string(),
        disabled: true,
    }
}

#[test]
fn matching_local_file_needs_no_action() {
    let manifest = vec![entry("a.txt", "h1")];
    let local = vec![enabled("a.txt", "h1")];
    let plan = plan_full_sync(&manifest, &local);
    assert!(plan.downloads.is_empty());
    assert!(plan.deletes.is_empty());
}

#[test]
fn stale_disabled_file_is_redownloaded_disabled() {
    let manifest = vec![entry("a.txt", "h2")];
    let local = vec![disabled("a.txt", "-a.txt", "h1")];
    let plan = plan_full_sync(&manifest, &local);
    assert_eq!(plan.downloads.len(), 1);
    assert_eq!(plan.downloads[0].path, "a.txt");
    assert!(plan.downloads[0].disabled);
    assert!(plan.deletes.is_empty());
}

#[test]
fn file_removed_upstream_is_deleted() {
    let manifest: Vec<ManifestEntry> = vec![];
    let local = vec![enabled("a.txt", "h1")];
    let plan = plan_full_sync(&manifest, &local);
    assert!(plan.downloads.is_empty());
    assert_eq!(plan.deletes, vec!["a.txt".to_string()]);
}

#[test]
fn unchanged_disabled_file_appears_in_neither_list() {
    let manifest = vec![entry("a.txt", "h1")];
    let local = vec![disabled("a.txt", "-a.txt", "h1")];
    let plan = plan_full_sync(&manifest, &local);
    assert!(plan.downloads.is_empty());
    assert!(plan.deletes.is_empty());
}

#[test]
fn missing_file_downloads_enabled() {
    let manifest = vec![entry("b/new.png", "h9")];
    let local: Vec<LocalRecord> = vec![];
    let plan = plan_full_sync(&manifest, &local);
    assert_eq!(plan.downloads.len(), 1);
    assert_eq!(plan.downloads[0].path, "b/new.png");
    assert!(!plan.downloads[0].disabled);
}

#[test]
fn orphaned_disabled_file_is_deleted_at_its_actual_path() {
    let manifest: Vec<ManifestEntry> = vec![];
    let local = vec![disabled("c.txt", "-c.txt", "h1")];
    let plan = plan_full_sync(&manifest, &local);
    assert_eq!(plan.deletes, vec!["-c.txt".to_string()]);
}

#[test]
fn excluded_paths_take_part_in_neither_direction() {
    let manifest = vec![entry("user-customs/x.png", "h1"), entry(".git/blob", "h2")];
    let local = vec![enabled("user-customs/y.png", "h3")];
    let plan = plan_full_sync(&manifest, &local);
    assert!(plan.downloads.is_empty());
    assert!(plan.deletes.is_empty());
}

#[test]
fn planning_twice_is_idempotent() {
    let manifest = vec![
        entry("a.txt", "h1"),
        entry("b.txt", "h2"),
        entry("c/d.txt", "h3"),
    ];
    let local = vec![
        enabled("a.txt", "h0"),       // stale: downloaded enabled
        disabled("b.txt", "-b.txt", "hX"), // stale: downloaded disabled
        enabled("gone.txt", "h4"),    // orphaned: deleted
    ];
    let plan = plan_full_sync(&manifest, &local);
    assert_eq!(plan.downloads.len(), 3);
    assert_eq!(plan.deletes.len(), 1);

    // The state the plan produces: survivors carry the remote hash in
    // their overlay state, fresh downloads land enabled.
    let after = vec![
        enabled("a.txt", "h1"),
        disabled("b.txt", "-b.txt", "h2"),
        enabled("c/d.txt", "h3"),
    ];
    let again = plan_full_sync(&manifest, &after);
    assert!(again.downloads.is_empty());
    assert!(again.deletes.is_empty());
}

#[test]
fn verification_reports_the_same_comparison() {
    let manifest = vec![entry("a.txt", "h2"), entry("b.txt", "h5")];
    let local = vec![disabled("a.txt", "-a.txt", "h1"), enabled("old.txt", "h9")];
    let report = verify_mirror(&manifest, &local);
    assert!(report.has_discrepancies);
    assert_eq!(report.files_to_download.len(), 2);
    assert_eq!(report.files_to_download[0].path, "a.txt");
    assert!(report.files_to_download[0].to_disabled);
    assert_eq!(report.files_to_download[1].path, "b.txt");
    assert!(!report.files_to_download[1].to_disabled);
    assert_eq!(report.files_to_delete, vec!["old.txt".to_string()]);
}

#[test]
fn clean_mirror_verifies_without_discrepancies() {
    let manifest = vec![entry("a.txt", "h1")];
    let local = vec![enabled("a.txt", "h1")];
    let report = verify_mirror(&manifest, &local);
    assert!(!report.has_discrepancies);
    assert!(report.files_to_download.is_empty());
    assert!(report.files_to_delete.is_empty());
}
