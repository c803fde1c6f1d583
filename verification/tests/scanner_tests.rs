use mirror_sync::model::{fallback_applies, sync_status, ManifestEntry, SyncError};
use mirror_sync::planner::plan_full_sync;
use mirror_sync::scanner::{build_local_file_map, find_local_file, ScannedFile};

fn scanned(rel_path: &str, hash: &str) -> ScannedFile {
    ScannedFile {
        rel_path: rel_path.to_string(),
        hash: hash.to_string(),
    }
}

#[test]
fn scan_reads_overlay_state_off_the_basename() {
    let files = vec![scanned("a.txt", "h1"), scanned("sub/-b.txt", "h2")];
    let (records, collisions) = build_local_file_map(&files);
    assert!(collisions.is_empty());
    assert_eq!(records.len(), 2);
    assert_eq!(records[0].canonical_path, "a.txt");
    assert_eq!(records[0].actual_path, "a.txt");
    assert!(!records[0].disabled);
    assert_eq!(records[1].canonical_path, "sub/b.txt");
    assert_eq!(records[1].actual_path, "sub/-b.txt");
    assert!(records[1].disabled);
    assert_eq!(records[1].hash, "h2");
}

#[test]
fn scan_applies_the_exclusion_rules() {
    let files = vec![
        scanned("user-customs/custom.png", "h1"),
        scanned(".hidden", "h2"),
        scanned("a/.git/x", "h3"),
        scanned("kept.png", "h4"),
    ];
    let (records, collisions) = build_local_file_map(&files);
    assert!(collisions.is_empty());
    assert_eq!(records.len(), 1);
    assert_eq!(records[0].canonical_path, "kept.png");
}

#[test]
fn both_overlay_forms_of_one_path_are_a_reported_collision() {
    let files = vec![scanned("x.png", "h1"), scanned("-x.png", "h2")];
    let (records, collisions) = build_local_file_map(&files);
    assert_eq!(records.len(), 1);
    assert_eq!(records[0].actual_path, "x.png");
    assert_eq!(collisions, vec!["-x.png".to_string()]);
}

#[test]
fn lookup_finds_a_record_by_canonical_path() {
    let files = vec![scanned("a.txt", "h1"), scanned("-b.txt", "h2")];
    let (records, _) = build_local_file_map(&files);
    let found = find_local_file(&records, "b.txt").expect("disabled form should be found");
    assert!(found.disabled);
    assert_eq!(found.actual_path, "-b.txt");
    assert!(find_local_file(&records, "c.txt").is_none());
}

#[test]
fn only_missing_or_truncated_results_fall_back_to_full_sync() {
    assert!(fallback_applies(&SyncError::NotFound));
    assert!(fallback_applies(&SyncError::Truncated));
    assert!(!fallback_applies(&SyncError::Network));
    assert!(!fallback_applies(&SyncError::Filesystem));
    assert!(!fallback_applies(&SyncError::MirrorNotFound));
}

#[test]
fn sync_status_reports_changes_unless_the_baseline_matches() {
    let same = sync_status(
        "abc".to_string(),
        "2024-01-01".to_string(),
        Some("abc".to_string()),
    );
    assert!(!same.has_changes);
    assert_eq!(same.latest_commit_sha, "abc");

    let behind = sync_status(
        "def".to_string(),
        "2024-01-02".to_string(),
        Some("abc".to_string()),
    );
    assert!(behind.has_changes);

    let first = sync_status("def".to_string(), "2024-01-02".to_string(), None);
    assert!(first.has_changes);
    assert_eq!(first.last_sync_commit, None);
}

#[test]
fn scan_output_feeds_the_planner_directly() {
    let files = vec![
        scanned("a.txt", "h1"),
        scanned("-b.txt", "h2"),
        scanned("gone.txt", "h3"),
    ];
    let (records, _) = build_local_file_map(&files);
    let manifest = vec![
        ManifestEntry {
            path: "a.txt".to_string(),
            hash: "h1".to_string(),
        },
        ManifestEntry {
            path: "b.txt".to_string(),
            hash: "h9".to_string(),
        },
    ];
    let plan = plan_full_sync(&manifest, &records);
    // a.txt matches; b.txt is stale and stays disabled; gone.txt is orphaned.
    assert_eq!(plan.downloads.len(), 1);
    assert_eq!(plan.downloads[0].path, "b.txt");
    assert!(plan.downloads[0].disabled);
    assert_eq!(plan.deletes, vec!["gone.txt".to_string()]);
}
