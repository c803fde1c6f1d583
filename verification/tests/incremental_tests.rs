use mirror_sync::incremental::{
    change_set_from, classify_status, count_actions, plan_change, plan_incremental, Change,
    ChangeAction, ChangeKind, RawChange,
};
use mirror_sync::model::{LocalRecord, SyncError};

const PREFIX: &str = "textures/SLUS-21214/";

fn raw(filename: &str, status: &str, previous: Option<&str>) -> RawChange {
    RawChange {
        filename: filename.to_string(),
        status: status.to_string(),
        previous_filename: previous.map(|p| p.to_string()),
    }
}

fn change(kind: ChangeKind, path: &str, previous: Option<&str>) -> Change {
    Change {
        kind,
        path: path.to_string(),
        previous_path: previous.map(|p| p.to_string()),
    }
}

fn disabled(canonical: &str, actual: &str, hash: &str) -> LocalRecord {
    LocalRecord {
        canonical_path: canonical.to_string(),
        actual_path: actual.to_string(),
        hash: hash.to_string(),
        disabled: true,
    }
}

fn enabled(path: &str, hash: &str) -> LocalRecord {
    LocalRecord {
        canonical_path: path.to_string(),
        actual_path: path.to_string(),
        hash: hash.to_string(),
        disabled: false,
    }
}

#[test]
fn statuses_classify_and_unknown_is_other() {
    assert_eq!(classify_status("added"), ChangeKind::Added);
    assert_eq!(classify_status("modified"), ChangeKind::Modified);
    assert_eq!(classify_status("removed"), ChangeKind::Removed);
    assert_eq!(classify_status("renamed"), ChangeKind::Renamed);
    assert_eq!(classify_status("copied"), ChangeKind::Other);
    assert_eq!(classify_status(""), ChangeKind::Other);
}

#[test]
fn change_set_keeps_every_record_and_its_previous_path() {
    let raws = vec![
        raw("a.txt", "added", None),
        raw("b.txt", "renamed", Some("a.txt")),
    ];
    let (changes, truncated) = change_set_from(&raws);
    assert!(!truncated);
    assert_eq!(changes.len(), 2);
    assert_eq!(changes[0].kind, ChangeKind::Added);
    assert_eq!(changes[0].path, "a.txt");
    assert_eq!(changes[0].previous_path, None);
    assert_eq!(changes[1].kind, ChangeKind::Renamed);
    assert_eq!(changes[1].previous_path, Some("a.txt".to_string()));
}

#[test]
fn exactly_the_limit_flags_truncation_and_forces_fallback() {
    let raws: Vec<RawChange> = (0..300)
        .map(|i| raw(&format!("f{}.png", i), "modified", None))
        .collect();
    let (changes, truncated) = change_set_from(&raws);
    assert!(truncated);
    let local: Vec<LocalRecord> = vec![];
    let result = plan_incremental(&changes, truncated, &local, PREFIX);
    assert_eq!(result.unwrap_err(), SyncError::Truncated);
}

#[test]
fn below_the_limit_is_trusted() {
    let raws: Vec<RawChange> = (0..299)
        .map(|i| raw(&format!("f{}.png", i), "modified", None))
        .collect();
    let (_, truncated) = change_set_from(&raws);
    assert!(!truncated);
}

#[test]
fn rename_preserves_the_disabled_overlay() {
    let changes = vec![change(
        ChangeKind::Renamed,
        "textures/SLUS-21214/b.txt",
        Some("textures/SLUS-21214/a.txt"),
    )];
    let local = vec![disabled("a.txt", "-a.txt", "h1")];
    let actions = plan_incremental(&changes, false, &local, PREFIX).unwrap();
    assert_eq!(actions.len(), 1);
    match &actions[0] {
        ChangeAction::Rename { from, to } => {
            assert_eq!(from, "-a.txt");
            assert_eq!(to, "-b.txt");
        }
        other => panic!("expected a rename, got {:?}", other),
    }
}

#[test]
fn rename_of_an_absent_file_downloads_the_new_path() {
    let c = change(ChangeKind::Renamed, "b.txt", Some("a.txt"));
    let local: Vec<LocalRecord> = vec![];
    let action = plan_change(&c, &local);
    match action {
        ChangeAction::Download { path, dest } => {
            assert_eq!(path, "b.txt");
            assert_eq!(dest, "b.txt");
        }
        other => panic!("expected a download, got {:?}", other),
    }
}

#[test]
fn rename_from_outside_the_subtree_downloads_the_new_path() {
    // The previous path is not under the tracked subtree: filtering strips
    // it, and the rename is treated as an addition of the new path.
    let changes = vec![change(
        ChangeKind::Renamed,
        "textures/SLUS-21214/new.png",
        Some("textures/OTHER/old.png"),
    )];
    let local: Vec<LocalRecord> = vec![];
    let actions = plan_incremental(&changes, false, &local, PREFIX).unwrap();
    assert_eq!(actions.len(), 1);
    match &actions[0] {
        ChangeAction::Download { path, dest } => {
            assert_eq!(path, "new.png");
            assert_eq!(dest, "new.png");
        }
        other => panic!("expected a download, got {:?}", other),
    }
}

#[test]
fn modification_lands_in_the_existing_overlay_state() {
    let c = change(ChangeKind::Modified, "a.txt", None);
    let local = vec![disabled("a.txt", "-a.txt", "h1")];
    match plan_change(&c, &local) {
        ChangeAction::Download { path, dest } => {
            assert_eq!(path, "a.txt");
            assert_eq!(dest, "-a.txt");
        }
        other => panic!("expected a download, got {:?}", other),
    }
    let local2 = vec![enabled("a.txt", "h1")];
    match plan_change(&c, &local2) {
        ChangeAction::Download { dest, .. } => assert_eq!(dest, "a.txt"),
        other => panic!("expected a download, got {:?}", other),
    }
}

#[test]
fn removal_deletes_whichever_form_exists() {
    let c = change(ChangeKind::Removed, "a.txt", None);
    let local = vec![disabled("a.txt", "-a.txt", "h1")];
    match plan_change(&c, &local) {
        ChangeAction::Delete { target } => assert_eq!(target, "-a.txt"),
        other => panic!("expected a delete, got {:?}", other),
    }
    let absent: Vec<LocalRecord> = vec![];
    assert!(matches!(plan_change(&c, &absent), ChangeAction::NoOp));
}

#[test]
fn unknown_kinds_are_counted_as_skipped() {
    let c = change(ChangeKind::Other, "a.txt", None);
    let local: Vec<LocalRecord> = vec![];
    assert!(matches!(plan_change(&c, &local), ChangeAction::Skipped));
}

#[test]
fn changes_outside_the_subtree_or_excluded_are_dropped() {
    let changes = vec![
        change(ChangeKind::Added, "README.md", None),
        change(ChangeKind::Added, "textures/SLUS-21214/user-customs/x.png", None),
        change(ChangeKind::Added, "textures/SLUS-21214/ok.png", None),
    ];
    let local: Vec<LocalRecord> = vec![];
    let actions = plan_incremental(&changes, false, &local, PREFIX).unwrap();
    assert_eq!(actions.len(), 1);
    match &actions[0] {
        ChangeAction::Download { dest, .. } => assert_eq!(dest, "ok.png"),
        other => panic!("expected a download, got {:?}", other),
    }
}

#[test]
fn counters_account_for_every_action_once() {
    let actions = vec![
        ChangeAction::Download {
            path: "a".to_string(),
            dest: "a".to_string(),
        },
        ChangeAction::Delete {
            target: "b".to_string(),
        },
        ChangeAction::Rename {
            from: "c".to_string(),
            to: "d".to_string(),
        },
        ChangeAction::Skipped,
        ChangeAction::NoOp,
        ChangeAction::Download {
            path: "e".to_string(),
            dest: "-e".to_string(),
        },
    ];
    let result = count_actions(&actions, "sha123".to_string());
    assert_eq!(result.files_downloaded, 2);
    assert_eq!(result.files_deleted, 1);
    assert_eq!(result.files_renamed, 1);
    assert_eq!(result.files_skipped, 1);
    assert_eq!(result.new_commit_sha, "sha123");
}
