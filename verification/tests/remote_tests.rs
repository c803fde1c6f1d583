use mirror_sync::remote::{
    classify_tree_entry, find_subtree_entry, ManifestAccumulator, TreeEntry, TreeEntryKind,
};

fn blob(path: &str, sha: &str) -> TreeEntry {
    TreeEntry {
        path: path.to_string(),
        kind: TreeEntryKind::Blob,
        sha: sha.to_string(),
    }
}

fn tree(path: &str, sha: &str) -> TreeEntry {
    TreeEntry {
        path: path.to_string(),
        kind: TreeEntryKind::Tree,
        sha: sha.to_string(),
    }
}

#[test]
fn entry_types_classify_and_unknown_is_other() {
    assert_eq!(classify_tree_entry("blob"), TreeEntryKind::Blob);
    assert_eq!(classify_tree_entry("tree"), TreeEntryKind::Tree);
    assert_eq!(classify_tree_entry("commit"), TreeEntryKind::Other);
}

#[test]
fn subtree_walk_finds_the_named_child_tree() {
    let listing = vec![
        blob("textures", "b1"),
        tree("textures", "t1"),
        tree("docs", "t2"),
    ];
    assert_eq!(find_subtree_entry(&listing, "textures"), Some("t1".to_string()));
    assert_eq!(find_subtree_entry(&listing, "docs"), Some("t2".to_string()));
    assert_eq!(find_subtree_entry(&listing, "missing"), None);
}

#[test]
fn complete_recursive_listing_contributes_all_blobs() {
    let mut acc = ManifestAccumulator::new("root".to_string());
    let req = acc.next_request().unwrap();
    assert_eq!(req.sha, "root");
    assert!(req.recursive);
    let listing = vec![
        blob("a.png", "h1"),
        tree("sub", "t1"),
        blob("sub/b.png", "h2"),
    ];
    acc.supply_listing(&req, false, &listing);
    assert!(acc.next_request().is_none());
    assert_eq!(acc.entries.len(), 2);
    assert_eq!(acc.entries[0].path, "a.png");
    assert_eq!(acc.entries[0].hash, "h1");
    assert_eq!(acc.entries[1].path, "sub/b.png");
    assert_eq!(acc.entries[1].hash, "h2");
}

#[test]
fn truncated_listing_is_rewalked_one_child_at_a_time() {
    let mut acc = ManifestAccumulator::new("root".to_string());
    let req = acc.next_request().unwrap();

    // The recursive listing is truncated: nothing of it is trusted.
    acc.supply_listing(&req, true, &vec![blob("partial.png", "h0")]);
    assert!(acc.entries.is_empty());

    // The same tree is re-listed flat: blobs at this level are taken and
    // each child subtree is queued for its own recursive listing.
    let flat = acc.next_request().unwrap();
    assert_eq!(flat.sha, "root");
    assert!(!flat.recursive);
    acc.supply_listing(&flat, false, &vec![blob("top.png", "h1"), tree("sub", "t1")]);
    assert_eq!(acc.entries.len(), 1);
    assert_eq!(acc.entries[0].path, "top.png");

    let child = acc.next_request().unwrap();
    assert_eq!(child.sha, "t1");
    assert_eq!(child.base_path, "sub");
    assert!(child.recursive);
    acc.supply_listing(&child, false, &vec![blob("deep.png", "h2")]);
    assert!(acc.next_request().is_none());
    assert_eq!(acc.entries.len(), 2);
    assert_eq!(acc.entries[1].path, "sub/deep.png");
    assert_eq!(acc.entries[1].hash, "h2");
}

#[test]
fn truncation_handling_repeats_at_deeper_levels() {
    let mut acc = ManifestAccumulator::new("root".to_string());
    let req = acc.next_request().unwrap();
    acc.supply_listing(&req, true, &vec![]);
    let flat = acc.next_request().unwrap();
    acc.supply_listing(&flat, false, &vec![tree("sub", "t1")]);
    let child = acc.next_request().unwrap();
    // The child's recursive listing is truncated in turn.
    acc.supply_listing(&child, true, &vec![]);
    let child_flat = acc.next_request().unwrap();
    assert_eq!(child_flat.sha, "t1");
    assert_eq!(child_flat.base_path, "sub");
    assert!(!child_flat.recursive);
    acc.supply_listing(&child_flat, false, &vec![blob("x.png", "h1")]);
    assert!(acc.next_request().is_none());
    assert_eq!(acc.entries.len(), 1);
    assert_eq!(acc.entries[0].path, "sub/x.png");
}
