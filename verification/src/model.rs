//! Data model of a sync operation: manifest entries, local mirror records,
//! plans, results and the error classification that drives the fallback
//! from incremental to full sync.

use vstd::prelude::*;

use crate::paths::{base_part, disabled_path_spec, is_disabled_name};

verus! {

/// One entry of the remote manifest: a canonical relative path and the
/// remote content hash of the blob stored there.
pub struct ManifestEntry {
    pub path: String,
    pub hash: String,
}

/// Spec-level manifest entry.
pub ghost struct EntryV {
    pub path: Seq<char>,
    pub hash: Seq<char>,
}

impl View for ManifestEntry {
    type V = EntryV;

    open spec fn view(&self) -> EntryV {
        EntryV { path: self.path@, hash: self.hash@ }
    }
}

/// One file of the local mirror. `actual_path` differs from
/// `canonical_path` exactly when the record is disabled, through the
/// overlay transform.
pub struct LocalRecord {
    pub canonical_path: String,
    pub actual_path: String,
    pub hash: String,
    pub disabled: bool,
}

/// Spec-level local record.
pub ghost struct RecV {
    pub canonical: Seq<char>,
    pub actual: Seq<char>,
    pub hash: Seq<char>,
    pub disabled: bool,
}

impl View for LocalRecord {
    type V = RecV;

    open spec fn view(&self) -> RecV {
        RecV {
            canonical: self.canonical_path@,
            actual: self.actual_path@,
            hash: self.hash@,
            disabled: self.disabled,
        }
    }
}

/// Well-formedness of a local record: the actual path is the canonical
/// path, transformed when disabled; an enabled record's basename never
/// carries the disable marker (the scanner reads such a name as disabled).
pub open spec fn rec_wf(r: RecV) -> bool {
    &&& r.disabled ==> r.actual == disabled_path_spec(r.canonical)
    &&& !r.disabled ==> r.actual == r.canonical && !is_disabled_name(base_part(r.canonical))
}

/// Views of a manifest, in order.
pub open spec fn entry_views(m: Seq<ManifestEntry>) -> Seq<EntryV> {
    m.map_values(|e: ManifestEntry| e@)
}

/// Views of a local file list, in order.
pub open spec fn rec_views(l: Seq<LocalRecord>) -> Seq<RecV> {
    l.map_values(|r: LocalRecord| r@)
}

/// First manifest entry with the given path, if any.
pub open spec fn lookup_manifest(m: Seq<EntryV>, p: Seq<char>) -> Option<EntryV>
    decreases m.len(),
{
    if m.len() == 0 {
        None
    } else if m[0].path == p {
        Some(m[0])
    } else {
        lookup_manifest(m.drop_first(), p)
    }
}

/// The canonical paths a local file list holds.
pub open spec fn canon_set(l: Seq<RecV>) -> Set<Seq<char>> {
    l.map_values(|r: RecV| r.canonical).to_set()
}

/// Appending one record adds exactly its canonical path to the key set.
pub proof fn lemma_canon_set_push(l: Seq<RecV>, r: RecV)
    ensures
        canon_set(l.push(r)) == canon_set(l).insert(r.canonical),
{
    let a = l.push(r).map_values(|x: RecV| x.canonical);
    let b = l.map_values(|x: RecV| x.canonical);
    assert(a =~= b.push(r.canonical));
    assert forall|x: Seq<char>| #[trigger] canon_set(l.push(r)).contains(x) implies canon_set(
        l,
    ).insert(r.canonical).contains(x) by {
        let i = choose|i: int| 0 <= i < a.len() && a[i] == x;
        if i < b.len() {
            assert(b[i] == x);
        }
    }
    assert forall|x: Seq<char>| #[trigger] canon_set(l).insert(r.canonical).contains(x) implies
        canon_set(l.push(r)).contains(x) by {
        if x == r.canonical {
            assert(a[a.len() - 1] == x);
        } else {
            let i = choose|i: int| 0 <= i < b.len() && b[i] == x;
            assert(a[i] == x);
        }
    }
    assert(canon_set(l.push(r)) =~= canon_set(l).insert(r.canonical));
}

/// First local record with the given canonical path, if any.
pub open spec fn lookup_local(l: Seq<RecV>, p: Seq<char>) -> Option<RecV>
    decreases l.len(),
{
    if l.len() == 0 {
        None
    } else if l[0].canonical == p {
        Some(l[0])
    } else {
        lookup_local(l.drop_first(), p)
    }
}

/// One planned download: the canonical path to fetch and whether it lands
/// in the disabled overlay form.
pub struct DownloadItem {
    pub path: String,
    pub disabled: bool,
}

/// Spec-level download item.
pub ghost struct DownloadV {
    pub path: Seq<char>,
    pub disabled: bool,
}

impl View for DownloadItem {
    type V = DownloadV;

    open spec fn view(&self) -> DownloadV {
        DownloadV { path: self.path@, disabled: self.disabled }
    }
}

pub open spec fn download_views(d: Seq<DownloadItem>) -> Seq<DownloadV> {
    d.map_values(|x: DownloadItem| x@)
}

pub open spec fn string_views(d: Seq<String>) -> Seq<Seq<char>> {
    d.map_values(|x: String| x@)
}

/// The minimal work of a full sync: what to download and which actual
/// paths to delete.
pub struct SyncPlan {
    pub downloads: Vec<DownloadItem>,
    pub deletes: Vec<String>,
}

/// Sync result summary.
pub struct SyncResult {
    pub files_downloaded: u32,
    pub files_deleted: u32,
    pub files_renamed: u32,
    pub files_skipped: u32,
    pub new_commit_sha: String,
}

/// File that needs to be downloaded during verification.
pub struct VerificationFile {
    pub path: String,
    pub to_disabled: bool,
}

/// Spec-level verification download entry.
pub ghost struct VerificationFileV {
    pub path: Seq<char>,
    pub to_disabled: bool,
}

impl View for VerificationFile {
    type V = VerificationFileV;

    open spec fn view(&self) -> VerificationFileV {
        VerificationFileV { path: self.path@, to_disabled: self.to_disabled }
    }
}

pub open spec fn verification_file_views(d: Seq<VerificationFile>) -> Seq<VerificationFileV> {
    d.map_values(|x: VerificationFile| x@)
}

/// Verification scan result (discrepancies found).
pub struct VerificationResult {
    pub files_to_download: Vec<VerificationFile>,
    pub files_to_delete: Vec<String>,
    pub has_discrepancies: bool,
}

/// Outcome of a sync-status query.
pub struct SyncStatusResult {
    pub latest_commit_sha: String,
    pub latest_commit_date: String,
    pub last_sync_commit: Option<String>,
    pub has_changes: bool,
}

/// Progress payload for sync events.
pub struct SyncProgressPayload {
    pub stage: String,
    pub message: String,
    pub current: Option<u32>,
    pub total: Option<u32>,
}

/// Progress payload for installation events.
pub struct ProgressPayload {
    pub stage: String,
    pub message: String,
    pub percent: Option<u32>,
}

/// Installer data published by the mod repository.
pub struct InstallerData {
    pub min_downloader_app_version: String,
    pub total_size: String,
}

/// Result of fetching installer data.
pub struct InstallerDataResult {
    pub data: Option<InstallerData>,
    pub error: Option<String>,
}

/// The error classification of a sync operation.
#[derive(Clone, Copy, PartialEq, Eq, Structural, Debug)]
pub enum SyncError {
    /// Transport or HTTP failure.
    Network,
    /// A referenced revision or path is absent remotely.
    NotFound,
    /// A change set too large to trust as complete.
    Truncated,
    /// A local read, write, rename or delete failed.
    Filesystem,
    /// The expected local mirror root is missing.
    MirrorNotFound,
}

/// Incremental-mode failures that are recovered by retrying the whole
/// operation in full-sync mode: a missing remote reference or an
/// untrustworthy (truncated) change set. Everything else propagates.
pub fn fallback_applies(e: &SyncError) -> (r: bool)
    ensures
        r == (e is NotFound || e is Truncated),
{
    match e {
        SyncError::NotFound => true,
        SyncError::Truncated => true,
        _ => false,
    }
}

/// Decide the sync status against the last known baseline: there is work
/// to do unless the latest remote revision is exactly the baseline.
pub fn sync_status(
    latest_commit_sha: String,
    latest_commit_date: String,
    last_sync_commit: Option<String>,
) -> (r: SyncStatusResult)
    ensures
        r.latest_commit_sha@ == latest_commit_sha@,
        r.latest_commit_date@ == latest_commit_date@,
        r.has_changes == !(last_sync_commit is Some && last_sync_commit.unwrap()@
            == latest_commit_sha@),
        r.last_sync_commit is Some <==> last_sync_commit is Some,
        r.last_sync_commit is Some ==> r.last_sync_commit.unwrap()@
            == last_sync_commit.unwrap()@,
{
    let has_changes = match &last_sync_commit {
        Some(last) => !(*last == latest_commit_sha),
        None => true,
    };
    SyncStatusResult { latest_commit_sha, latest_commit_date, last_sync_commit, has_changes }
}

} // verus!
