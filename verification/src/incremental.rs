//! Incremental reconciliation: classify the change records of a
//! revision-range comparison, refuse a truncated change set, filter the
//! changes to the tracked subtree, and turn each change into one mirror
//! action that preserves the local overlay state.

use vstd::prelude::*;

use crate::model::{lookup_local, rec_views, LocalRecord, RecV, SyncError, SyncResult};
use crate::paths::{disabled_path_spec, get_disabled_path, should_skip_path, should_skip_spec, str_eq};
use crate::scanner::find_local_file;

verus! {

/// The classification of one remote change.
#[derive(Clone, Copy, PartialEq, Eq, Structural, Debug)]
pub enum ChangeKind {
    Added,
    Modified,
    Removed,
    Renamed,
    /// An unrecognized status: counted as skipped, never silently dropped.
    Other,
}

/// One classified change between two remote revisions.
pub struct Change {
    pub kind: ChangeKind,
    pub path: String,
    pub previous_path: Option<String>,
}

/// Spec-level change.
pub ghost struct ChangeV {
    pub kind: ChangeKind,
    pub path: Seq<char>,
    pub previous_path: Option<Seq<char>>,
}

impl View for Change {
    type V = ChangeV;

    open spec fn view(&self) -> ChangeV {
        ChangeV {
            kind: self.kind,
            path: self.path@,
            previous_path: match self.previous_path {
                Some(ref p) => Some(p@),
                None => None,
            },
        }
    }
}

pub open spec fn change_views(cs: Seq<Change>) -> Seq<ChangeV> {
    cs.map_values(|c: Change| c@)
}

/// How a remote status string maps to a change kind; anything
/// unrecognized is a no-op classification.
pub open spec fn classify_spec(s: Seq<char>) -> ChangeKind {
    if s == "added"@ {
        ChangeKind::Added
    } else if s == "modified"@ {
        ChangeKind::Modified
    } else if s == "removed"@ {
        ChangeKind::Removed
    } else if s == "renamed"@ {
        ChangeKind::Renamed
    } else {
        ChangeKind::Other
    }
}

/// Classify one remote status string.
pub fn classify_status(status: &str) -> (r: ChangeKind)
    ensures
        r == classify_spec(status@),
{
    if str_eq(status, "added") {
        ChangeKind::Added
    } else if str_eq(status, "modified") {
        ChangeKind::Modified
    } else if str_eq(status, "removed") {
        ChangeKind::Removed
    } else if str_eq(status, "renamed") {
        ChangeKind::Renamed
    } else {
        ChangeKind::Other
    }
}

/// One raw record of the remote revision-range comparison, as decoded.
pub struct RawChange {
    pub filename: String,
    pub status: String,
    pub previous_filename: Option<String>,
}

/// The remote comparison endpoint is bounded at this many file entries;
/// a result that reaches the bound cannot be trusted as complete.
pub const COMPARE_FILE_LIMIT: usize = 300;

/// Classify a raw change list and flag it as truncated when it reaches
/// the comparison endpoint's file bound.
pub fn change_set_from(raw: &Vec<RawChange>) -> (r: (Vec<Change>, bool))
    ensures
        r.0@.len() == raw@.len(),
        forall|i: int|
            0 <= i < raw@.len() ==> {
                let c = (#[trigger] r.0@[i])@;
                c.kind == classify_spec(raw@[i].status@) && c.path == raw@[i].filename@ && (
                match raw@[i].previous_filename {
                    Some(ref p) => c.previous_path == Some(p@),
                    None => c.previous_path is None,
                })
            },
        r.1 == (raw@.len() >= COMPARE_FILE_LIMIT),
{
    let mut changes: Vec<Change> = Vec::new();
    let n = raw.len();
    let mut i: usize = 0;
    while i < n
        invariant
            n == raw@.len(),
            i <= n,
            changes@.len() == i,
            forall|k: int|
                0 <= k < i ==> {
                    let c = (#[trigger] changes@[k])@;
                    c.kind == classify_spec(raw@[k].status@) && c.path == raw@[k].filename@ && (
                    match raw@[k].previous_filename {
                        Some(ref p) => c.previous_path == Some(p@),
                        None => c.previous_path is None,
                    })
                },
        decreases n - i,
    {
        let rc = &raw[i];
        let kind = classify_status(rc.status.as_str());
        let previous_path = match &rc.previous_filename {
            Some(p) => Some(p.clone()),
            None => None,
        };
        let ghost prev = changes@;
        changes.push(Change { kind, path: rc.filename.clone(), previous_path });
        proof {
            assert(forall|k: int| 0 <= k < i ==> #[trigger] changes@[k] == prev[k]);
        }
        i += 1;
    }
    let truncated = n >= COMPARE_FILE_LIMIT;
    (changes, truncated)
}

/// A path sits under the prefix.
pub open spec fn starts_with_spec(s: Seq<char>, pre: Seq<char>) -> bool {
    pre.len() <= s.len() && s.subrange(0, pre.len() as int) == pre
}

/// Check a prefix character by character.
pub fn starts_with_prefix(s: &str, pre: &str) -> (r: bool)
    ensures
        r == starts_with_spec(s@, pre@),
{
    let m = pre.unicode_len();
    if m > s.unicode_len() {
        return false;
    }
    let mut i: usize = 0;
    while i < m
        invariant
            m == pre@.len(),
            m <= s@.len(),
            i <= m,
            forall|j: int| 0 <= j < i ==> s@[j] == pre@[j],
        decreases m - i,
    {
        if s.get_char(i) != pre.get_char(i) {
            proof {
                assert(s@.subrange(0, pre@.len() as int)[i as int] != pre@[i as int]);
            }
            return false;
        }
        i += 1;
    }
    proof {
        assert(s@.subrange(0, pre@.len() as int) =~= pre@);
    }
    true
}

/// What filtering does with one change: keep it with the prefix stripped
/// when its path is under the tracked subtree and not excluded; a rename's
/// previous path survives only when it is under the subtree too.
pub open spec fn filter_decision(c: ChangeV, pre: Seq<char>) -> Option<ChangeV> {
    if starts_with_spec(c.path, pre) && !should_skip_spec(c.path) {
        Some(
            ChangeV {
                kind: c.kind,
                path: c.path.skip(pre.len() as int),
                previous_path: match c.previous_path {
                    Some(pp) => if starts_with_spec(pp, pre) {
                        Some(pp.skip(pre.len() as int))
                    } else {
                        None
                    },
                    None => None,
                },
            },
        )
    } else {
        None
    }
}

/// The changes relevant to the tracked subtree, in order, prefix stripped.
pub open spec fn filtered_changes(cs: Seq<ChangeV>, pre: Seq<char>) -> Seq<ChangeV>
    decreases cs.len(),
{
    if cs.len() == 0 {
        Seq::empty()
    } else {
        match filter_decision(cs[0], pre) {
            Some(c) => seq![c] + filtered_changes(cs.drop_first(), pre),
            None => filtered_changes(cs.drop_first(), pre),
        }
    }
}

/// Keep the changes under the tracked subtree, stripping the prefix.
pub fn filter_changes(changes: &Vec<Change>, prefix: &str) -> (r: Vec<Change>)
    ensures
        change_views(r@) == filtered_changes(change_views(changes@), prefix@),
{
    let ghost cv = change_views(changes@);
    let mut kept: Vec<Change> = Vec::new();
    let n = changes.len();
    let mut i: usize = 0;
    proof {
        assert(cv.skip(0) =~= cv);
        assert(change_views(kept@) + filtered_changes(cv, prefix@) =~= filtered_changes(
            cv,
            prefix@,
        ));
    }
    while i < n
        invariant
            n == changes@.len(),
            i <= n,
            cv == change_views(changes@),
            filtered_changes(cv, prefix@) == change_views(kept@) + filtered_changes(
                cv.skip(i as int),
                prefix@,
            ),
        decreases n - i,
    {
        proof {
            assert(cv.skip(i as int)[0] == cv[i as int]);
            assert(cv.skip(i as int).drop_first() =~= cv.skip(i + 1));
        }
        let ghost prev = change_views(kept@);
        let c = &changes[i];
        let pre_len = prefix.unicode_len();
        if starts_with_prefix(c.path.as_str(), prefix) && !should_skip_path(c.path.as_str()) {
            let stripped = c.path.as_str().substring_char(pre_len, c.path.as_str().unicode_len());
            let previous_path = match &c.previous_path {
                Some(pp) => {
                    if starts_with_prefix(pp.as_str(), prefix) {
                        Some(
                            String::from_str(
                                pp.as_str().substring_char(pre_len, pp.as_str().unicode_len()),
                            ),
                        )
                    } else {
                        None
                    }
                },
                None => None,
            };
            kept.push(
                Change { kind: c.kind, path: String::from_str(stripped), previous_path },
            );
            proof {
                assert(cv[i as int].path.skip(prefix@.len() as int) == stripped@);
                assert(change_views(kept@) =~= prev + seq![filter_decision(
                    cv[i as int],
                    prefix@,
                ).unwrap()]);
                assert(prev + (seq![filter_decision(cv[i as int], prefix@).unwrap()]
                    + filtered_changes(cv.skip(i + 1), prefix@)) =~= change_views(kept@)
                    + filtered_changes(cv.skip(i + 1), prefix@));
            }
        }
        i += 1;
    }
    proof {
        assert(cv.skip(n as int) =~= Seq::<ChangeV>::empty());
        assert(change_views(kept@) + Seq::<ChangeV>::empty() =~= change_views(kept@));
    }
    kept
}

/// One mirror action an incremental change produces. Paths are actual
/// relative paths under the mirror root.
#[derive(Debug)]
pub enum ChangeAction {
    /// Fetch the canonical path's content and write it at the destination.
    Download { path: String, dest: String },
    /// Remove the file, then try to remove its now-possibly-empty parent.
    Delete { target: String },
    /// Move the file, then try to remove the old parent directory.
    Rename { from: String, to: String },
    /// An unrecognized change kind: counted, no side effects.
    Skipped,
    /// Nothing to do (the change does not touch the mirror).
    NoOp,
}

/// Spec-level change action.
pub ghost enum ActionV {
    Download { path: Seq<char>, dest: Seq<char> },
    Delete { target: Seq<char> },
    Rename { from: Seq<char>, to: Seq<char> },
    Skipped,
    NoOp,
}

impl View for ChangeAction {
    type V = ActionV;

    open spec fn view(&self) -> ActionV {
        match self {
            ChangeAction::Download { path, dest } => ActionV::Download {
                path: path@,
                dest: dest@,
            },
            ChangeAction::Delete { target } => ActionV::Delete { target: target@ },
            ChangeAction::Rename { from, to } => ActionV::Rename { from: from@, to: to@ },
            ChangeAction::Skipped => ActionV::Skipped,
            ChangeAction::NoOp => ActionV::NoOp,
        }
    }
}

pub open spec fn action_views(a: Seq<ChangeAction>) -> Seq<ActionV> {
    a.map_values(|x: ChangeAction| x@)
}

/// The action one filtered change produces, given the local records: an
/// addition or modification lands in the overlay state the path already
/// has locally; a removal deletes whichever form exists; a rename moves
/// the existing form, keeping its overlay state, and is otherwise an
/// addition of the new path in the enabled form — whether the previous
/// path is simply not present locally or lies outside the tracked subtree
/// (filtering then strips it, see `filter_decision`).
pub open spec fn change_action_spec(c: ChangeV, l: Seq<RecV>) -> ActionV {
    match c.kind {
        ChangeKind::Added | ChangeKind::Modified => match lookup_local(l, c.path) {
            Some(r) => if r.disabled {
                ActionV::Download { path: c.path, dest: disabled_path_spec(c.path) }
            } else {
                ActionV::Download { path: c.path, dest: c.path }
            },
            None => ActionV::Download { path: c.path, dest: c.path },
        },
        ChangeKind::Removed => match lookup_local(l, c.path) {
            Some(r) => ActionV::Delete { target: r.actual },
            None => ActionV::NoOp,
        },
        ChangeKind::Renamed => match c.previous_path {
            Some(old) => match lookup_local(l, old) {
                Some(r) => ActionV::Rename {
                    from: r.actual,
                    to: if r.disabled {
                        disabled_path_spec(c.path)
                    } else {
                        c.path
                    },
                },
                None => ActionV::Download { path: c.path, dest: c.path },
            },
            None => ActionV::Download { path: c.path, dest: c.path },
        },
        ChangeKind::Other => ActionV::Skipped,
    }
}

/// Turn one filtered change into its mirror action.
pub fn plan_change(change: &Change, local: &Vec<LocalRecord>) -> (a: ChangeAction)
    ensures
        a@ == change_action_spec(change@, rec_views(local@)),
{
    match change.kind {
        ChangeKind::Added | ChangeKind::Modified => {
            match find_local_file(local, change.path.as_str()) {
                Some(rec) => {
                    if rec.disabled {
                        ChangeAction::Download {
                            path: change.path.clone(),
                            dest: get_disabled_path(change.path.as_str()),
                        }
                    } else {
                        ChangeAction::Download {
                            path: change.path.clone(),
                            dest: change.path.clone(),
                        }
                    }
                },
                None => ChangeAction::Download {
                    path: change.path.clone(),
                    dest: change.path.clone(),
                },
            }
        },
        ChangeKind::Removed => {
            match find_local_file(local, change.path.as_str()) {
                Some(rec) => ChangeAction::Delete { target: rec.actual_path.clone() },
                None => ChangeAction::NoOp,
            }
        },
        ChangeKind::Renamed => {
            match &change.previous_path {
                Some(old) => {
                    match find_local_file(local, old.as_str()) {
                        Some(rec) => {
                            let to = if rec.disabled {
                                get_disabled_path(change.path.as_str())
                            } else {
                                change.path.clone()
                            };
                            ChangeAction::Rename { from: rec.actual_path.clone(), to }
                        },
                        None => ChangeAction::Download {
                            path: change.path.clone(),
                            dest: change.path.clone(),
                        },
                    }
                },
                None => ChangeAction::Download {
                    path: change.path.clone(),
                    dest: change.path.clone(),
                },
            }
        },
        ChangeKind::Other => ChangeAction::Skipped,
    }
}

/// The planned actions of a change list, in order.
pub open spec fn planned_actions(cs: Seq<ChangeV>, l: Seq<RecV>) -> Seq<ActionV>
    decreases cs.len(),
{
    if cs.len() == 0 {
        Seq::empty()
    } else {
        seq![change_action_spec(cs[0], l)] + planned_actions(cs.drop_first(), l)
    }
}

/// Plan an incremental sync. A truncated change set cannot be trusted as
/// complete and is refused: the caller must fall back to a full sync.
/// Otherwise the changes are filtered to the tracked subtree and each
/// produces its action against the local records.
pub fn plan_incremental(
    changes: &Vec<Change>,
    truncated: bool,
    local: &Vec<LocalRecord>,
    prefix: &str,
) -> (r: Result<Vec<ChangeAction>, SyncError>)
    ensures
        truncated <==> (r is Err),
        r is Err ==> r.unwrap_err() == SyncError::Truncated,
        r is Ok ==> action_views(r.unwrap()@) == planned_actions(
            filtered_changes(change_views(changes@), prefix@),
            rec_views(local@),
        ),
{
    if truncated {
        return Err(SyncError::Truncated);
    }
    let relevant = filter_changes(changes, prefix);
    let ghost fc = filtered_changes(change_views(changes@), prefix@);
    let ghost l = rec_views(local@);
    let mut actions: Vec<ChangeAction> = Vec::new();
    let n = relevant.len();
    let mut i: usize = 0;
    proof {
        assert(fc.skip(0) =~= fc);
        assert(action_views(actions@) + planned_actions(fc, l) =~= planned_actions(fc, l));
    }
    while i < n
        invariant
            n == relevant@.len(),
            fc == change_views(relevant@),
            l == rec_views(local@),
            i <= n,
            planned_actions(fc, l) == action_views(actions@) + planned_actions(
                fc.skip(i as int),
                l,
            ),
        decreases n - i,
    {
        proof {
            assert(fc.skip(i as int)[0] == fc[i as int]);
            assert(fc.skip(i as int).drop_first() =~= fc.skip(i + 1));
        }
        let ghost prev = action_views(actions@);
        let a = plan_change(&relevant[i], local);
        actions.push(a);
        proof {
            assert(action_views(actions@) =~= prev + seq![change_action_spec(fc[i as int], l)]);
            assert(prev + (seq![change_action_spec(fc[i as int], l)] + planned_actions(
                fc.skip(i + 1),
                l,
            )) =~= action_views(actions@) + planned_actions(fc.skip(i + 1), l));
        }
        i += 1;
    }
    proof {
        assert(fc.skip(n as int) =~= Seq::<ChangeV>::empty());
        assert(action_views(actions@) + Seq::<ActionV>::empty() =~= action_views(actions@));
    }
    Ok(actions)
}

/// How many of each counter a list of actions accounts for.
pub open spec fn counted(a: Seq<ActionV>, which: ActionKindSel) -> int
    decreases a.len(),
{
    if a.len() == 0 {
        0
    } else {
        (if action_counts_as(a[0], which) {
            1int
        } else {
            0int
        }) + counted(a.drop_first(), which)
    }
}

/// Which counter of the sync result an action belongs to.
#[derive(Clone, Copy, PartialEq, Eq, Structural, Debug)]
pub enum ActionKindSel {
    Downloaded,
    Deleted,
    Renamed,
    Skipped,
}

pub open spec fn action_counts_as(a: ActionV, which: ActionKindSel) -> bool {
    match which {
        ActionKindSel::Downloaded => a is Download,
        ActionKindSel::Deleted => a is Delete,
        ActionKindSel::Renamed => a is Rename,
        ActionKindSel::Skipped => a is Skipped,
    }
}

/// Summarize applied actions: each download, delete, rename and skip is
/// counted once; a no-op counts nowhere.
pub fn count_actions(actions: &Vec<ChangeAction>, new_commit_sha: String) -> (r: SyncResult)
    requires
        actions@.len() <= u32::MAX,
    ensures
        r.files_downloaded == counted(action_views(actions@), ActionKindSel::Downloaded),
        r.files_deleted == counted(action_views(actions@), ActionKindSel::Deleted),
        r.files_renamed == counted(action_views(actions@), ActionKindSel::Renamed),
        r.files_skipped == counted(action_views(actions@), ActionKindSel::Skipped),
        r.new_commit_sha@ == new_commit_sha@,
{
    let ghost av = action_views(actions@);
    let mut downloaded: u32 = 0;
    let mut deleted: u32 = 0;
    let mut renamed: u32 = 0;
    let mut skipped: u32 = 0;
    let n = actions.len();
    let mut i: usize = 0;
    proof {
        assert(av.skip(0) =~= av);
        lemma_counted_bounds(av, ActionKindSel::Downloaded);
        lemma_counted_bounds(av, ActionKindSel::Deleted);
        lemma_counted_bounds(av, ActionKindSel::Renamed);
        lemma_counted_bounds(av, ActionKindSel::Skipped);
    }
    while i < n
        invariant
            n == actions@.len(),
            n <= u32::MAX,
            i <= n,
            downloaded <= i && deleted <= i && renamed <= i && skipped <= i,
            av == action_views(actions@),
            downloaded == counted(av, ActionKindSel::Downloaded) - counted(
                av.skip(i as int),
                ActionKindSel::Downloaded,
            ),
            deleted == counted(av, ActionKindSel::Deleted) - counted(
                av.skip(i as int),
                ActionKindSel::Deleted,
            ),
            renamed == counted(av, ActionKindSel::Renamed) - counted(
                av.skip(i as int),
                ActionKindSel::Renamed,
            ),
            skipped == counted(av, ActionKindSel::Skipped) - counted(
                av.skip(i as int),
                ActionKindSel::Skipped,
            ),
        decreases n - i,
    {
        proof {
            assert(av.skip(i as int)[0] == av[i as int]);
            assert(av.skip(i as int).drop_first() =~= av.skip(i + 1));
            lemma_counted_bounds(av, ActionKindSel::Downloaded);
            lemma_counted_bounds(av.skip(i as int), ActionKindSel::Downloaded);
            lemma_counted_bounds(av.skip(i + 1), ActionKindSel::Downloaded);
            lemma_counted_bounds(av.skip(i as int), ActionKindSel::Deleted);
            lemma_counted_bounds(av.skip(i + 1), ActionKindSel::Deleted);
            lemma_counted_bounds(av.skip(i as int), ActionKindSel::Renamed);
            lemma_counted_bounds(av.skip(i + 1), ActionKindSel::Renamed);
            lemma_counted_bounds(av.skip(i as int), ActionKindSel::Skipped);
            lemma_counted_bounds(av.skip(i + 1), ActionKindSel::Skipped);
            lemma_counted_prefix(av, i as int);
        }
        match &actions[i] {
            ChangeAction::Download { .. } => {
                downloaded += 1;
            },
            ChangeAction::Delete { .. } => {
                deleted += 1;
            },
            ChangeAction::Rename { .. } => {
                renamed += 1;
            },
            ChangeAction::Skipped => {
                skipped += 1;
            },
            ChangeAction::NoOp => {},
        }
        i += 1;
    }
    proof {
        assert(av.skip(n as int) =~= Seq::<ActionV>::empty());
    }
    SyncResult {
        files_downloaded: downloaded,
        files_deleted: deleted,
        files_renamed: renamed,
        files_skipped: skipped,
        new_commit_sha,
    }
}

/// A count is never negative and never exceeds the list length.
pub proof fn lemma_counted_bounds(a: Seq<ActionV>, which: ActionKindSel)
    ensures
        0 <= counted(a, which) <= a.len(),
    decreases a.len(),
{
    if a.len() == 0 {
    } else {
        lemma_counted_bounds(a.drop_first(), which);
    }
}

/// Counting a suffix never counts more than the whole.
pub proof fn lemma_counted_prefix(a: Seq<ActionV>, i: int)
    requires
        0 <= i <= a.len(),
    ensures
        forall|w: ActionKindSel| #[trigger] counted(a.skip(i), w) <= counted(a, w),
    decreases i,
{
    if i == 0 {
        assert(a.skip(0) =~= a);
    } else if a.len() == 0 {
    } else {
        lemma_counted_prefix(a.drop_first(), i - 1);
        assert(a.drop_first().skip(i - 1) =~= a.skip(i));
        assert(forall|w: ActionKindSel| #[trigger] counted(a.drop_first(), w) <= counted(a, w));
    }
}

} // verus!
