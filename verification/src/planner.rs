//! Full-sync reconciliation: compare the complete remote manifest against
//! the local records and compute the minimal download/delete plan. The
//! verification scan applies the identical comparison and only reports.
//!
//! Decision rules, per manifest entry: a matching local hash (in either
//! overlay state) means no action; a differing hash means a download that
//! keeps the record's current overlay state; no local record means a
//! download in the enabled state. Per local record: an actual path with no
//! manifest entry for its canonical path is deleted. Excluded paths take
//! part in neither direction.

use vstd::prelude::*;

use crate::model::{
    download_views, entry_views, lookup_local, lookup_manifest, rec_views, rec_wf, string_views,
    verification_file_views, DownloadItem, DownloadV, EntryV, LocalRecord, ManifestEntry, RecV,
    SyncPlan, VerificationFile, VerificationResult,
};
use crate::paths::{
    base_part, is_disabled_name, lemma_enable_inverts_disable, should_skip_path, should_skip_spec,
    str_eq,
};
use crate::scanner::lemma_lookup_local_some;

verus! {

/// What a full sync does about one manifest entry.
pub open spec fn download_decision(l: Seq<RecV>, e: EntryV) -> Option<DownloadV> {
    if should_skip_spec(e.path) {
        None
    } else {
        match lookup_local(l, e.path) {
            Some(r) => if r.hash == e.hash {
                None
            } else {
                Some(DownloadV { path: e.path, disabled: r.disabled })
            },
            None => Some(DownloadV { path: e.path, disabled: false }),
        }
    }
}

/// The downloads of a full plan, in manifest order.
pub open spec fn planned_downloads(m: Seq<EntryV>, l: Seq<RecV>) -> Seq<DownloadV>
    decreases m.len(),
{
    if m.len() == 0 {
        Seq::empty()
    } else {
        match download_decision(l, m[0]) {
            Some(d) => seq![d] + planned_downloads(m.drop_first(), l),
            None => planned_downloads(m.drop_first(), l),
        }
    }
}

/// What a full sync does about one local record.
pub open spec fn delete_decision(m: Seq<EntryV>, r: RecV) -> Option<Seq<char>> {
    if should_skip_spec(r.actual) {
        None
    } else if lookup_manifest(m, r.canonical) is Some {
        None
    } else {
        Some(r.actual)
    }
}

/// The deletes of a full plan, in local-record order.
pub open spec fn planned_deletes(m: Seq<EntryV>, l: Seq<RecV>) -> Seq<Seq<char>>
    decreases l.len(),
{
    if l.len() == 0 {
        Seq::empty()
    } else {
        match delete_decision(m, l[0]) {
            Some(p) => seq![p] + planned_deletes(m, l.drop_first()),
            None => planned_deletes(m, l.drop_first()),
        }
    }
}

/// First manifest entry with the given path, if any.
fn find_manifest_entry<'a>(manifest: &'a Vec<ManifestEntry>, path: &str) -> (r: Option<
    &'a ManifestEntry,
>)
    ensures
        match r {
            Some(e) => lookup_manifest(entry_views(manifest@), path@) == Some(e@),
            None => lookup_manifest(entry_views(manifest@), path@) is None,
        },
{
    let ghost m = entry_views(manifest@);
    let n = manifest.len();
    let mut i: usize = 0;
    proof {
        assert(m.skip(0) =~= m);
    }
    while i < n
        invariant
            n == manifest@.len(),
            i <= n,
            m == entry_views(manifest@),
            lookup_manifest(m, path@) == lookup_manifest(m.skip(i as int), path@),
        decreases n - i,
    {
        proof {
            assert(m.skip(i as int)[0] == m[i as int]);
            assert(m.skip(i as int).drop_first() =~= m.skip(i + 1));
        }
        if str_eq(manifest[i].path.as_str(), path) {
            return Some(&manifest[i]);
        }
        i += 1;
    }
    proof {
        assert(m.skip(n as int) =~= Seq::<EntryV>::empty());
    }
    None
}

/// Compute the full-sync plan from the remote manifest and the local
/// records: the downloads in manifest order, the deletes in record order,
/// as the decision rules give them.
pub fn plan_full_sync(manifest: &Vec<ManifestEntry>, local: &Vec<LocalRecord>) -> (plan: SyncPlan)
    ensures
        download_views(plan.downloads@) == planned_downloads(
            entry_views(manifest@),
            rec_views(local@),
        ),
        string_views(plan.deletes@) == planned_deletes(entry_views(manifest@), rec_views(local@)),
{
    let ghost m = entry_views(manifest@);
    let ghost l = rec_views(local@);
    let mut downloads: Vec<DownloadItem> = Vec::new();
    let mut deletes: Vec<String> = Vec::new();

    let n = manifest.len();
    let mut i: usize = 0;
    proof {
        assert(m.skip(0) =~= m);
        assert(download_views(downloads@) + planned_downloads(m, l) =~= planned_downloads(m, l));
    }
    while i < n
        invariant
            n == manifest@.len(),
            i <= n,
            m == entry_views(manifest@),
            l == rec_views(local@),
            planned_downloads(m, l) == download_views(downloads@) + planned_downloads(
                m.skip(i as int),
                l,
            ),
        decreases n - i,
    {
        proof {
            assert(m.skip(i as int)[0] == m[i as int]);
            assert(m.skip(i as int).drop_first() =~= m.skip(i + 1));
        }
        let ghost prev = download_views(downloads@);
        let entry = &manifest[i];
        if !should_skip_path(entry.path.as_str()) {
            match crate::scanner::find_local_file(local, entry.path.as_str()) {
                Some(rec) => {
                    if !(rec.hash == entry.hash) {
                        downloads.push(
                            DownloadItem { path: entry.path.clone(), disabled: rec.disabled },
                        );
                        proof {
                            assert(download_views(downloads@) =~= prev + seq![
                                download_decision(l, m[i as int]).unwrap(),
                            ]);
                            assert(prev + (seq![download_decision(l, m[i as int]).unwrap()]
                                + planned_downloads(m.skip(i + 1), l)) =~= download_views(
                                downloads@,
                            ) + planned_downloads(m.skip(i + 1), l));
                        }
                    }
                },
                None => {
                    downloads.push(DownloadItem { path: entry.path.clone(), disabled: false });
                    proof {
                        assert(download_views(downloads@) =~= prev + seq![
                            download_decision(l, m[i as int]).unwrap(),
                        ]);
                        assert(prev + (seq![download_decision(l, m[i as int]).unwrap()]
                            + planned_downloads(m.skip(i + 1), l)) =~= download_views(downloads@)
                            + planned_downloads(m.skip(i + 1), l));
                    }
                },
            }
        }
        i += 1;
    }
    proof {
        assert(m.skip(n as int) =~= Seq::<EntryV>::empty());
        assert(download_views(downloads@) + Seq::<DownloadV>::empty() =~= download_views(
            downloads@,
        ));
    }

    let nl = local.len();
    let mut j: usize = 0;
    proof {
        assert(l.skip(0) =~= l);
        assert(string_views(deletes@) + planned_deletes(m, l) =~= planned_deletes(m, l));
    }
    while j < nl
        invariant
            nl == local@.len(),
            j <= nl,
            m == entry_views(manifest@),
            l == rec_views(local@),
            planned_deletes(m, l) == string_views(deletes@) + planned_deletes(
                m,
                l.skip(j as int),
            ),
        decreases nl - j,
    {
        proof {
            assert(l.skip(j as int)[0] == l[j as int]);
            assert(l.skip(j as int).drop_first() =~= l.skip(j + 1));
        }
        let ghost prev = string_views(deletes@);
        let rec = &local[j];
        if !should_skip_path(rec.actual_path.as_str()) {
            if find_manifest_entry(manifest, rec.canonical_path.as_str()).is_none() {
                deletes.push(rec.actual_path.clone());
                proof {
                    assert(string_views(deletes@) =~= prev + seq![l[j as int].actual]);
                    assert(prev + (seq![l[j as int].actual] + planned_deletes(m, l.skip(j + 1)))
                        =~= string_views(deletes@) + planned_deletes(m, l.skip(j + 1)));
                }
            }
        }
        j += 1;
    }
    proof {
        assert(l.skip(nl as int) =~= Seq::<RecV>::empty());
        assert(string_views(deletes@) + Seq::<Seq<char>>::empty() =~= string_views(deletes@));
    }

    SyncPlan { downloads, deletes }
}

/// Re-diff the mirror against the current remote manifest and report the
/// discrepancies, without applying anything: the identical comparison the
/// planner makes, delivered as a read-only report.
pub fn verify_mirror(manifest: &Vec<ManifestEntry>, local: &Vec<LocalRecord>) -> (r:
    VerificationResult)
    ensures
        verification_file_views(r.files_to_download@).len() == planned_downloads(
            entry_views(manifest@),
            rec_views(local@),
        ).len(),
        forall|i: int|
            0 <= i < r.files_to_download@.len() ==> {
                let d = planned_downloads(entry_views(manifest@), rec_views(local@))[i];
                #[trigger] verification_file_views(r.files_to_download@)[i].path == d.path
                    && verification_file_views(r.files_to_download@)[i].to_disabled == d.disabled
            },
        string_views(r.files_to_delete@) == planned_deletes(
            entry_views(manifest@),
            rec_views(local@),
        ),
        r.has_discrepancies == (planned_downloads(entry_views(manifest@), rec_views(local@)).len()
            > 0 || planned_deletes(entry_views(manifest@), rec_views(local@)).len() > 0),
{
    let plan = plan_full_sync(manifest, local);
    let mut files_to_download: Vec<VerificationFile> = Vec::new();
    let n = plan.downloads.len();
    let mut i: usize = 0;
    while i < n
        invariant
            n == plan.downloads@.len(),
            i <= n,
            files_to_download@.len() == i,
            forall|k: int|
                0 <= k < i ==> {
                    let d = download_views(plan.downloads@)[k];
                    #[trigger] verification_file_views(files_to_download@)[k].path == d.path
                        && verification_file_views(files_to_download@)[k].to_disabled == d.disabled
                },
        decreases n - i,
    {
        let item = &plan.downloads[i];
        let ghost prev = files_to_download@;
        files_to_download.push(
            VerificationFile { path: item.path.clone(), to_disabled: item.disabled },
        );
        proof {
            assert(forall|k: int|
                0 <= k < i ==> #[trigger] verification_file_views(files_to_download@)[k]
                    == verification_file_views(prev)[k]);
            assert(verification_file_views(files_to_download@)[i as int].path == download_views(
                plan.downloads@,
            )[i as int].path && verification_file_views(files_to_download@)[i as int].to_disabled
                == download_views(plan.downloads@)[i as int].disabled);
        }
        i += 1;
    }
    let has_discrepancies = files_to_download.len() > 0 || plan.deletes.len() > 0;
    VerificationResult { files_to_download, files_to_delete: plan.deletes, has_discrepancies }
}


/// The manifest paths are pairwise distinct (one entry per blob).
pub open spec fn unique_paths(m: Seq<EntryV>) -> bool {
    forall|i: int, j: int| 0 <= i < j < m.len() ==> m[i].path != m[j].path
}

/// The local records are keyed uniquely by canonical path.
pub open spec fn unique_canonicals(l: Seq<RecV>) -> bool {
    forall|i: int, j: int| 0 <= i < j < l.len() ==> l[i].canonical != l[j].canonical
}

pub proof fn lemma_unique_paths_drop(m: Seq<EntryV>)
    requires
        unique_paths(m),
        m.len() > 0,
    ensures
        unique_paths(m.drop_first()),
{
    assert forall|a: int, b: int|
        0 <= a < b < m.drop_first().len() implies m.drop_first()[a].path
        != m.drop_first()[b].path by {
        assert(m.drop_first()[a] == m[a + 1]);
        assert(m.drop_first()[b] == m[b + 1]);
    }
}

pub proof fn lemma_unique_canonicals_drop(l: Seq<RecV>)
    requires
        unique_canonicals(l),
        l.len() > 0,
    ensures
        unique_canonicals(l.drop_first()),
{
    assert forall|a: int, b: int|
        0 <= a < b < l.drop_first().len() implies l.drop_first()[a].canonical
        != l.drop_first()[b].canonical by {
        assert(l.drop_first()[a] == l[a + 1]);
        assert(l.drop_first()[b] == l[b + 1]);
    }
}

/// A manifest lookup succeeds exactly when some entry carries the path.
pub proof fn lemma_lookup_manifest_some(m: Seq<EntryV>, p: Seq<char>)
    ensures
        (lookup_manifest(m, p) is Some) <==> (exists|i: int|
            0 <= i < m.len() && #[trigger] m[i].path == p),
    decreases m.len(),
{
    if m.len() == 0 {
    } else if m[0].path == p {
        assert(m[0].path == p);
    } else {
        lemma_lookup_manifest_some(m.drop_first(), p);
        if lookup_manifest(m, p) is Some {
            let i = choose|i: int|
                0 <= i < m.drop_first().len() && #[trigger] m.drop_first()[i].path == p;
            assert(m[i + 1] == m.drop_first()[i]);
            assert(m[i + 1].path == p);
        }
        if exists|i: int| 0 <= i < m.len() && #[trigger] m[i].path == p {
            let i = choose|i: int| 0 <= i < m.len() && #[trigger] m[i].path == p;
            assert(i != 0);
            assert(m.drop_first()[i - 1] == m[i]);
            assert(m.drop_first()[i - 1].path == p);
        }
    }
}

/// With unique paths, looking an entry's own path up gives that entry.
pub proof fn lemma_lookup_manifest_self(m: Seq<EntryV>, i: int)
    requires
        unique_paths(m),
        0 <= i < m.len(),
    ensures
        lookup_manifest(m, m[i].path) == Some(m[i]),
    decreases m.len(),
{
    if i == 0 {
    } else {
        assert(m[0].path != m[i].path);
        lemma_unique_paths_drop(m);
        assert(m.drop_first()[i - 1] == m[i]);
        lemma_lookup_manifest_self(m.drop_first(), i - 1);
    }
}

/// With unique canonical paths, looking a record's own canonical path up
/// gives that record.
pub proof fn lemma_lookup_local_self(l: Seq<RecV>, i: int)
    requires
        unique_canonicals(l),
        0 <= i < l.len(),
    ensures
        lookup_local(l, l[i].canonical) == Some(l[i]),
    decreases l.len(),
{
    if i == 0 {
    } else {
        assert(l[0].canonical != l[i].canonical);
        lemma_unique_canonicals_drop(l);
        assert(l.drop_first()[i - 1] == l[i]);
        lemma_lookup_local_self(l.drop_first(), i - 1);
    }
}

/// A successful local lookup returns a record with the looked-up path.
pub proof fn lemma_lookup_local_hit(l: Seq<RecV>, p: Seq<char>)
    ensures
        lookup_local(l, p) is Some ==> lookup_local(l, p).unwrap().canonical == p,
    decreases l.len(),
{
    if l.len() == 0 {
    } else if l[0].canonical == p {
    } else {
        lemma_lookup_local_hit(l.drop_first(), p);
    }
}

/// A lookup over a concatenation searches the first part first.
pub proof fn lemma_lookup_local_concat(a: Seq<RecV>, b: Seq<RecV>, p: Seq<char>)
    ensures
        lookup_local(a + b, p) == if lookup_local(a, p) is Some {
            lookup_local(a, p)
        } else {
            lookup_local(b, p)
        },
    decreases a.len(),
{
    if a.len() == 0 {
        assert(a + b =~= b);
    } else {
        assert((a + b)[0] == a[0]);
        assert((a + b).drop_first() =~= a.drop_first() + b);
        lemma_lookup_local_concat(a.drop_first(), b, p);
    }
}

/// The record a surviving local file carries once the plan is applied:
/// when its canonical path is in the manifest and not excluded, the
/// content carries the remote hash (downloaded, or already matching).
pub open spec fn updated_record(m: Seq<EntryV>, r: RecV) -> RecV {
    RecV {
        canonical: r.canonical,
        actual: r.actual,
        hash: if should_skip_spec(r.canonical) {
            r.hash
        } else {
            lookup_manifest(m, r.canonical).unwrap().hash
        },
        disabled: r.disabled,
    }
}

/// The local records that survive applying a full plan, in order: records
/// whose canonical path is still in the manifest stay (updated), records
/// with an excluded actual path are never touched, the rest are deleted.
pub open spec fn surviving_records(m: Seq<EntryV>, l: Seq<RecV>) -> Seq<RecV>
    decreases l.len(),
{
    if l.len() == 0 {
        Seq::empty()
    } else if lookup_manifest(m, l[0].canonical) is Some {
        seq![updated_record(m, l[0])] + surviving_records(m, l.drop_first())
    } else if should_skip_spec(l[0].actual) {
        seq![l[0]] + surviving_records(m, l.drop_first())
    } else {
        surviving_records(m, l.drop_first())
    }
}

/// The records the plan's fresh downloads create, in manifest order: one
/// enabled record per manifest entry that had no local record.
pub open spec fn new_records(m: Seq<EntryV>, l: Seq<RecV>) -> Seq<RecV>
    decreases m.len(),
{
    if m.len() == 0 {
        Seq::empty()
    } else if !should_skip_spec(m[0].path) && lookup_local(l, m[0].path) is None {
        seq![RecV { canonical: m[0].path, actual: m[0].path, hash: m[0].hash, disabled: false }]
            + new_records(m.drop_first(), l)
    } else {
        new_records(m.drop_first(), l)
    }
}

/// The local state after a full plan is applied and every download lands
/// with the remote content.
pub open spec fn apply_full_sync(m: Seq<EntryV>, l: Seq<RecV>) -> Seq<RecV> {
    surviving_records(m, l) + new_records(m, l)
}

/// What a lookup finds among the survivors, in terms of the old state.
pub proof fn lemma_lookup_surviving(m: Seq<EntryV>, l: Seq<RecV>, p: Seq<char>)
    requires
        unique_canonicals(l),
    ensures
        match lookup_local(l, p) {
            None => lookup_local(surviving_records(m, l), p) is None,
            Some(r) => lookup_local(surviving_records(m, l), p) == (if lookup_manifest(
                m,
                r.canonical,
            ) is Some {
                Some(updated_record(m, r))
            } else if should_skip_spec(r.actual) {
                Some(r)
            } else {
                None
            }),
        },
    decreases l.len(),
{
    if l.len() == 0 {
    } else {
        let r0 = l[0];
        let rest = l.drop_first();
        lemma_unique_canonicals_drop(l);
        lemma_lookup_surviving(m, rest, p);
        let surv = surviving_records(m, l);
        if r0.canonical == p {
            if lookup_manifest(m, p) is Some {
                assert(surv[0] == updated_record(m, r0));
            } else if should_skip_spec(r0.actual) {
                assert(surv[0] == r0);
            } else {
                lemma_lookup_local_some(rest, p);
                assert forall|a: int| 0 <= a < rest.len() implies #[trigger] rest[a].canonical
                    != p by {
                    assert(rest[a] == l[a + 1]);
                }
            }
        } else {
            if lookup_manifest(m, r0.canonical) is Some {
                assert(surv == seq![updated_record(m, r0)] + surviving_records(m, rest));
                assert(surv.drop_first() =~= surviving_records(m, rest));
            } else if should_skip_spec(r0.actual) {
                assert(surv == seq![r0] + surviving_records(m, rest));
                assert(surv.drop_first() =~= surviving_records(m, rest));
            }
        }
    }
}

/// What a lookup finds among the fresh downloads' records.
pub proof fn lemma_lookup_new_records(m: Seq<EntryV>, l: Seq<RecV>, p: Seq<char>)
    requires
        unique_paths(m),
    ensures
        match lookup_manifest(m, p) {
            None => lookup_local(new_records(m, l), p) is None,
            Some(e) => lookup_local(new_records(m, l), p) == (if !should_skip_spec(p)
                && lookup_local(l, p) is None {
                Some(RecV { canonical: p, actual: p, hash: e.hash, disabled: false })
            } else {
                None
            }),
        },
    decreases m.len(),
{
    if m.len() == 0 {
    } else {
        let e0 = m[0];
        let rest = m.drop_first();
        lemma_unique_paths_drop(m);
        lemma_lookup_new_records(rest, l, p);
        let nr = new_records(m, l);
        if e0.path == p {
            if !should_skip_spec(p) && lookup_local(l, p) is None {
                assert(nr[0].canonical == p);
            } else {
                lemma_lookup_manifest_some(rest, p);
                assert forall|a: int| 0 <= a < rest.len() implies #[trigger] rest[a].path != p by {
                    assert(rest[a] == m[a + 1]);
                }
            }
        } else {
            if !should_skip_spec(e0.path) && lookup_local(l, e0.path) is None {
                assert(nr == seq![
                    RecV { canonical: e0.path, actual: e0.path, hash: e0.hash, disabled: false },
                ] + new_records(rest, l));
                assert(nr.drop_first() =~= new_records(rest, l));
            }
        }
    }
}

/// No survivor is a deletion candidate: it either kept a manifest entry or
/// sits on an excluded actual path.
pub proof fn lemma_surviving_members(m: Seq<EntryV>, l: Seq<RecV>)
    ensures
        forall|i: int|
            0 <= i < surviving_records(m, l).len() ==> delete_decision(
                m,
                #[trigger] surviving_records(m, l)[i],
            ) is None,
    decreases l.len(),
{
    if l.len() == 0 {
    } else {
        let surv = surviving_records(m, l);
        let rest = surviving_records(m, l.drop_first());
        lemma_surviving_members(m, l.drop_first());
        if lookup_manifest(m, l[0].canonical) is Some {
            assert forall|i: int| 0 <= i < surv.len() implies delete_decision(
                m,
                #[trigger] surv[i],
            ) is None by {
                if i == 0 {
                    assert(surv[0] == updated_record(m, l[0]));
                } else {
                    assert(surv[i] == rest[i - 1]);
                }
            }
        } else if should_skip_spec(l[0].actual) {
            assert forall|i: int| 0 <= i < surv.len() implies delete_decision(
                m,
                #[trigger] surv[i],
            ) is None by {
                if i == 0 {
                    assert(surv[0] == l[0]);
                } else {
                    assert(surv[i] == rest[i - 1]);
                }
            }
        }
    }
}

/// Every fresh download's record keeps a manifest entry for its canonical
/// path, so none is a deletion candidate either.
pub proof fn lemma_new_members(m: Seq<EntryV>, l: Seq<RecV>)
    ensures
        forall|i: int|
            0 <= i < new_records(m, l).len() ==> lookup_manifest(
                m,
                #[trigger] new_records(m, l)[i].canonical,
            ) is Some,
    decreases m.len(),
{
    if m.len() == 0 {
    } else {
        let nr = new_records(m, l);
        let rest = new_records(m.drop_first(), l);
        lemma_new_members(m.drop_first(), l);
        assert forall|i: int| 0 <= i < nr.len() implies lookup_manifest(
            m,
            #[trigger] nr[i].canonical,
        ) is Some by {
            if !should_skip_spec(m[0].path) && lookup_local(l, m[0].path) is None {
                if i == 0 {
                    assert(m[0].path == nr[0].canonical);
                } else {
                    assert(nr[i] == rest[i - 1]);
                    assert(lookup_manifest(m.drop_first(), rest[i - 1].canonical) is Some);
                }
            } else {
                assert(nr[i] == rest[i]);
                assert(lookup_manifest(m.drop_first(), rest[i].canonical) is Some);
            }
        }
    }
}

/// When every entry's decision is no-action, the download list is empty.
pub proof fn lemma_downloads_empty(m: Seq<EntryV>, l: Seq<RecV>)
    requires
        forall|i: int| 0 <= i < m.len() ==> download_decision(l, #[trigger] m[i]) is None,
    ensures
        planned_downloads(m, l) == Seq::<DownloadV>::empty(),
    decreases m.len(),
{
    if m.len() == 0 {
    } else {
        assert(download_decision(l, m[0]) is None);
        assert forall|i: int| 0 <= i < m.drop_first().len() implies download_decision(
            l,
            #[trigger] m.drop_first()[i],
        ) is None by {
            assert(m.drop_first()[i] == m[i + 1]);
        }
        lemma_downloads_empty(m.drop_first(), l);
    }
}

/// When every record's decision is no-action, the delete list is empty.
pub proof fn lemma_deletes_empty(m: Seq<EntryV>, l: Seq<RecV>)
    requires
        forall|i: int| 0 <= i < l.len() ==> delete_decision(m, #[trigger] l[i]) is None,
    ensures
        planned_deletes(m, l) == Seq::<Seq<char>>::empty(),
    decreases l.len(),
{
    if l.len() == 0 {
    } else {
        assert(delete_decision(m, l[0]) is None);
        assert forall|i: int| 0 <= i < l.drop_first().len() implies delete_decision(
            m,
            #[trigger] l.drop_first()[i],
        ) is None by {
            assert(l.drop_first()[i] == l[i + 1]);
        }
        lemma_deletes_empty(m, l.drop_first());
    }
}

/// Law: full-sync planning is idempotent. Re-planning against an unchanged
/// manifest and the state the plan itself produces (every download landed
/// with the remote content, every delete happened) yields an empty plan.
pub proof fn lemma_plan_idempotent(m: Seq<EntryV>, l: Seq<RecV>)
    requires
        unique_paths(m),
        unique_canonicals(l),
    ensures
        planned_downloads(m, apply_full_sync(m, l)) == Seq::<DownloadV>::empty(),
        planned_deletes(m, apply_full_sync(m, l)) == Seq::<Seq<char>>::empty(),
{
    let lp = apply_full_sync(m, l);
    let surv = surviving_records(m, l);
    let nr = new_records(m, l);
    assert forall|i: int| 0 <= i < m.len() implies download_decision(lp, #[trigger] m[i]) is None by {
        let e = m[i];
        if !should_skip_spec(e.path) {
            lemma_lookup_manifest_self(m, i);
            lemma_lookup_local_concat(surv, nr, e.path);
            lemma_lookup_surviving(m, l, e.path);
            lemma_lookup_new_records(m, l, e.path);
            lemma_lookup_local_hit(l, e.path);
            match lookup_local(l, e.path) {
                Some(r) => {
                    assert(r.canonical == e.path);
                    assert(lookup_manifest(m, r.canonical) == Some(e));
                    assert(lookup_local(surv, e.path) == Some(updated_record(m, r)));
                    assert(updated_record(m, r).hash == e.hash);
                    assert(lookup_local(lp, e.path) == Some(updated_record(m, r)));
                },
                None => {
                    assert(lookup_local(surv, e.path) is None);
                    let fresh = RecV {
                        canonical: e.path,
                        actual: e.path,
                        hash: e.hash,
                        disabled: false,
                    };
                    assert(lookup_local(nr, e.path) == Some(fresh));
                    assert(lookup_local(lp, e.path) == Some(fresh));
                },
            }
        }
    }
    lemma_downloads_empty(m, lp);
    lemma_surviving_members(m, l);
    lemma_new_members(m, l);
    assert forall|i: int| 0 <= i < lp.len() implies delete_decision(m, #[trigger] lp[i]) is None by {
        if i < surv.len() {
            assert(lp[i] == surv[i]);
        } else {
            assert(lp[i] == nr[i - surv.len()]);
            assert(lookup_manifest(m, nr[i - surv.len()].canonical) is Some);
        }
    }
    lemma_deletes_empty(m, lp);
}

/// Every planned download comes from some manifest entry's decision.
pub proof fn lemma_downloads_membership(m: Seq<EntryV>, l: Seq<RecV>)
    ensures
        forall|i: int|
            0 <= i < planned_downloads(m, l).len() ==> exists|j: int|
                0 <= j < m.len() && #[trigger] download_decision(l, m[j]) == Some(
                    #[trigger] planned_downloads(m, l)[i],
                ),
    decreases m.len(),
{
    if m.len() == 0 {
    } else {
        let pd = planned_downloads(m, l);
        let rest = planned_downloads(m.drop_first(), l);
        lemma_downloads_membership(m.drop_first(), l);
        assert forall|i: int| 0 <= i < pd.len() implies exists|j: int|
            0 <= j < m.len() && #[trigger] download_decision(l, m[j]) == Some(
                #[trigger] pd[i],
            ) by {
            match download_decision(l, m[0]) {
                Some(d) => {
                    if i == 0 {
                        assert(pd[0] == d);
                        assert(download_decision(l, m[0]) == Some(pd[0]));
                    } else {
                        assert(pd[i] == rest[i - 1]);
                        let j = choose|j: int|
                            0 <= j < m.drop_first().len() && #[trigger] download_decision(
                                l,
                                m.drop_first()[j],
                            ) == Some(rest[i - 1]);
                        assert(m.drop_first()[j] == m[j + 1]);
                        assert(download_decision(l, m[j + 1]) == Some(pd[i]));
                    }
                },
                None => {
                    assert(pd[i] == rest[i]);
                    let j = choose|j: int|
                        0 <= j < m.drop_first().len() && #[trigger] download_decision(
                            l,
                            m.drop_first()[j],
                        ) == Some(rest[i]);
                    assert(m.drop_first()[j] == m[j + 1]);
                    assert(download_decision(l, m[j + 1]) == Some(pd[i]));
                },
            }
        }
    }
}

/// Every planned delete comes from some local record's decision.
pub proof fn lemma_deletes_membership(m: Seq<EntryV>, l: Seq<RecV>)
    ensures
        forall|i: int|
            0 <= i < planned_deletes(m, l).len() ==> exists|t: int|
                0 <= t < l.len() && #[trigger] delete_decision(m, l[t]) == Some(
                    #[trigger] planned_deletes(m, l)[i],
                ),
    decreases l.len(),
{
    if l.len() == 0 {
    } else {
        let pd = planned_deletes(m, l);
        let rest = planned_deletes(m, l.drop_first());
        lemma_deletes_membership(m, l.drop_first());
        assert forall|i: int| 0 <= i < pd.len() implies exists|t: int|
            0 <= t < l.len() && #[trigger] delete_decision(m, l[t]) == Some(#[trigger] pd[i]) by {
            match delete_decision(m, l[0]) {
                Some(d) => {
                    if i == 0 {
                        assert(pd[0] == d);
                        assert(delete_decision(m, l[0]) == Some(pd[0]));
                    } else {
                        assert(pd[i] == rest[i - 1]);
                        let t = choose|t: int|
                            0 <= t < l.drop_first().len() && #[trigger] delete_decision(
                                m,
                                l.drop_first()[t],
                            ) == Some(rest[i - 1]);
                        assert(l.drop_first()[t] == l[t + 1]);
                        assert(delete_decision(m, l[t + 1]) == Some(pd[i]));
                    }
                },
                None => {
                    assert(pd[i] == rest[i]);
                    let t = choose|t: int|
                        0 <= t < l.drop_first().len() && #[trigger] delete_decision(
                            m,
                            l.drop_first()[t],
                        ) == Some(rest[i]);
                    assert(l.drop_first()[t] == l[t + 1]);
                    assert(delete_decision(m, l[t + 1]) == Some(pd[i]));
                },
            }
        }
    }
}

/// Two well-formed records with different canonical paths sit at
/// different actual paths: the overlay transform cannot make them collide.
pub proof fn lemma_actual_injective(a: RecV, b: RecV)
    requires
        rec_wf(a),
        rec_wf(b),
        a.canonical != b.canonical,
    ensures
        a.actual != b.actual,
{
    if a.disabled && b.disabled {
        lemma_enable_inverts_disable(a.canonical);
        lemma_enable_inverts_disable(b.canonical);
    } else if a.disabled && !b.disabled {
        lemma_enable_inverts_disable(a.canonical);
        assert(is_disabled_name(base_part(a.actual)));
    } else if !a.disabled && b.disabled {
        lemma_enable_inverts_disable(b.canonical);
        assert(is_disabled_name(base_part(b.actual)));
    }
}

/// Law: a file present locally only in disabled form and unchanged
/// remotely appears in neither the download nor the delete list of a full
/// plan.
pub proof fn lemma_disabled_unchanged_untouched(m: Seq<EntryV>, l: Seq<RecV>, k: int)
    requires
        unique_paths(m),
        unique_canonicals(l),
        forall|i: int| 0 <= i < l.len() ==> rec_wf(#[trigger] l[i]),
        0 <= k < l.len(),
        l[k].disabled,
        lookup_manifest(m, l[k].canonical) is Some,
        lookup_manifest(m, l[k].canonical).unwrap().hash == l[k].hash,
    ensures
        forall|i: int|
            0 <= i < planned_downloads(m, l).len() ==> #[trigger] planned_downloads(m, l)[i].path
                != l[k].canonical,
        forall|i: int|
            0 <= i < planned_deletes(m, l).len() ==> #[trigger] planned_deletes(m, l)[i]
                != l[k].actual,
{
    let c = l[k].canonical;
    lemma_lookup_local_self(l, k);
    lemma_downloads_membership(m, l);
    assert forall|i: int|
        0 <= i < planned_downloads(m, l).len() implies #[trigger] planned_downloads(m, l)[i].path
        != c by {
        let d = planned_downloads(m, l)[i];
        let j = choose|j: int|
            0 <= j < m.len() && #[trigger] download_decision(l, m[j]) == Some(d);
        if m[j].path == c {
            lemma_lookup_manifest_self(m, j);
            assert(m[j].hash == l[k].hash);
            assert(download_decision(l, m[j]) is None);
        } else {
            assert(d.path == m[j].path);
        }
    }
    lemma_deletes_membership(m, l);
    assert forall|i: int|
        0 <= i < planned_deletes(m, l).len() implies #[trigger] planned_deletes(m, l)[i]
        != l[k].actual by {
        let d = planned_deletes(m, l)[i];
        let t = choose|t: int| 0 <= t < l.len() && #[trigger] delete_decision(m, l[t]) == Some(d);
        assert(lookup_manifest(m, l[t].canonical) is None);
        assert(l[t].canonical != c);
        assert(t != k);
        lemma_actual_injective(l[t], l[k]);
        assert(d == l[t].actual);
    }
}

} // verus!
