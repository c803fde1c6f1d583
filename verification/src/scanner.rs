//! Turning a raw listing of the local mirror (relative path and content
//! hash per regular file) into local records: the exclusion rules are
//! applied, the overlay state is read off the basename, and the canonical
//! path is derived from the actual path of a disabled file. The result is
//! keyed uniquely by canonical path; a later file whose canonical path is
//! already taken is reported as a collision, not resolved.

use vstd::prelude::*;

use crate::model::{canon_set, lookup_local, rec_views, rec_wf, string_views, LocalRecord, RecV};
use crate::paths::{
    base_part, enabled_path_spec, get_enabled_path, get_filename, is_disabled_filename,
    is_disabled_name, lemma_disable_inverts_enable, should_skip_path, should_skip_spec, str_eq,
};

verus! {

/// One regular file found by walking the mirror: its path relative to the
/// mirror root (forward slashes) and its content hash.
pub struct ScannedFile {
    pub rel_path: String,
    pub hash: String,
}

/// Spec-level scanned file.
pub ghost struct ScanV {
    pub path: Seq<char>,
    pub hash: Seq<char>,
}

impl View for ScannedFile {
    type V = ScanV;

    open spec fn view(&self) -> ScanV {
        ScanV { path: self.rel_path@, hash: self.hash@ }
    }
}

pub open spec fn scan_views(files: Seq<ScannedFile>) -> Seq<ScanV> {
    files.map_values(|f: ScannedFile| f@)
}

/// The record a single retained file produces: a dash-marked basename
/// means the file is the disabled form of its canonical path.
pub open spec fn record_of(path: Seq<char>, hash: Seq<char>) -> RecV {
    if is_disabled_name(base_part(path)) {
        RecV {
            canonical: enabled_path_spec(path).unwrap(),
            actual: path,
            hash: hash,
            disabled: true,
        }
    } else {
        RecV { canonical: path, actual: path, hash: hash, disabled: false }
    }
}

/// The records of a scan, given the canonical paths already taken:
/// excluded paths and canonical-path collisions produce nothing.
pub open spec fn scan_records_from(files: Seq<ScanV>, seen: Set<Seq<char>>) -> Seq<RecV>
    decreases files.len(),
{
    if files.len() == 0 {
        Seq::empty()
    } else {
        let r = record_of(files[0].path, files[0].hash);
        if should_skip_spec(files[0].path) || seen.contains(r.canonical) {
            scan_records_from(files.drop_first(), seen)
        } else {
            seq![r] + scan_records_from(files.drop_first(), seen.insert(r.canonical))
        }
    }
}

/// The actual paths whose canonical path was already taken by an earlier
/// file of the scan: a data inconsistency reported as informational only.
pub open spec fn scan_collisions_from(files: Seq<ScanV>, seen: Set<Seq<char>>) -> Seq<Seq<char>>
    decreases files.len(),
{
    if files.len() == 0 {
        Seq::empty()
    } else {
        let r = record_of(files[0].path, files[0].hash);
        if should_skip_spec(files[0].path) {
            scan_collisions_from(files.drop_first(), seen)
        } else if seen.contains(r.canonical) {
            seq![files[0].path] + scan_collisions_from(files.drop_first(), seen)
        } else {
            scan_collisions_from(files.drop_first(), seen.insert(r.canonical))
        }
    }
}

pub open spec fn scan_records_spec(files: Seq<ScanV>) -> Seq<RecV> {
    scan_records_from(files, Set::empty())
}

pub open spec fn scan_collisions_spec(files: Seq<ScanV>) -> Seq<Seq<char>> {
    scan_collisions_from(files, Set::empty())
}

/// A lookup succeeds exactly when some record carries the canonical path.
pub proof fn lemma_lookup_local_some(l: Seq<RecV>, p: Seq<char>)
    ensures
        (lookup_local(l, p) is Some) <==> (exists|i: int|
            0 <= i < l.len() && #[trigger] l[i].canonical == p),
    decreases l.len(),
{
    if l.len() == 0 {
    } else if l[0].canonical == p {
        assert(l[0].canonical == p);
    } else {
        lemma_lookup_local_some(l.drop_first(), p);
        if lookup_local(l, p) is Some {
            let i = choose|i: int|
                0 <= i < l.drop_first().len() && #[trigger] l.drop_first()[i].canonical == p;
            assert(l[i + 1] == l.drop_first()[i]);
            assert(l[i + 1].canonical == p);
        }
        if exists|i: int| 0 <= i < l.len() && #[trigger] l[i].canonical == p {
            let i = choose|i: int| 0 <= i < l.len() && #[trigger] l[i].canonical == p;
            assert(i != 0);
            assert(l.drop_first()[i - 1] == l[i]);
            assert(l.drop_first()[i - 1].canonical == p);
        }
    }
}

/// A lookup succeeds exactly when the canonical path is among those taken.
pub proof fn lemma_lookup_canon_set(l: Seq<RecV>, p: Seq<char>)
    ensures
        (lookup_local(l, p) is Some) <==> canon_set(l).contains(p),
{
    lemma_lookup_local_some(l, p);
    let mapped = l.map_values(|r: RecV| r.canonical);
    assert(canon_set(l).contains(p) == mapped.contains(p));
    assert forall|i: int| 0 <= i < l.len() && #[trigger] l[i].canonical == p implies mapped.contains(
        p,
    ) by {
        assert(mapped[i] == p);
    }
    if mapped.contains(p) {
        let i = choose|i: int| 0 <= i < mapped.len() && mapped[i] == p;
        assert(l[i].canonical == p);
    }
}

/// Every scan record is well formed, its canonical path is new, and no two
/// records share a canonical path.
pub proof fn lemma_scan_records_wf(files: Seq<ScanV>, seen: Set<Seq<char>>)
    ensures
        forall|i: int|
            0 <= i < scan_records_from(files, seen).len() ==> rec_wf(
                #[trigger] scan_records_from(files, seen)[i],
            ),
        forall|i: int|
            0 <= i < scan_records_from(files, seen).len() ==> !seen.contains(
                #[trigger] scan_records_from(files, seen)[i].canonical,
            ),
        forall|i: int, j: int|
            0 <= i < j < scan_records_from(files, seen).len() ==> scan_records_from(files, seen)[i].canonical
                != scan_records_from(files, seen)[j].canonical,
    decreases files.len(),
{
    if files.len() == 0 {
    } else {
        let res = scan_records_from(files, seen);
        let p = files[0].path;
        let r = record_of(p, files[0].hash);
        if should_skip_spec(p) || seen.contains(r.canonical) {
            assert(res == scan_records_from(files.drop_first(), seen));
            lemma_scan_records_wf(files.drop_first(), seen);
            assert forall|i: int|
                0 <= i < res.len() implies rec_wf(#[trigger] res[i]) && !seen.contains(
                res[i].canonical,
            ) by {
                assert(res[i] == scan_records_from(files.drop_first(), seen)[i]);
            }
        } else {
            let seen2 = seen.insert(r.canonical);
            let rest = scan_records_from(files.drop_first(), seen2);
            lemma_scan_records_wf(files.drop_first(), seen2);
            if is_disabled_name(base_part(p)) {
                lemma_disable_inverts_enable(p);
            }
            assert(rec_wf(r));
            assert(res == seq![r] + rest);
            assert forall|i: int| 0 <= i < res.len() implies rec_wf(#[trigger] res[i])
                && !seen.contains(res[i].canonical) by {
                if i > 0 {
                    assert(res[i] == rest[i - 1]);
                    assert(!seen2.contains(rest[i - 1].canonical));
                }
            }
            assert forall|i: int, j: int| 0 <= i < j < res.len() implies res[i].canonical
                != res[j].canonical by {
                assert(res[j] == rest[j - 1]);
                assert(!seen2.contains(rest[j - 1].canonical));
                if i > 0 {
                    assert(res[i] == rest[i - 1]);
                }
            }
        }
    }
}

/// Check if a local record exists for a canonical path; the first record
/// with that canonical path is returned, in either overlay state.
pub fn find_local_file<'a>(records: &'a Vec<LocalRecord>, canonical_path: &str) -> (r: Option<
    &'a LocalRecord,
>)
    ensures
        match r {
            Some(rec) => lookup_local(rec_views(records@), canonical_path@) == Some(rec@),
            None => lookup_local(rec_views(records@), canonical_path@) is None,
        },
{
    let ghost l = rec_views(records@);
    let n = records.len();
    let mut i: usize = 0;
    proof {
        assert(l.skip(0) =~= l);
    }
    while i < n
        invariant
            n == records@.len(),
            i <= n,
            l == rec_views(records@),
            lookup_local(l, canonical_path@) == lookup_local(l.skip(i as int), canonical_path@),
        decreases n - i,
    {
        proof {
            assert(l.skip(i as int)[0] == l[i as int]);
            assert(l.skip(i as int).drop_first() =~= l.skip(i + 1));
        }
        if str_eq(records[i].canonical_path.as_str(), canonical_path) {
            return Some(&records[i]);
        }
        i += 1;
    }
    proof {
        assert(l.skip(n as int) =~= Seq::<RecV>::empty());
    }
    None
}

/// Build the local records from a raw mirror listing: one record per
/// retained file, keyed uniquely by canonical path, plus the actual paths
/// that collided with an earlier file's canonical path.
pub fn build_local_file_map(files: &Vec<ScannedFile>) -> (r: (Vec<LocalRecord>, Vec<String>))
    ensures
        rec_views(r.0@) == scan_records_spec(scan_views(files@)),
        string_views(r.1@) == scan_collisions_spec(scan_views(files@)),
{
    let ghost fv = scan_views(files@);
    let mut records: Vec<LocalRecord> = Vec::new();
    let mut collisions: Vec<String> = Vec::new();
    let n = files.len();
    let mut i: usize = 0;
    proof {
        assert(fv.skip(0) =~= fv);
        assert(canon_set(rec_views(records@)) =~= Set::<Seq<char>>::empty());
        assert(rec_views(records@) + scan_records_from(fv, Set::empty()) =~= scan_records_spec(fv));
        assert(string_views(collisions@) + scan_collisions_from(fv, Set::empty())
            =~= scan_collisions_spec(fv));
    }
    while i < n
        invariant
            n == files@.len(),
            i <= n,
            fv == scan_views(files@),
            scan_records_spec(fv) == rec_views(records@) + scan_records_from(
                fv.skip(i as int),
                canon_set(rec_views(records@)),
            ),
            scan_collisions_spec(fv) == string_views(collisions@) + scan_collisions_from(
                fv.skip(i as int),
                canon_set(rec_views(records@)),
            ),
        decreases n - i,
    {
        let ghost seen = canon_set(rec_views(records@));
        proof {
            assert(fv.skip(i as int)[0] == fv[i as int]);
            assert(fv[i as int] == files@[i as int]@);
            assert(fv.skip(i as int).drop_first() =~= fv.skip(i + 1));
        }
        let path = &files[i].rel_path;
        if !should_skip_path(path.as_str()) {
            let disabled = is_disabled_filename(get_filename(path.as_str()));
            let canonical: String = if disabled {
                match get_enabled_path(path.as_str()) {
                    Some(c) => c,
                    None => unreached(),
                }
            } else {
                path.clone()
            };
            let ghost r = record_of(fv[i as int].path, fv[i as int].hash);
            proof {
                assert(canonical@ == r.canonical);
                lemma_lookup_canon_set(rec_views(records@), r.canonical);
            }
            let ghost prev_recs = rec_views(records@);
            let ghost prev_cols = string_views(collisions@);
            if find_local_file(&records, canonical.as_str()).is_some() {
                collisions.push(path.clone());
                proof {
                    assert(string_views(collisions@) =~= prev_cols + seq![fv[i as int].path]);
                    assert(prev_cols + (seq![fv[i as int].path] + scan_collisions_from(
                        fv.skip(i + 1),
                        seen,
                    )) =~= string_views(collisions@) + scan_collisions_from(fv.skip(i + 1), seen));
                }
            } else {
                records.push(
                    LocalRecord {
                        canonical_path: canonical,
                        actual_path: path.clone(),
                        hash: files[i].hash.clone(),
                        disabled,
                    },
                );
                proof {
                    assert(rec_views(records@) =~= prev_recs.push(r));
                    crate::model::lemma_canon_set_push(prev_recs, r);
                    assert(canon_set(rec_views(records@)) == seen.insert(r.canonical));
                    assert(prev_recs + (seq![r] + scan_records_from(
                        fv.skip(i + 1),
                        seen.insert(r.canonical),
                    )) =~= rec_views(records@) + scan_records_from(
                        fv.skip(i + 1),
                        seen.insert(r.canonical),
                    ));
                }
            }
        }
        i += 1;
    }
    proof {
        assert(fv.skip(n as int) =~= Seq::<ScanV>::empty());
        assert(rec_views(records@) + Seq::<RecV>::empty() =~= rec_views(records@));
        assert(string_views(collisions@) + Seq::<Seq<char>>::empty() =~= string_views(collisions@));
    }
    (records, collisions)
}

} // verus!
