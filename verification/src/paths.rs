//! Relative-path rules of the mirror: the disabled-file overlay transform,
//! the exclusion rules (hidden components and the user-customizations tree)
//! and the junk-file classification used by directory compaction.
//!
//! Paths are slash-separated relative paths; the overlay transform stores a
//! disabled file at `dir/-basename` in place of `dir/basename`.

use vstd::prelude::*;

verus! {

/// Index just after the last '/' of `p`, or 0 when `p` holds no '/'.
/// The basename starts here.
pub open spec fn split_idx(p: Seq<char>) -> int
    decreases p.len(),
{
    if p.len() == 0 {
        0
    } else if p[p.len() - 1] == '/' {
        p.len() as int
    } else {
        split_idx(p.drop_last())
    }
}

/// Directory part of `p`, including the trailing '/' when present.
pub open spec fn dir_part(p: Seq<char>) -> Seq<char> {
    p.subrange(0, split_idx(p))
}

/// Basename of `p`: everything after the last '/'.
pub open spec fn base_part(p: Seq<char>) -> Seq<char> {
    p.subrange(split_idx(p), p.len() as int)
}

pub proof fn lemma_split_idx_props(p: Seq<char>)
    ensures
        0 <= split_idx(p) <= p.len(),
        forall|j: int| split_idx(p) <= j < p.len() ==> p[j] != '/',
        split_idx(p) > 0 ==> p[split_idx(p) - 1] == '/',
    decreases p.len(),
{
    if p.len() == 0 {
    } else if p[p.len() - 1] == '/' {
    } else {
        lemma_split_idx_props(p.drop_last());
        assert(forall|j: int| 0 <= j < p.len() - 1 ==> p.drop_last()[j] == p[j]);
    }
}

/// The split index is the only position that has a '/' just before it
/// (or is 0) and no '/' at or after it.
pub proof fn lemma_split_idx_unique(p: Seq<char>, k: int)
    requires
        0 <= k <= p.len(),
        k == 0 || p[k - 1] == '/',
        forall|j: int| k <= j < p.len() ==> p[j] != '/',
    ensures
        split_idx(p) == k,
    decreases p.len(),
{
    if p.len() == 0 {
    } else if p[p.len() - 1] == '/' {
        assert(k == p.len());
    } else {
        assert(k < p.len());
        assert(forall|j: int| 0 <= j < p.len() - 1 ==> p.drop_last()[j] == p[j]);
        lemma_split_idx_unique(p.drop_last(), k);
    }
}

/// Find the basename's start: the index just after the last '/'.
pub fn split_point(path: &str) -> (i: usize)
    ensures
        i == split_idx(path@),
        i <= path@.len(),
{
    let n = path.unicode_len();
    let mut i: usize = n;
    while i > 0
        invariant
            i <= n,
            n == path@.len(),
            forall|j: int| i <= j < n ==> path@[j] != '/',
        decreases i,
    {
        if path.get_char(i - 1) == '/' {
            proof {
                lemma_split_idx_unique(path@, i as int);
            }
            return i;
        }
        i -= 1;
    }
    proof {
        lemma_split_idx_unique(path@, 0);
    }
    0
}

/// Get just the filename from a path.
pub fn get_filename(path: &str) -> (r: &str)
    ensures
        r@ == base_part(path@),
{
    let n = path.unicode_len();
    let i = split_point(path);
    path.substring_char(i, n)
}

/// A filename carries the disable marker when it starts with '-'.
pub open spec fn is_disabled_name(name: Seq<char>) -> bool {
    name.len() > 0 && name[0] == '-'
}

/// Check if a filename is a disabled (dash-prefixed) version.
pub fn is_disabled_filename(filename: &str) -> (r: bool)
    ensures
        r == is_disabled_name(filename@),
{
    if filename.unicode_len() == 0 {
        return false;
    }
    filename.get_char(0) == '-'
}

/// The disabled form of a canonical path: `dir/-basename`.
pub open spec fn disabled_path_spec(p: Seq<char>) -> Seq<char> {
    dir_part(p) + seq!['-'] + base_part(p)
}

/// The canonical form of a disabled path, defined only when the basename
/// carries the disable marker: `dir/-basename` gives back `dir/basename`.
pub open spec fn enabled_path_spec(p: Seq<char>) -> Option<Seq<char>> {
    if is_disabled_name(base_part(p)) {
        Some(dir_part(p) + base_part(p).drop_first())
    } else {
        None
    }
}

/// Get the disabled version path for a file.
pub fn get_disabled_path(path: &str) -> (r: String)
    ensures
        r@ == disabled_path_spec(path@),
{
    let n = path.unicode_len();
    let i = split_point(path);
    let dir = path.substring_char(0, i);
    let base = path.substring_char(i, n);
    let res = String::from_str(dir).concat("-").concat(base);
    proof {
        reveal_strlit("-");
        assert(res@ =~= disabled_path_spec(path@));
    }
    res
}

/// Get the enabled version path for a disabled file.
pub fn get_enabled_path(path: &str) -> (r: Option<String>)
    ensures
        r is Some <==> enabled_path_spec(path@) is Some,
        r is Some ==> r.unwrap()@ == enabled_path_spec(path@).unwrap(),
{
    let n = path.unicode_len();
    let i = split_point(path);
    if i == n {
        return None;
    }
    if path.get_char(i) != '-' {
        return None;
    }
    let dir = path.substring_char(0, i);
    let rest = path.substring_char(i + 1, n);
    let res = String::from_str(dir).concat(rest);
    proof {
        assert(res@ =~= dir_part(path@) + base_part(path@).drop_first());
    }
    Some(res)
}

/// Law: re-enabling a disabled path returns the original path, whatever the
/// original basename was.
pub proof fn lemma_enable_inverts_disable(p: Seq<char>)
    ensures
        enabled_path_spec(disabled_path_spec(p)) == Some(p),
{
    let d = disabled_path_spec(p);
    lemma_split_idx_props(p);
    assert(forall|j: int| split_idx(p) <= j < d.len() ==> d[j] != '/');
    lemma_split_idx_unique(d, split_idx(p));
    assert(base_part(d) =~= seq!['-'] + base_part(p));
    assert(dir_part(d) =~= dir_part(p));
    assert(enabled_path_spec(d).unwrap() =~= p);
}

/// Law: disabling the enabled form of a marker-carrying path returns that
/// path unchanged.
pub proof fn lemma_disable_inverts_enable(p: Seq<char>)
    requires
        is_disabled_name(base_part(p)),
    ensures
        disabled_path_spec(enabled_path_spec(p).unwrap()) == p,
{
    let e = enabled_path_spec(p).unwrap();
    lemma_split_idx_props(p);
    assert(e =~= dir_part(p) + base_part(p).drop_first());
    assert(forall|j: int| split_idx(p) <= j < e.len() ==> e[j] != '/');
    lemma_split_idx_unique(e, split_idx(p));
    assert(base_part(e) =~= base_part(p).drop_first());
    assert(dir_part(e) =~= dir_part(p));
    assert(disabled_path_spec(e) =~= p);
}

/// Character-by-character string equality.
pub fn str_eq(a: &str, b: &str) -> (r: bool)
    ensures
        r == (a@ == b@),
{
    let n = a.unicode_len();
    if n != b.unicode_len() {
        return false;
    }
    let mut i: usize = 0;
    while i < n
        invariant
            n == a@.len(),
            n == b@.len(),
            i <= n,
            forall|j: int| 0 <= j < i ==> a@[j] == b@[j],
        decreases n - i,
    {
        if a.get_char(i) != b.get_char(i) {
            return false;
        }
        i += 1;
    }
    proof {
        assert(a@ =~= b@);
    }
    true
}

/// Occurrence of `name` as one complete path component of `p`: the run is
/// bounded by the ends of the path or by '/' on either side.
pub open spec fn has_component(p: Seq<char>, name: Seq<char>) -> bool {
    exists|k: int|
        0 <= k && k + name.len() <= p.len() && #[trigger] p.subrange(k, k + name.len() as int)
            == name && (k == 0 || p[k - 1] == '/') && (k + name.len() == p.len() || p[k
            + name.len() as int] == '/')
}

/// Component search by scanning every start position whose boundaries are
/// the path's ends or separators.
fn has_path_component(path: &str, name: &str) -> (r: bool)
    requires
        name@.len() > 0,
    ensures
        r == has_component(path@, name@),
{
    let h = path.unicode_len();
    let m = name.unicode_len();
    if m > h {
        return false;
    }
    let limit = h - m;
    let mut k: usize = 0;
    while k <= limit
        invariant
            h == path@.len(),
            m == name@.len(),
            0 < m <= h,
            limit == h - m,
            k <= limit + 1,
            forall|k2: int|
                0 <= k2 < k ==> !(#[trigger] path@.subrange(k2, k2 + name@.len() as int) == name@
                    && (k2 == 0 || path@[k2 - 1] == '/') && (k2 + name@.len() == path@.len()
                    || path@[k2 + name@.len() as int] == '/')),
        decreases limit + 1 - k,
    {
        let start_ok = k == 0 || path.get_char(k - 1) == '/';
        let end_ok = k + m == h || path.get_char(k + m) == '/';
        if start_ok && end_ok {
            let mut j: usize = 0;
            let mut matched = true;
            while j < m
                invariant
                    h == path@.len(),
                    m == name@.len(),
                    k + m <= h,
                    j <= m,
                    matched ==> forall|j2: int| 0 <= j2 < j ==> path@[k + j2] == name@[j2],
                    !matched ==> path@.subrange(k as int, k + m) != name@,
                decreases m - j,
            {
                if path.get_char(k + j) != name.get_char(j) {
                    proof {
                        assert(path@.subrange(k as int, k + m)[j as int] != name@[j as int]);
                    }
                    matched = false;
                    j = m;
                } else {
                    j += 1;
                }
            }
            if matched {
                proof {
                    assert(path@.subrange(k as int, k + m) =~= name@);
                }
                return true;
            }
        }
        k += 1;
    }
    false
}

/// Some path component starts with the hidden-file marker '.'.
pub open spec fn has_hidden_component(p: Seq<char>) -> bool {
    exists|i: int| 0 <= i < p.len() && #[trigger] p[i] == '.' && (i == 0 || p[i - 1] == '/')
}

/// A path is excluded from syncing when one of its components is the
/// reserved user-customizations directory or some component is hidden.
pub open spec fn should_skip_spec(p: Seq<char>) -> bool {
    has_component(p, "user-customs"@) || has_hidden_component(p)
}

/// Check if a path should be skipped (user-customs folder or hidden files).
pub fn should_skip_path(path: &str) -> (r: bool)
    ensures
        r == should_skip_spec(path@),
{
    proof {
        reveal_strlit("user-customs");
    }
    if has_path_component(path, "user-customs") {
        return true;
    }
    let n = path.unicode_len();
    let mut i: usize = 0;
    while i < n
        invariant
            n == path@.len(),
            i <= n,
            forall|i2: int|
                0 <= i2 < i ==> !(#[trigger] path@[i2] == '.' && (i2 == 0 || path@[i2 - 1]
                    == '/')),
        decreases n - i,
    {
        if path.get_char(i) == '.' {
            if i == 0 {
                return true;
            }
            if path.get_char(i - 1) == '/' {
                return true;
            }
        }
        i += 1;
    }
    false
}

/// ASCII lower-casing of one character.
pub open spec fn lower_char(c: char) -> char {
    if 65 <= c as u32 && c as u32 <= 90 {
        ((c as u32 + 32) as u8) as char
    } else {
        c
    }
}

fn to_lower(c: char) -> (r: char)
    ensures
        r == lower_char(c),
{
    let cu = c as u32;
    if 65 <= cu && cu <= 90 {
        ((cu + 32) as u8) as char
    } else {
        c
    }
}

/// Equality of names up to ASCII case.
pub open spec fn eq_nocase(a: Seq<char>, b: Seq<char>) -> bool {
    a.len() == b.len() && (forall|i: int| 0 <= i < a.len() ==> lower_char(a[i]) == lower_char(b[i]))
}

fn eq_ignore_case(a: &str, b: &str) -> (r: bool)
    ensures
        r == eq_nocase(a@, b@),
{
    let n = a.unicode_len();
    if n != b.unicode_len() {
        return false;
    }
    let mut i: usize = 0;
    while i < n
        invariant
            n == a@.len(),
            n == b@.len(),
            i <= n,
            forall|i2: int| 0 <= i2 < i ==> lower_char(a@[i2]) == lower_char(b@[i2]),
        decreases n - i,
    {
        if to_lower(a.get_char(i)) != to_lower(b.get_char(i)) {
            return false;
        }
        i += 1;
    }
    true
}

/// A directory entry that compaction may remove: hidden files and the
/// well-known OS metadata files, compared case-insensitively.
pub open spec fn is_junk_spec(name: Seq<char>) -> bool {
    (name.len() > 0 && name[0] == '.') || eq_nocase(name, "Thumbs.db"@) || eq_nocase(
        name,
        "desktop.ini"@,
    ) || eq_nocase(name, "ehthumbs.db"@)
}

/// Check if a filename is a junk file that can be safely deleted during cleanup.
pub fn is_junk_file(name: &str) -> (r: bool)
    ensures
        r == is_junk_spec(name@),
{
    if name.unicode_len() > 0 && name.get_char(0) == '.' {
        return true;
    }
    eq_ignore_case(name, "Thumbs.db") || eq_ignore_case(name, "desktop.ini") || eq_ignore_case(
        name,
        "ehthumbs.db",
    )
}

} // verus!
