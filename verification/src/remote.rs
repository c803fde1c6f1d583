//! The remote tree walk: navigating to the tracked subtree one path
//! component at a time, and accumulating the complete path-to-hash
//! manifest from tree listings. The listing endpoint may truncate a large
//! recursive result instead of erroring; a truncated listing is re-walked
//! flat, one child subtree at a time, at every nesting level where
//! truncation recurs. The walk is an explicit work stack, so call depth
//! stays bounded on very large trees.

use vstd::prelude::*;

use crate::model::{entry_views, EntryV, ManifestEntry};
use crate::paths::str_eq;

verus! {

/// The kind of one entry of a tree listing.
#[derive(Clone, Copy, PartialEq, Eq, Structural, Debug)]
pub enum TreeEntryKind {
    Blob,
    Tree,
    Other,
}

/// One entry of a remote tree listing: a path (relative to the listed
/// tree), its kind, and the content identity of what it references.
pub struct TreeEntry {
    pub path: String,
    pub kind: TreeEntryKind,
    pub sha: String,
}

/// Spec-level tree entry.
pub ghost struct TreeEntryV {
    pub path: Seq<char>,
    pub kind: TreeEntryKind,
    pub sha: Seq<char>,
}

impl View for TreeEntry {
    type V = TreeEntryV;

    open spec fn view(&self) -> TreeEntryV {
        TreeEntryV { path: self.path@, kind: self.kind, sha: self.sha@ }
    }
}

pub open spec fn tree_entry_views(es: Seq<TreeEntry>) -> Seq<TreeEntryV> {
    es.map_values(|e: TreeEntry| e@)
}

/// How a remote entry-type string maps to a kind.
pub open spec fn classify_tree_entry_spec(s: Seq<char>) -> TreeEntryKind {
    if s == "blob"@ {
        TreeEntryKind::Blob
    } else if s == "tree"@ {
        TreeEntryKind::Tree
    } else {
        TreeEntryKind::Other
    }
}

/// Classify one remote entry-type string.
pub fn classify_tree_entry(s: &str) -> (r: TreeEntryKind)
    ensures
        r == classify_tree_entry_spec(s@),
{
    if str_eq(s, "blob") {
        TreeEntryKind::Blob
    } else if str_eq(s, "tree") {
        TreeEntryKind::Tree
    } else {
        TreeEntryKind::Other
    }
}

/// The subtree reference one walk step finds: the first child tree whose
/// path is exactly the component.
pub open spec fn subtree_step_spec(es: Seq<TreeEntryV>, component: Seq<char>) -> Option<Seq<char>>
    decreases es.len(),
{
    if es.len() == 0 {
        None
    } else if es[0].path == component && es[0].kind is Tree {
        Some(es[0].sha)
    } else {
        subtree_step_spec(es.drop_first(), component)
    }
}

/// One step of navigating to the tracked subtree: find the child tree
/// named by the next path component. A missing component means the path
/// does not exist at this revision.
pub fn find_subtree_entry(entries: &Vec<TreeEntry>, component: &str) -> (r: Option<String>)
    ensures
        r is Some <==> subtree_step_spec(tree_entry_views(entries@), component@) is Some,
        r is Some ==> r.unwrap()@ == subtree_step_spec(
            tree_entry_views(entries@),
            component@,
        ).unwrap(),
{
    let ghost es = tree_entry_views(entries@);
    let n = entries.len();
    let mut i: usize = 0;
    proof {
        assert(es.skip(0) =~= es);
    }
    while i < n
        invariant
            n == entries@.len(),
            i <= n,
            es == tree_entry_views(entries@),
            subtree_step_spec(es, component@) == subtree_step_spec(es.skip(i as int), component@),
        decreases n - i,
    {
        proof {
            assert(es.skip(i as int)[0] == es[i as int]);
            assert(es.skip(i as int).drop_first() =~= es.skip(i + 1));
        }
        let is_tree = match entries[i].kind {
            TreeEntryKind::Tree => true,
            _ => false,
        };
        if is_tree && str_eq(entries[i].path.as_str(), component) {
            return Some(entries[i].sha.clone());
        }
        i += 1;
    }
    proof {
        assert(es.skip(n as int) =~= Seq::<TreeEntryV>::empty());
    }
    None
}

/// A listing entry's path joined onto the accumulated base path.
pub open spec fn join_path_spec(base: Seq<char>, p: Seq<char>) -> Seq<char> {
    if base.len() == 0 {
        p
    } else {
        base + seq!['/'] + p
    }
}

/// Join a base path and a relative path with a slash.
pub fn join_path(base: &str, p: &str) -> (r: String)
    ensures
        r@ == join_path_spec(base@, p@),
{
    if base.unicode_len() == 0 {
        String::from_str(p)
    } else {
        let res = String::from_str(base).concat("/").concat(p);
        proof {
            reveal_strlit("/");
            assert(res@ =~= join_path_spec(base@, p@));
        }
        res
    }
}

/// One pending listing request of the walk.
pub struct TreeRequest {
    pub sha: String,
    pub base_path: String,
    pub recursive: bool,
}

/// Spec-level pending request.
pub ghost struct TreeRequestV {
    pub sha: Seq<char>,
    pub base_path: Seq<char>,
    pub recursive: bool,
}

impl View for TreeRequest {
    type V = TreeRequestV;

    open spec fn view(&self) -> TreeRequestV {
        TreeRequestV { sha: self.sha@, base_path: self.base_path@, recursive: self.recursive }
    }
}

pub open spec fn tree_request_views(rs: Seq<TreeRequest>) -> Seq<TreeRequestV> {
    rs.map_values(|r: TreeRequest| r@)
}

/// The manifest entries one complete listing contributes: its blobs, each
/// under its full relative path.
pub open spec fn blob_entries_spec(es: Seq<TreeEntryV>, base: Seq<char>) -> Seq<EntryV>
    decreases es.len(),
{
    if es.len() == 0 {
        Seq::empty()
    } else {
        let rest = blob_entries_spec(es.drop_first(), base);
        if es[0].kind is Blob {
            seq![EntryV { path: join_path_spec(base, es[0].path), hash: es[0].sha }] + rest
        } else {
            rest
        }
    }
}

/// The child-subtree requests one flat listing contributes.
pub open spec fn subtree_requests_spec(es: Seq<TreeEntryV>, base: Seq<char>) -> Seq<TreeRequestV>
    decreases es.len(),
{
    if es.len() == 0 {
        Seq::empty()
    } else {
        let rest = subtree_requests_spec(es.drop_first(), base);
        if es[0].kind is Tree {
            seq![
                TreeRequestV {
                    sha: es[0].sha,
                    base_path: join_path_spec(base, es[0].path),
                    recursive: true,
                },
            ] + rest
        } else {
            rest
        }
    }
}

/// The walk state: a stack of pending listing requests and the manifest
/// entries accumulated so far.
pub struct ManifestAccumulator {
    pub pending: Vec<TreeRequest>,
    pub entries: Vec<ManifestEntry>,
}

impl ManifestAccumulator {
    /// Start a walk at the tracked subtree's reference.
    pub fn new(root_sha: String) -> (r: ManifestAccumulator)
        ensures
            tree_request_views(r.pending@) == seq![
                TreeRequestV { sha: root_sha@, base_path: Seq::<char>::empty(), recursive: true },
            ],
            r.entries@.len() == 0,
    {
        let mut pending: Vec<TreeRequest> = Vec::new();
        pending.push(
            TreeRequest { sha: root_sha, base_path: String::new(), recursive: true },
        );
        proof {
            assert(tree_request_views(pending@) =~= seq![
                TreeRequestV {
                    sha: pending@[0].sha@,
                    base_path: Seq::<char>::empty(),
                    recursive: true,
                },
            ]);
        }
        ManifestAccumulator { pending, entries: Vec::new() }
    }

    /// Take the next pending request off the stack, if any.
    pub fn next_request(&mut self) -> (r: Option<TreeRequest>)
        ensures
            old(self).pending@.len() == 0 ==> r is None && final(self).pending@
                == old(self).pending@,
            old(self).pending@.len() > 0 ==> r is Some && r.unwrap()@ == tree_request_views(
                old(self).pending@,
            ).last() && final(self).pending@ == old(self).pending@.drop_last(),
            final(self).entries@ == old(self).entries@,
    {
        let r = self.pending.pop();
        proof {
            if old(self).pending@.len() > 0 {
                assert(tree_request_views(old(self).pending@).last() == old(
                    self,
                ).pending@.last()@);
            }
        }
        r
    }

    /// Feed the listing one request produced. A truncated recursive
    /// listing is distrusted entirely: the same tree is re-queued for a
    /// flat listing. A complete recursive listing contributes all its
    /// blobs. A flat listing contributes its blobs and queues each child
    /// subtree for its own recursive listing.
    pub fn supply_listing(
        &mut self,
        request: &TreeRequest,
        truncated: bool,
        listing: &Vec<TreeEntry>,
    )
        ensures
            request.recursive && truncated ==> final(self).entries@ == old(self).entries@
                && tree_request_views(final(self).pending@) == tree_request_views(
                old(self).pending@,
            ) + seq![
                TreeRequestV {
                    sha: request.sha@,
                    base_path: request.base_path@,
                    recursive: false,
                },
            ],
            request.recursive && !truncated ==> final(self).pending@ == old(self).pending@
                && entry_views(final(self).entries@) == entry_views(old(self).entries@)
                + blob_entries_spec(tree_entry_views(listing@), request.base_path@),
            !request.recursive ==> entry_views(final(self).entries@) == entry_views(
                old(self).entries@,
            ) + blob_entries_spec(tree_entry_views(listing@), request.base_path@)
                && tree_request_views(final(self).pending@) == tree_request_views(
                old(self).pending@,
            ) + subtree_requests_spec(tree_entry_views(listing@), request.base_path@),
    {
        if request.recursive && truncated {
            let ghost prev = tree_request_views(self.pending@);
            self.pending.push(
                TreeRequest {
                    sha: request.sha.clone(),
                    base_path: request.base_path.clone(),
                    recursive: false,
                },
            );
            proof {
                assert(tree_request_views(self.pending@) =~= prev + seq![
                    TreeRequestV {
                        sha: request.sha@,
                        base_path: request.base_path@,
                        recursive: false,
                    },
                ]);
            }
            return ;
        }
        let queue_subtrees = !request.recursive;
        let ghost es = tree_entry_views(listing@);
        let ghost base = request.base_path@;
        let ghost entries0 = entry_views(self.entries@);
        let ghost pending0 = tree_request_views(self.pending@);
        let n = listing.len();
        let mut i: usize = 0;
        proof {
            assert(es.skip(0) =~= es);
            assert(entries0 + blob_entries_spec(es, base) =~= entries0 + blob_entries_spec(
                es,
                base,
            ));
        }
        while i < n
            invariant
                n == listing@.len(),
                i <= n,
                es == tree_entry_views(listing@),
                base == request.base_path@,
                entries0 + blob_entries_spec(es, base) == entry_views(self.entries@)
                    + blob_entries_spec(es.skip(i as int), base),
                queue_subtrees ==> pending0 + subtree_requests_spec(es, base)
                    == tree_request_views(self.pending@) + subtree_requests_spec(
                    es.skip(i as int),
                    base,
                ),
                !queue_subtrees ==> self.pending@ == old(self).pending@,
            decreases n - i,
        {
            proof {
                assert(es.skip(i as int)[0] == es[i as int]);
                assert(es.skip(i as int).drop_first() =~= es.skip(i + 1));
            }
            let entry = &listing[i];
            match entry.kind {
                TreeEntryKind::Blob => {
                    let ghost prev = entry_views(self.entries@);
                    let path = join_path(request.base_path.as_str(), entry.path.as_str());
                    self.entries.push(ManifestEntry { path, hash: entry.sha.clone() });
                    proof {
                        assert(entry_views(self.entries@) =~= prev + seq![
                            EntryV {
                                path: join_path_spec(base, es[i as int].path),
                                hash: es[i as int].sha,
                            },
                        ]);
                        assert(prev + (seq![
                            EntryV {
                                path: join_path_spec(base, es[i as int].path),
                                hash: es[i as int].sha,
                            },
                        ] + blob_entries_spec(es.skip(i + 1), base)) =~= entry_views(
                            self.entries@,
                        ) + blob_entries_spec(es.skip(i + 1), base));
                    }
                },
                TreeEntryKind::Tree => {
                    if queue_subtrees {
                        let ghost prev = tree_request_views(self.pending@);
                        let base_path = join_path(request.base_path.as_str(), entry.path.as_str());
                        self.pending.push(
                            TreeRequest { sha: entry.sha.clone(), base_path, recursive: true },
                        );
                        proof {
                            assert(tree_request_views(self.pending@) =~= prev + seq![
                                TreeRequestV {
                                    sha: es[i as int].sha,
                                    base_path: join_path_spec(base, es[i as int].path),
                                    recursive: true,
                                },
                            ]);
                            assert(prev + (seq![
                                TreeRequestV {
                                    sha: es[i as int].sha,
                                    base_path: join_path_spec(base, es[i as int].path),
                                    recursive: true,
                                },
                            ] + subtree_requests_spec(es.skip(i + 1), base)) =~=
                                tree_request_views(self.pending@) + subtree_requests_spec(
                                es.skip(i + 1),
                                base,
                            ));
                        }
                    }
                },
                TreeEntryKind::Other => {},
            }
            i += 1;
        }
        proof {
            assert(es.skip(n as int) =~= Seq::<TreeEntryV>::empty());
            assert(entry_views(self.entries@) + Seq::<EntryV>::empty() =~= entry_views(
                self.entries@,
            ));
            if queue_subtrees {
                assert(tree_request_views(self.pending@) + Seq::<TreeRequestV>::empty()
                    =~= tree_request_views(self.pending@));
            }
        }
    }
}

} // verus!
