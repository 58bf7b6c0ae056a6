//! Flattening a tree into renderer-ready rows.
//!
//! Export renderers and summary printers consume a completed tree as a
//! flat list of rows: path, kind, byte size, file count, folder count and
//! the formatted modification time. Only the writing of bytes to disk
//! lives outside the library.

use vstd::prelude::*;

use crate::model::{arena_wf, in_subtree, parent_idx, NodeKind, Tree, TreeNode};

verus! {

/// Whether node `j` counts as a strict descendant directory of `d`.
pub open spec fn dir_contrib(ns: Seq<TreeNode>, d: int, j: int) -> int {
    if ns[j].kind == NodeKind::Dir && in_subtree(ns, d, j) && j != d {
        1
    } else {
        0
    }
}

/// The number of strict descendant directories of `d` among the first
/// `n` nodes.
pub open spec fn dir_desc_upto(ns: Seq<TreeNode>, d: int, n: int) -> int
    decreases n,
{
    if n <= 0 {
        0
    } else {
        dir_desc_upto(ns, d, n - 1) + dir_contrib(ns, d, n - 1)
    }
}

/// The number of strict descendant directories of `d`.
pub open spec fn dir_descendants(ns: Seq<TreeNode>, d: int) -> int {
    dir_desc_upto(ns, d, ns.len() as int)
}

/// The count over a prefix never exceeds the prefix's length.
proof fn lemma_dir_desc_bound(ns: Seq<TreeNode>, d: int, n: int)
    requires
        n >= 0,
    ensures
        0 <= dir_desc_upto(ns, d, n) <= n,
    decreases n,
{
    if n > 0 {
        lemma_dir_desc_bound(ns, d, n - 1);
    }
}

/// The number of strict descendant directories of every node, by index.
/// Entries for file nodes are zero: nothing descends from a file.
#[verifier::rlimit(60)]
pub fn compute_dir_counts(tree: &Tree) -> (counts: Vec<u64>)
    requires
        tree.nodes@.len() == 0 || arena_wf(tree.nodes@),
    ensures
        counts@.len() == tree.nodes@.len(),
        forall|i: int|
            0 <= i < tree.nodes@.len() ==> #[trigger] counts@[i] as int == dir_descendants(
                tree.nodes@,
                i,
            ),
{
    let ghost ns = tree.nodes@;
    let n = tree.nodes.len();
    let mut counts: Vec<u64> = vec![0u64; n];
    if n == 0 {
        return counts;
    }
    let mut j: usize = 1;
    proof {
        assert forall|d: int| 0 <= d < n implies dir_desc_upto(ns, d, 1) == 0 by {
            assert(dir_desc_upto(ns, d, 0) == 0);
            if in_subtree(ns, d, 0) {
                crate::model::lemma_in_subtree_le(ns, d, 0);
            }
        }
    }
    while j < n
        invariant
            1 <= j <= n,
            n == ns.len(),
            ns == tree.nodes@,
            arena_wf(ns),
            counts@.len() == n,
            forall|d: int| 0 <= d < n ==> #[trigger] counts@[d] as int == dir_desc_upto(ns, d, j as int),
        decreases n - j,
    {
        if tree.nodes[j].kind == NodeKind::Dir {
            let ghost c0 = counts@;
            let ghost pj = parent_idx(ns[j as int]);
            let mut cur: usize = match tree.nodes[j].parent {
                Some(x) => x.0 as usize,
                None => 0,
            };
            proof {
                assert(0 <= parent_idx(ns[j as int]) < j as int);
                assert(cur as int == pj);
                assert(in_subtree(ns, pj, pj));
            }
            loop
                invariant_except_break
                    0 <= cur < j,
                    1 <= j < n,
                    n == ns.len(),
                    ns == tree.nodes@,
                    arena_wf(ns),
                    counts@.len() == n,
                    in_subtree(ns, cur as int, pj),
                    forall|d: int|
                        0 <= d < n ==> #[trigger] counts@[d] as int == c0[d] + (if in_subtree(
                            ns,
                            d,
                            pj,
                        ) && !in_subtree(ns, d, cur as int) {
                            1int
                        } else {
                            0
                        }),
                    forall|d: int| 0 <= d < n ==> #[trigger] c0[d] as int == dir_desc_upto(
                        ns,
                        d,
                        j as int,
                    ),
                ensures
                    n == ns.len(),
                    counts@.len() == n,
                    forall|d: int|
                        0 <= d < n ==> #[trigger] counts@[d] as int == c0[d] + (if in_subtree(
                            ns,
                            d,
                            pj,
                        ) {
                            1int
                        } else {
                            0
                        }),
                decreases cur,
            {
                proof {
                    lemma_dir_desc_bound(ns, cur as int, j as int);
                    assert(in_subtree(ns, cur as int, cur as int));
                }
                let c = counts[cur] + 1;
                counts[cur] = c;
                if cur == 0 {
                    proof {
                        crate::model::lemma_root_in_subtree(ns, pj);
                        assert forall|d: int|
                            0 <= d < n && in_subtree(ns, d, pj) && d != 0 implies !in_subtree(
                            ns,
                            d,
                            0,
                        ) by {
                            assert(parent_idx(ns[0]) == -1);
                        }
                    }
                    break ;
                }
                let pr = match tree.nodes[cur].parent {
                    Some(x) => x.0 as usize,
                    None => 0,
                };
                proof {
                    assert(0 <= parent_idx(ns[cur as int]) < cur as int);
                    assert(pr as int == parent_idx(ns[cur as int]));
                    crate::model::lemma_in_subtree_parent(ns, cur as int, pj);
                    if in_subtree(ns, cur as int, pr as int) {
                        crate::model::lemma_in_subtree_le(ns, cur as int, pr as int);
                    }
                    assert forall|d: int| 0 <= d < n implies #[trigger] in_subtree(
                        ns,
                        d,
                        cur as int,
                    ) == (d == cur as int || in_subtree(ns, d, pr as int)) by {}
                }
                cur = pr;
            }
            proof {
                assert forall|d: int| 0 <= d < n implies #[trigger] counts@[d] as int
                    == dir_desc_upto(ns, d, j + 1) by {
                    assert(dir_desc_upto(ns, d, j + 1) == dir_desc_upto(ns, d, j as int)
                        + dir_contrib(ns, d, j as int));
                    if in_subtree(ns, d, pj) {
                        crate::model::lemma_in_subtree_le(ns, d, pj);
                        assert(in_subtree(ns, d, j as int));
                    }
                    assert(in_subtree(ns, d, j as int) == (d == j as int || in_subtree(
                        ns,
                        d,
                        pj,
                    )));
                }
            }
        } else {
            proof {
                assert forall|d: int| 0 <= d < n implies #[trigger] counts@[d] as int
                    == dir_desc_upto(ns, d, j + 1) by {
                    assert(dir_contrib(ns, d, j as int) == 0);
                }
            }
        }
        j = j + 1;
    }
    counts
}


/// One flattened row of a tree, ready for a renderer.
#[derive(Debug, Clone)]
pub struct ExportRow {
    pub path: String,
    pub kind: String,
    pub size_bytes: u128,
    pub files: u64,
    pub folders: u64,
    pub modified: String,
}

/// The largest Unix timestamp handed to the calendar library: values up
/// to here stay well inside the range its conversions accept, so the
/// call below cannot panic.
pub const MAX_TIMESTAMP_SECS: u64 = 8000000000000;

/// Relies on chrono's `DateTime<Local>` formatting of a Unix timestamp as
/// `%Y-%m-%d %H:%M:%S`; the rendering depends on the machine's time zone,
/// so nothing is promised of it. Its conversion from `SystemTime` panics
/// beyond chrono's representable years, which the bound keeps out.
#[verifier::external_body]
fn format_timestamp(secs: u64) -> String
    requires
        secs <= MAX_TIMESTAMP_SECS,
{
    let t = std::time::UNIX_EPOCH + std::time::Duration::from_secs(secs);
    chrono::DateTime::<chrono::Local>::from(t).format("%Y-%m-%d %H:%M:%S").to_string()
}

/// Renders a modification timestamp for a row. An unknown time renders
/// as nothing, and so does one beyond the calendar library's range.
pub fn format_modified(modified: Option<u64>) -> (r: String)
    ensures
        modified is None ==> r@ == Seq::<char>::empty(),
        modified matches Some(secs) && secs > MAX_TIMESTAMP_SECS ==> r@ == Seq::<char>::empty(),
{
    match modified {
        Some(secs) => {
            if secs <= MAX_TIMESTAMP_SECS {
                format_timestamp(secs)
            } else {
                String::new()
            }
        },
        None => String::new(),
    }
}

/// Flattens a tree into one row per node, in arena order. A directory
/// row carries the subtree's aggregates and its folder count; a file row
/// carries no counts of its own.
pub fn build_rows(tree: &Tree) -> (rows: Vec<ExportRow>)
    requires
        tree.nodes@.len() == 0 || arena_wf(tree.nodes@),
    ensures
        rows@.len() == tree.nodes@.len(),
        forall|i: int|
            0 <= i < rows@.len() ==> (#[trigger] rows@[i]).path@ == tree.nodes@[i].path@
                && rows@[i].size_bytes == tree.nodes@[i].size,
        forall|i: int|
            0 <= i < rows@.len() && tree.nodes@[i].kind == NodeKind::File ==> (
            #[trigger] rows@[i]).kind@ == "file"@ && rows@[i].files == 0 && rows@[i].folders == 0,
        forall|i: int|
            0 <= i < rows@.len() && tree.nodes@[i].kind == NodeKind::Dir ==> (
            #[trigger] rows@[i]).kind@ == "dir"@ && rows@[i].files == tree.nodes@[i].file_count
                && rows@[i].folders as int == dir_descendants(tree.nodes@, i),
        forall|i: int|
            0 <= i < rows@.len() && tree.nodes@[i].modified is None ==> (
            #[trigger] rows@[i]).modified@ == Seq::<char>::empty(),
{
    let ghost ns = tree.nodes@;
    let dir_counts = compute_dir_counts(tree);
    let n = tree.nodes.len();
    let mut rows: Vec<ExportRow> = Vec::new();
    let mut i: usize = 0;
    while i < n
        invariant
            i <= n,
            n == ns.len(),
            ns == tree.nodes@,
            dir_counts@.len() == n,
            forall|d: int|
                0 <= d < n ==> #[trigger] dir_counts@[d] as int == dir_descendants(ns, d),
            rows@.len() == i,
            forall|k: int|
                0 <= k < i ==> (#[trigger] rows@[k]).path@ == ns[k].path@ && rows@[k].size_bytes
                    == ns[k].size,
            forall|k: int|
                0 <= k < i && ns[k].kind == NodeKind::File ==> (#[trigger] rows@[k]).kind@
                    == "file"@ && rows@[k].files == 0 && rows@[k].folders == 0,
            forall|k: int|
                0 <= k < i && ns[k].kind == NodeKind::Dir ==> (#[trigger] rows@[k]).kind@ == "dir"@
                    && rows@[k].files == ns[k].file_count && rows@[k].folders as int
                    == dir_descendants(ns, k),
            forall|k: int|
                0 <= k < i && ns[k].modified is None ==> (#[trigger] rows@[k]).modified@
                    == Seq::<char>::empty(),
        decreases n - i,
    {
        let node = &tree.nodes[i];
        let is_file = node.kind == NodeKind::File;
        let kind = if is_file {
            "file".to_owned()
        } else {
            "dir".to_owned()
        };
        let (files, folders) = if is_file {
            (0u64, 0u64)
        } else {
            (node.file_count, dir_counts[i])
        };
        let modified = format_modified(node.modified);
        rows.push(
            ExportRow {
                path: node.path.clone(),
                kind,
                size_bytes: node.size,
                files,
                folders,
                modified,
            },
        );
        i = i + 1;
    }
    rows
}

} // verus!
