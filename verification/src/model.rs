//! The arena tree produced by a completed scan.
//!
//! A `Tree` is a flat, append-only list of nodes addressed by integer
//! handles (`NodeId`). Parent and child references are stored as indices,
//! never as pointers, so the hierarchy is a strict tree with no ownership
//! cycles. Once built, a tree is immutable: every consumer (search,
//! sorting, layout, export) only reads it.

use vstd::prelude::*;

verus! {

/// An opaque handle into the arena of a [`Tree`]: the index of the node in
/// the flat node list. Handles are assigned in creation order and are only
/// meaningful within the tree instance that produced them; they record
/// construction order, not any semantic property.
#[derive(Debug, Clone, Copy, PartialEq, Eq, Structural)]
pub struct NodeId(pub u64);

impl Default for NodeId {
    fn default() -> (r: Self)
        ensures
            r.0 == 0,
    {
        NodeId(0)
    }
}

/// Aggregate totals for one directory.
#[derive(Debug, Clone)]
pub struct DirStats {
    pub bytes: u128,
    pub files: u64,
    pub dirs: u64,
}

impl Default for DirStats {
    fn default() -> (r: Self)
        ensures
            r.bytes == 0 && r.files == 0 && r.dirs == 0,
    {
        DirStats { bytes: 0, files: 0, dirs: 0 }
    }
}

/// Whether a node stands for a regular file or a directory.
#[derive(Debug, Clone, Copy, PartialEq, Eq, Structural)]
pub enum NodeKind {
    File,
    Dir,
}

/// One node of the arena. For a `File` node, `size` is the file's own byte
/// length and `file_count` is 1. For a `Dir` node, `size` and `file_count`
/// aggregate the entire descendant subtree (saturating on overflow).
///
/// Paths and names are stored as text; a path component that could not be
/// decoded is represented lossily by the caller that collected it. The
/// `modified` timestamp is seconds since the Unix epoch, when known.
#[derive(Debug, Clone)]
pub struct TreeNode {
    pub id: NodeId,
    pub parent: Option<NodeId>,
    pub path: String,
    pub name: String,
    pub kind: NodeKind,
    pub size: u128,
    pub file_count: u64,
    pub children: Vec<NodeId>,
    pub modified: Option<u64>,
}

/// The immutable result of a scan: a root handle and the arena of nodes.
#[derive(Debug, Clone)]
pub struct Tree {
    pub root: NodeId,
    pub nodes: Vec<TreeNode>,
}

impl Default for Tree {
    fn default() -> (r: Self)
        ensures
            r.root.0 == 0 && r.nodes@.len() == 0,
    {
        Tree { root: NodeId(0), nodes: Vec::new() }
    }
}

/// The index of a node's parent, or -1 for a node without one.
pub open spec fn parent_idx(n: TreeNode) -> int {
    match n.parent {
        Option::Some(p) => p.0 as int,
        Option::None => -1,
    }
}

/// Structural well-formedness of an arena whose root is node 0:
/// ids equal positions, every non-root node points to an earlier directory
/// node as its parent, and the `children` lists mirror the parent links
/// exactly, in strictly increasing (that is, creation) order.
pub open spec fn arena_wf(ns: Seq<TreeNode>) -> bool {
    &&& ns.len() >= 1
    &&& ns[0].kind == NodeKind::Dir
    &&& parent_idx(ns[0]) == -1
    &&& forall|i: int| 0 <= i < ns.len() ==> (#[trigger] ns[i].id).0 == i
    &&& forall|i: int| 1 <= i < ns.len() ==> 0 <= #[trigger] parent_idx(ns[i]) < i
    &&& forall|i: int, q: int|
        #![trigger parent_idx(ns[i]), ns[q].kind]
        1 <= i < ns.len() && q == parent_idx(ns[i]) ==> ns[q].kind == NodeKind::Dir
    &&& forall|i: int, k: int|
        0 <= i < ns.len() && 0 <= k < ns[i].children.len() ==> 0 <= (
        #[trigger] ns[i].children[k]).0 < ns.len()
    &&& forall|i: int, k: int, c: int|
        #![trigger ns[i].children[k], parent_idx(ns[c])]
        0 <= i < ns.len() && 0 <= k < ns[i].children.len() && c == ns[i].children[k].0
            ==> parent_idx(ns[c]) == i
    &&& forall|j: int, q: int|
        #![trigger parent_idx(ns[j]), ns[q].children]
        1 <= j < ns.len() && q == parent_idx(ns[j]) ==> ns[q].children@.contains(NodeId(j as u64))
    &&& forall|i: int, k1: int, k2: int|
        0 <= i < ns.len() && 0 <= k1 < k2 < ns[i].children.len() ==> (
        #[trigger] ns[i].children[k1]).0 < (#[trigger] ns[i].children[k2]).0
    &&& forall|i: int|
        0 <= i < ns.len() && (#[trigger] ns[i]).kind == NodeKind::File ==> ns[i].children.len()
            == 0
}

/// Whether node `a` lies on the parent chain of node `d` (including
/// `a == d`): `a` is an ancestor-or-self of `d`.
pub open spec fn in_subtree(ns: Seq<TreeNode>, a: int, d: int) -> bool
    decreases d,
{
    if a == d {
        true
    } else if 0 < d < ns.len() && 0 <= parent_idx(ns[d]) < d {
        in_subtree(ns, a, parent_idx(ns[d]))
    } else {
        false
    }
}

/// The bytes node `j` contributes to the subtree rooted at `a`: a file's
/// own size when the file lies below `a`, otherwise nothing.
pub open spec fn byte_contrib(ns: Seq<TreeNode>, a: int, j: int) -> int {
    if ns[j].kind == NodeKind::File && in_subtree(ns, a, j) {
        ns[j].size as int
    } else {
        0
    }
}

/// As `byte_contrib`, counting files instead of bytes.
pub open spec fn file_contrib(ns: Seq<TreeNode>, a: int, j: int) -> int {
    if ns[j].kind == NodeKind::File && in_subtree(ns, a, j) {
        1
    } else {
        0
    }
}

/// Total bytes of the files among the first `n` nodes that lie in the
/// subtree of `a`.
pub open spec fn subtree_bytes_upto(ns: Seq<TreeNode>, a: int, n: int) -> int
    decreases n,
{
    if n <= 0 {
        0
    } else {
        subtree_bytes_upto(ns, a, n - 1) + byte_contrib(ns, a, n - 1)
    }
}

/// Number of the files among the first `n` nodes that lie in the subtree
/// of `a`.
pub open spec fn subtree_files_upto(ns: Seq<TreeNode>, a: int, n: int) -> int
    decreases n,
{
    if n <= 0 {
        0
    } else {
        subtree_files_upto(ns, a, n - 1) + file_contrib(ns, a, n - 1)
    }
}

/// Total bytes of all file descendants of `a` (including `a` itself when
/// it is a file).
pub open spec fn subtree_bytes(ns: Seq<TreeNode>, a: int) -> int {
    subtree_bytes_upto(ns, a, ns.len() as int)
}

/// Number of all file descendants of `a`.
pub open spec fn subtree_files(ns: Seq<TreeNode>, a: int) -> int {
    subtree_files_upto(ns, a, ns.len() as int)
}

/// Saturation of an (unbounded) byte total at the largest storable value.
pub open spec fn cap_u128(x: int) -> int {
    if x > u128::MAX {
        u128::MAX as int
    } else {
        x
    }
}

/// Saturation of an (unbounded) file count at the largest storable value.
pub open spec fn cap_u64(x: int) -> int {
    if x > u64::MAX {
        u64::MAX as int
    } else {
        x
    }
}

/// The aggregation invariant: every directory carries the (saturated) byte
/// total and file count of its entire descendant subtree, and every file
/// counts itself exactly once.
pub open spec fn aggregated(ns: Seq<TreeNode>) -> bool {
    &&& forall|d: int|
        0 <= d < ns.len() && (#[trigger] ns[d]).kind == NodeKind::Dir ==> ns[d].size as int
            == cap_u128(subtree_bytes(ns, d)) && ns[d].file_count as int == cap_u64(
            subtree_files(ns, d),
        )
    &&& forall|j: int|
        0 <= j < ns.len() && (#[trigger] ns[j]).kind == NodeKind::File ==> ns[j].file_count == 1
}

impl Tree {
    /// Structural well-formedness plus the aggregation invariant; holds of
    /// every tree a completed build hands out.
    pub open spec fn wf(self) -> bool {
        &&& self.root.0 == 0
        &&& arena_wf(self.nodes@)
        &&& aggregated(self.nodes@)
    }
}

/// An ancestor's index never exceeds the descendant's: parent links only
/// point backwards in creation order.
pub proof fn lemma_in_subtree_le(ns: Seq<TreeNode>, a: int, d: int)
    requires
        in_subtree(ns, a, d),
    ensures
        a <= d,
    decreases d,
{
    if a != d {
        lemma_in_subtree_le(ns, a, parent_idx(ns[d]));
    }
}

/// `in_subtree` depends only on the parent links, so two arenas that agree
/// on them agree on it.
pub proof fn lemma_in_subtree_congruence(ns1: Seq<TreeNode>, ns2: Seq<TreeNode>, a: int, d: int)
    requires
        ns1.len() == ns2.len(),
        forall|i: int| 0 <= i < ns1.len() ==> parent_idx(#[trigger] ns1[i]) == parent_idx(ns2[i]),
    ensures
        in_subtree(ns1, a, d) == in_subtree(ns2, a, d),
    decreases d,
{
    if a != d && 0 < d < ns1.len() && 0 <= parent_idx(ns1[d]) < d {
        lemma_in_subtree_congruence(ns1, ns2, a, parent_idx(ns1[d]));
    }
}

/// The subtree sums depend only on the parent links, the kinds and the
/// sizes of file nodes; directory sizes may differ freely.
pub proof fn lemma_sums_congruence(ns1: Seq<TreeNode>, ns2: Seq<TreeNode>, a: int, n: int)
    requires
        ns1.len() == ns2.len(),
        forall|i: int| 0 <= i < ns1.len() ==> parent_idx(#[trigger] ns1[i]) == parent_idx(ns2[i]),
        forall|i: int| 0 <= i < ns1.len() ==> (#[trigger] ns1[i]).kind == ns2[i].kind,
        forall|i: int|
            0 <= i < ns1.len() && (#[trigger] ns1[i]).kind == NodeKind::File ==> ns1[i].size
                == ns2[i].size,
        n <= ns1.len(),
    ensures
        subtree_bytes_upto(ns1, a, n) == subtree_bytes_upto(ns2, a, n),
        subtree_files_upto(ns1, a, n) == subtree_files_upto(ns2, a, n),
    decreases n,
{
    if n > 0 {
        lemma_sums_congruence(ns1, ns2, a, n - 1);
        lemma_in_subtree_congruence(ns1, ns2, a, n - 1);
    }
}

/// Appending a node does not change ancestry among the existing nodes.
pub proof fn lemma_in_subtree_push(ns: Seq<TreeNode>, x: TreeNode, a: int, d: int)
    requires
        0 <= d < ns.len(),
    ensures
        in_subtree(ns.push(x), a, d) == in_subtree(ns, a, d),
    decreases d,
{
    if a != d && 0 < d && 0 <= parent_idx(ns[d]) < d {
        lemma_in_subtree_push(ns, x, a, parent_idx(ns[d]));
    }
}

/// Every node has the root on its parent chain.
pub proof fn lemma_root_in_subtree(ns: Seq<TreeNode>, d: int)
    requires
        forall|i: int| 1 <= i < ns.len() ==> 0 <= #[trigger] parent_idx(ns[i]) < i,
        0 <= d < ns.len(),
    ensures
        in_subtree(ns, 0, d),
    decreases d,
{
    if d > 0 {
        lemma_root_in_subtree(ns, parent_idx(ns[d]));
    }
}

/// Stepping an ancestor up its own parent link keeps it an ancestor.
pub proof fn lemma_in_subtree_parent(ns: Seq<TreeNode>, a: int, d: int)
    requires
        in_subtree(ns, a, d),
        0 < a,
        0 <= d < ns.len(),
        forall|i: int| 1 <= i < ns.len() ==> 0 <= #[trigger] parent_idx(ns[i]) < i,
    ensures
        in_subtree(ns, parent_idx(ns[a]), d),
    decreases d,
{
    if a == d {
        assert(0 <= parent_idx(ns[a]) < a);
        assert(in_subtree(ns, parent_idx(ns[a]), parent_idx(ns[a])));
    } else {
        lemma_in_subtree_parent(ns, a, parent_idx(ns[d]));
    }
}

/// The subtree sums never go below zero.
pub proof fn lemma_sums_nonneg(ns: Seq<TreeNode>, a: int, n: int)
    ensures
        subtree_bytes_upto(ns, a, n) >= 0,
        subtree_files_upto(ns, a, n) >= 0,
    decreases n,
{
    if n > 0 {
        lemma_sums_nonneg(ns, a, n - 1);
    }
}

/// Appending a node leaves the partial sums over the existing prefix
/// unchanged.
pub proof fn lemma_sums_push(ns: Seq<TreeNode>, x: TreeNode, a: int, n: int)
    requires
        0 <= n <= ns.len(),
    ensures
        subtree_bytes_upto(ns.push(x), a, n) == subtree_bytes_upto(ns, a, n),
        subtree_files_upto(ns.push(x), a, n) == subtree_files_upto(ns, a, n),
    decreases n,
{
    if n > 0 {
        lemma_sums_push(ns, x, a, n - 1);
        lemma_in_subtree_push(ns, x, a, n - 1);
    }
}


/// Decides [`arena_wf`] at run time, for callers that receive a tree
/// value without its provenance: it accepts exactly the well-formed
/// arenas.
#[verifier::rlimit(60)]
pub fn arena_wf_check(nodes: &Vec<TreeNode>) -> (r: bool)
    ensures
        r == arena_wf(nodes@),
{
    let ghost ns = nodes@;
    let n = nodes.len();
    if n == 0 {
        return false;
    }
    if !(nodes[0].kind == NodeKind::Dir) {
        return false;
    }
    if nodes[0].parent.is_some() {
        proof {
            assert(parent_idx(ns[0]) != -1);
        }
        return false;
    }
    let mut i: usize = 0;
    while i < n
        invariant
            i <= n,
            n == ns.len(),
            ns == nodes@,
            n >= 1,
            ns[0].kind == NodeKind::Dir,
            parent_idx(ns[0]) == -1,
            forall|j: int| 0 <= j < i ==> (#[trigger] ns[j].id).0 == j,
            forall|j: int| 1 <= j < i ==> 0 <= #[trigger] parent_idx(ns[j]) < j,
            forall|j: int, q: int|
                #![trigger parent_idx(ns[j]), ns[q].kind]
                1 <= j < i && q == parent_idx(ns[j]) ==> ns[q].kind == NodeKind::Dir,
            forall|j: int, k: int|
                0 <= j < i && 0 <= k < ns[j].children.len() ==> 0 <= (
                #[trigger] ns[j].children[k]).0 < ns.len(),
            forall|j: int, k: int, c: int|
                #![trigger ns[j].children[k], parent_idx(ns[c])]
                0 <= j < i && 0 <= k < ns[j].children.len() && c == ns[j].children[k].0
                    ==> parent_idx(ns[c]) == j,
            forall|j: int, q: int|
                #![trigger parent_idx(ns[j]), ns[q].children]
                1 <= j < i && q == parent_idx(ns[j]) ==> ns[q].children@.contains(
                    NodeId(j as u64),
                ),
            forall|j: int, k1: int, k2: int|
                0 <= j < i && 0 <= k1 < k2 < ns[j].children.len() ==> (
                #[trigger] ns[j].children[k1]).0 < (#[trigger] ns[j].children[k2]).0,
            forall|j: int|
                0 <= j < i && (#[trigger] ns[j]).kind == NodeKind::File ==> ns[j].children.len()
                    == 0,
        decreases n - i,
    {
        if nodes[i].id.0 != i as u64 {
            proof {
                assert(ns[i as int].id.0 != i as int);
            }
            return false;
        }
        if i >= 1 {
            let pi: usize = match nodes[i].parent {
                Some(p) => {
                    if p.0 >= i as u64 {
                        proof {
                            assert(parent_idx(ns[i as int]) >= i as int);
                        }
                        return false;
                    }
                    p.0 as usize
                },
                None => {
                    proof {
                        assert(parent_idx(ns[i as int]) == -1);
                    }
                    return false;
                },
            };
            if !(nodes[pi].kind == NodeKind::Dir) {
                proof {
                    assert(parent_idx(ns[i as int]) == pi as int);
                    assert(ns[pi as int].kind != NodeKind::Dir);
                }
                return false;
            }
            // The parent must list this node among its children.
            let pc = nodes[pi].children.len();
            let mut k: usize = 0;
            let mut found = false;
            while k < pc && !found
                invariant
                    k <= pc,
                    pc == ns[pi as int].children.len(),
                    ns == nodes@,
                    pi < n == ns.len(),
                    i < n,
                    found ==> ns[pi as int].children@.contains(NodeId(i as u64)),
                    !found ==> forall|k2: int|
                        0 <= k2 < k ==> (#[trigger] ns[pi as int].children@[k2]) != NodeId(
                            i as u64,
                        ),
                decreases pc - k,
            {
                if nodes[pi].children[k].0 == i as u64 {
                    found = true;
                    proof {
                        assert(ns[pi as int].children@[k as int] == NodeId(i as u64));
                    }
                }
                k = k + 1;
            }
            if !found {
                proof {
                    assert(parent_idx(ns[i as int]) == pi as int);
                    assert(!ns[pi as int].children@.contains(NodeId(i as u64)));
                }
                return false;
            }
        }
        // Each child must point back here, stand at a larger index, and
        // the list must strictly increase; files have no children.
        let cl = nodes[i].children.len();
        if !(nodes[i].kind == NodeKind::Dir) && cl > 0 {
            proof {
                assert(ns[i as int].kind == NodeKind::File && ns[i as int].children.len() > 0);
            }
            return false;
        }
        let mut k: usize = 0;
        while k < cl
            invariant
                k <= cl,
                cl == ns[i as int].children.len(),
                ns == nodes@,
                i < n == ns.len(),
                forall|k2: int|
                    0 <= k2 < k ==> 0 <= (#[trigger] ns[i as int].children@[k2]).0 < ns.len(),
                forall|k2: int, c: int|
                    #![trigger ns[i as int].children@[k2], parent_idx(ns[c])]
                    0 <= k2 < k && c == ns[i as int].children@[k2].0 ==> parent_idx(ns[c])
                        == i as int,
                forall|k1: int, k2: int|
                    0 <= k1 < k2 < k ==> (#[trigger] ns[i as int].children@[k1]).0 < (
                    #[trigger] ns[i as int].children@[k2]).0,
            decreases cl - k,
        {
            let c = nodes[i].children[k];
            if c.0 >= n as u64 {
                proof {
                    assert((ns[i as int].children@[k as int]).0 >= ns.len());
                }
                return false;
            }
            let ci = c.0 as usize;
            let cp: bool = match nodes[ci].parent {
                Some(p) => p.0 == i as u64,
                None => false,
            };
            if !cp {
                proof {
                    assert(parent_idx(ns[ci as int]) != i as int);
                }
                return false;
            }
            if k >= 1 {
                if !(nodes[i].children[k - 1].0 < c.0) {
                    proof {
                        assert((ns[i as int].children@[k - 1]).0 >= (
                        ns[i as int].children@[k as int]).0);
                    }
                    return false;
                }
            }
            proof {
                assert(parent_idx(ns[ci as int]) == i as int);
                assert forall|k1: int|
                    0 <= k1 < k implies (#[trigger] ns[i as int].children@[k1]).0 < (
                ns[i as int].children@[k as int]).0 by {
                    if k1 < k - 1 {
                        assert(ns[i as int].children@[k1].0 < ns[i as int].children@[k - 1].0);
                    }
                }
            }
            k = k + 1;
        }
        i = i + 1;
    }
    proof {
        assert(arena_wf(ns));
    }
    true
}

} // verus!
