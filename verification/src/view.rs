//! Presentation-side helpers: panel and export choices, and the file
//! lists a frontend keeps per tree snapshot.

use vstd::prelude::*;

use crate::model::{NodeId, NodeKind, Tree};
use crate::search::SearchFilter;

verus! {

/// Which panel a frontend shows: the directory tree or the flat file
/// list.
#[derive(Debug, Clone, Copy, PartialEq, Eq, Structural)]
pub enum ViewTab {
    Tree,
    Files,
}

/// The export renderer a frontend hands a finished tree to.
#[derive(Debug, Clone, Copy, PartialEq, Eq, Structural)]
pub enum ExportFormat {
    Csv,
    Json,
    Pdf,
}


/// The handles of all file nodes of a tree, in creation order.
pub fn collect_file_nodes(tree: &Tree) -> (r: Vec<NodeId>)
    ensures
        forall|k: int|
            0 <= k < r@.len() ==> (#[trigger] r@[k]).0 < tree.nodes@.len()
                && tree.nodes@[r@[k].0 as int].kind == NodeKind::File,
        forall|i: int|
            0 <= i < tree.nodes@.len() && (#[trigger] tree.nodes@[i]).kind == NodeKind::File
                ==> exists|k: int| 0 <= k < r@.len() && (#[trigger] r@[k]).0 == i,
        forall|k1: int, k2: int|
            0 <= k1 < k2 < r@.len() ==> (#[trigger] r@[k1]).0 < (#[trigger] r@[k2]).0,
{
    let n = tree.nodes.len();
    let mut out: Vec<NodeId> = Vec::new();
    let mut i: usize = 0;
    while i < n
        invariant
            i <= n,
            n == tree.nodes@.len(),
            forall|k: int|
                0 <= k < out@.len() ==> (#[trigger] out@[k]).0 < i
                    && tree.nodes@[out@[k].0 as int].kind == NodeKind::File,
            forall|j: int|
                0 <= j < i && (#[trigger] tree.nodes@[j]).kind == NodeKind::File ==> exists|k: int|
                    0 <= k < out@.len() && (#[trigger] out@[k]).0 == j,
            forall|k1: int, k2: int|
                0 <= k1 < k2 < out@.len() ==> (#[trigger] out@[k1]).0 < (#[trigger] out@[k2]).0,
        decreases n - i,
    {
        let ghost pre = out@;
        if tree.nodes[i].kind == NodeKind::File {
            out.push(NodeId(i as u64));
            proof {
                assert(out@[out@.len() - 1].0 == i as int);
                assert forall|j: int|
                    0 <= j < i && (#[trigger] tree.nodes@[j]).kind == NodeKind::File implies
                    exists|k: int| 0 <= k < out@.len() && (#[trigger] out@[k]).0 == j by {
                    let k0 = choose|k: int| 0 <= k < pre.len() && (#[trigger] pre[k]).0 == j;
                    assert(out@[k0] == pre[k0]);
                }
            }
        }
        i = i + 1;
    }
    out
}

/// The handles among `ids` whose nodes the filter marks directly, in
/// their given order.
pub fn filter_matching(filter: &SearchFilter, ids: &Vec<NodeId>) -> (r: Vec<NodeId>)
    requires
        forall|k: int|
            0 <= k < ids@.len() ==> (#[trigger] ids@[k]).0 < filter.direct_matches@.len(),
    ensures
        r@ == ids@.filter(|id: NodeId| filter.direct_matches@[id.0 as int]),
{
    let n = ids.len();
    let mut out: Vec<NodeId> = Vec::new();
    proof {
        reveal(Seq::filter);
        assert(ids@.subrange(0, 0).filter(|id: NodeId| filter.direct_matches@[id.0 as int])
            =~= Seq::<NodeId>::empty());
    }
    let mut i: usize = 0;
    while i < n
        invariant
            i <= n,
            n == ids@.len(),
            forall|k: int|
                0 <= k < ids@.len() ==> (#[trigger] ids@[k]).0 < filter.direct_matches@.len(),
            out@ == ids@.subrange(0, i as int).filter(
                |id: NodeId| filter.direct_matches@[id.0 as int],
            ),
        decreases n - i,
    {
        let id = ids[i];
        if filter.matches_node(id) {
            out.push(id);
        }
        proof {
            reveal(Seq::filter);
            assert(ids@.subrange(0, i + 1).drop_last() =~= ids@.subrange(0, i as int));
            assert(ids@.subrange(0, i + 1).last() == ids@[i as int]);
        }
        i = i + 1;
    }
    proof {
        assert(ids@.subrange(0, n as int) =~= ids@);
    }
    out
}

} // verus!
