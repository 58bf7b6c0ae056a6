//! Deterministic assembly of an aggregated [`Tree`] from a flat file list.
//!
//! The builder takes the root path and the unordered list of
//! `(file path, byte size)` pairs a walk collected, materialises directory
//! nodes lazily on the way down to each file, and propagates sizes and
//! file counts to every ancestor with saturating arithmetic. Node handles
//! are assigned in creation order: the handle value records when a node
//! was appended, nothing more.

use vstd::prelude::*;

use crate::model::{
    aggregated, arena_wf, byte_contrib, cap_u128, cap_u64, file_contrib, in_subtree,
    lemma_in_subtree_congruence, lemma_in_subtree_le, lemma_in_subtree_parent,
    lemma_in_subtree_push, lemma_root_in_subtree, lemma_sums_congruence, lemma_sums_nonneg,
    lemma_sums_push, parent_idx, subtree_bytes, subtree_bytes_upto, subtree_files,
    subtree_files_upto, NodeId, NodeKind, Tree, TreeNode,
};
use crate::paths::{
    lemma_last_slash, lemma_parent_under, name_of, name_of_path, parent_of, parent_of_path,
    path_is_under, path_under,
};

verus! {

/// The `(path, size)` pairs of the file nodes of an arena, in creation
/// order.
pub open spec fn file_entries(ns: Seq<TreeNode>) -> Seq<(Seq<char>, u128)>
    decreases ns.len(),
{
    if ns.len() == 0 {
        Seq::empty()
    } else {
        file_entries(ns.drop_last()) + (if ns.last().kind == NodeKind::File {
            seq![(ns.last().path@, ns.last().size)]
        } else {
            Seq::empty()
        })
    }
}

/// The `(path, size)` pairs of an input list that lie under the root, in
/// input order; pairs elsewhere are dropped.
pub open spec fn kept_entries(root: Seq<char>, files: Seq<(String, u64)>) -> Seq<
    (Seq<char>, u128),
>
    decreases files.len(),
{
    if files.len() == 0 {
        Seq::empty()
    } else {
        kept_entries(root, files.drop_last()) + (if path_under(root, files.last().0@) {
            seq![(files.last().0@, files.last().1 as u128)]
        } else {
            Seq::empty()
        })
    }
}

/// Everything the builder maintains while the arena grows: structural
/// well-formedness, the aggregation invariant, and the relation between
/// each directory's stored path and its parent's.
pub open spec fn paths_wf(root: Seq<char>, ns: Seq<TreeNode>) -> bool {
    &&& ns[0].path@ == root
    &&& forall|i: int| 0 <= i < ns.len() ==> (#[trigger] ns[i]).name@ == name_of(ns[i].path@)
    &&& forall|i: int|
        1 <= i < ns.len() && (#[trigger] ns[i]).kind == NodeKind::Dir ==> path_under(
            root,
            ns[i].path@,
        )
    &&& forall|i: int, q: int|
        #![trigger parent_idx(ns[i]), ns[q].path]
        1 <= i < ns.len() && ns[i].kind == NodeKind::Dir && q == parent_idx(ns[i]) ==> parent_of(
            ns[i].path@,
        ) == ns[q].path@
    &&& forall|i: int, j: int|
        0 <= i < j < ns.len() && (#[trigger] ns[i]).kind == NodeKind::Dir && (
        #[trigger] ns[j]).kind == NodeKind::Dir ==> ns[i].path@ != ns[j].path@
}

pub open spec fn building(root: Seq<char>, ns: Seq<TreeNode>) -> bool {
    &&& arena_wf(ns)
    &&& aggregated(ns)
    &&& paths_wf(root, ns)
}

/// Two nodes that agree on everything but the directory aggregates; file
/// aggregates must agree.
pub open spec fn node_frame(a: TreeNode, b: TreeNode) -> bool {
    &&& b.id == a.id
    &&& b.parent == a.parent
    &&& b.path == a.path
    &&& b.name == a.name
    &&& b.kind == a.kind
    &&& b.modified == a.modified
    &&& a.kind == NodeKind::File ==> b.size == a.size && b.file_count == a.file_count
}

/// `file_entries` over a one-longer arena: the last node contributes its
/// pair exactly when it is a file.
proof fn lemma_file_entries_push(ns: Seq<TreeNode>, x: TreeNode)
    ensures
        file_entries(ns.push(x)) == file_entries(ns) + (if x.kind == NodeKind::File {
            seq![(x.path@, x.size)]
        } else {
            Seq::<(Seq<char>, u128)>::empty()
        }),
{
    assert(ns.push(x).drop_last() =~= ns);
    assert(ns.push(x).last() == x);
}

/// `file_entries` ignores directory aggregates, so arenas that agree
/// node-frame-wise agree on it.
proof fn lemma_file_entries_congruence(ns1: Seq<TreeNode>, ns2: Seq<TreeNode>)
    requires
        ns1.len() == ns2.len(),
        forall|i: int| 0 <= i < ns1.len() ==> node_frame(#[trigger] ns1[i], ns2[i]),
    ensures
        file_entries(ns1) == file_entries(ns2),
    decreases ns1.len(),
{
    if ns1.len() > 0 {
        assert(forall|i: int|
            0 <= i < ns1.len() - 1 ==> #[trigger] ns1.drop_last()[i] == ns1[i]
                && ns2.drop_last()[i] == ns2[i]);
        lemma_file_entries_congruence(ns1.drop_last(), ns2.drop_last());
        assert(node_frame(ns1[ns1.len() - 1], ns2[ns1.len() - 1]));
        if ns1.last().kind == NodeKind::File {
            assert(ns1.last().size == ns2.last().size && ns1.last().path == ns2.last().path);
            assert(ns1.last().kind == ns2.last().kind);
        }
    }
}

/// The node appended last gathers nothing from the nodes before it: none
/// of them can have it on their parent chain.
proof fn lemma_fresh_sums(ns: Seq<TreeNode>, n: int)
    requires
        ns.len() >= 1,
        n <= ns.len() - 1,
    ensures
        subtree_bytes_upto(ns, ns.len() - 1, n) == 0,
        subtree_files_upto(ns, ns.len() - 1, n) == 0,
    decreases n,
{
    if n > 0 {
        lemma_fresh_sums(ns, n - 1);
        if in_subtree(ns, ns.len() - 1, n - 1) {
            lemma_in_subtree_le(ns, ns.len() - 1, n - 1);
        }
    }
}


/// A sequence keeps its members when another element is appended.
proof fn lemma_push_contains<T>(s: Seq<T>, x: T, y: T)
    requires
        s.contains(y),
    ensures
        s.push(x).contains(y),
{
    let k = choose|k: int| 0 <= k < s.len() && s[k] == y;
    assert(s.push(x)[k] == y);
}

/// The directory node carrying `path`, when the arena has one.
fn find_dir(nodes: &Vec<TreeNode>, path: &String) -> (r: Option<usize>)
    ensures
        match r {
            Option::Some(i) => i < nodes@.len() && nodes@[i as int].kind == NodeKind::Dir
                && nodes@[i as int].path@ == path@,
            Option::None => forall|i: int|
                0 <= i < nodes@.len() && (#[trigger] nodes@[i]).kind == NodeKind::Dir
                    ==> nodes@[i].path@ != path@,
        },
{
    let n = nodes.len();
    let mut i: usize = 0;
    while i < n
        invariant
            i <= n,
            n == nodes@.len(),
            forall|j: int|
                0 <= j < i && (#[trigger] nodes@[j]).kind == NodeKind::Dir ==> nodes@[j].path@
                    != path@,
        decreases n - i,
    {
        if nodes[i].kind == NodeKind::Dir && nodes[i].path == *path {
            return Some(i);
        }
        i = i + 1;
    }
    None
}


/// The relation between an arena and the same arena grown by one fresh
/// leafless node at index `l`, linked under `p`: everything except the
/// parent's `children` list stands untouched.
pub open spec fn grown_arena(ns0: Seq<TreeNode>, ns2: Seq<TreeNode>, p: int, l: int) -> bool {
    &&& l == ns0.len()
    &&& l <= u64::MAX
    &&& ns2.len() == l + 1
    &&& 0 <= p < l
    &&& forall|i: int| #![trigger ns2[i]] 0 <= i < l && i != p ==> ns2[i] == ns0[i]
    &&& ns2[p].id == ns0[p].id
    &&& ns2[p].parent == ns0[p].parent
    &&& ns2[p].path == ns0[p].path
    &&& ns2[p].name == ns0[p].name
    &&& ns2[p].kind == ns0[p].kind
    &&& ns2[p].size == ns0[p].size
    &&& ns2[p].file_count == ns0[p].file_count
    &&& ns2[p].modified == ns0[p].modified
    &&& ns2[p].children@ == ns0[p].children@.push(NodeId(l as u64))
    &&& ns2[l].id == NodeId(l as u64)
    &&& parent_idx(ns2[l]) == p
    &&& ns2[l].children@.len() == 0
}

/// [`grown_arena`], where the new node is an empty directory.
pub open spec fn grown_by_dir(ns0: Seq<TreeNode>, ns2: Seq<TreeNode>, p: int, l: int) -> bool {
    &&& grown_arena(ns0, ns2, p, l)
    &&& ns2[l].kind == NodeKind::Dir
    &&& ns2[l].size == 0
    &&& ns2[l].file_count == 0
}

/// [`grown_arena`], where the new node is a file of `fsize` bytes.
pub open spec fn grown_by_file(
    ns0: Seq<TreeNode>,
    ns2: Seq<TreeNode>,
    p: int,
    l: int,
    fsize: u64,
) -> bool {
    &&& grown_arena(ns0, ns2, p, l)
    &&& ns2[l].kind == NodeKind::File
    &&& ns2[l].size == fsize as u128
    &&& ns2[l].file_count == 1
}

/// Two directory nodes with one path are one node.
proof fn lemma_dir_path_unique(root: Seq<char>, ns: Seq<TreeNode>, a: int, b: int)
    requires
        paths_wf(root, ns),
        0 <= a < ns.len(),
        0 <= b < ns.len(),
        ns[a].kind == NodeKind::Dir,
        ns[b].kind == NodeKind::Dir,
        ns[a].path@ == ns[b].path@,
    ensures
        a == b,
{
    if a < b {
        assert(ns[a].path@ != ns[b].path@);
    } else if b < a {
        assert(ns[b].path@ != ns[a].path@);
    }
}

/// Growing an arena by a fresh directory leaves ancestry and the
/// subtree sums of the existing nodes unchanged.
#[verifier::spinoff_prover]
proof fn lemma_grow_dir_frame(ns0: Seq<TreeNode>, ns2: Seq<TreeNode>, p: int, l: int)
    requires
        grown_by_dir(ns0, ns2, p, l),
    ensures
        forall|a: int, d: int|
            0 <= d < l ==> #[trigger] in_subtree(ns2, a, d) == in_subtree(ns0, a, d),
        forall|d: int|
            0 <= d < l ==> #[trigger] subtree_files(ns2, d) == subtree_files(ns0, d),
{
    let nsp = ns0.push(ns2[l]);
    assert(forall|i: int|
        0 <= i < ns2.len() ==> parent_idx(#[trigger] ns2[i]) == parent_idx(nsp[i]) && ns2[i].kind
            == nsp[i].kind && ns2[i].size == nsp[i].size);
    assert forall|a: int, d: int|
        0 <= d < l implies #[trigger] in_subtree(ns2, a, d) == in_subtree(ns0, a, d) by {
        lemma_in_subtree_congruence(ns2, nsp, a, d);
        lemma_in_subtree_push(ns0, ns2[l], a, d);
    }
    assert forall|d: int|
        0 <= d < l implies #[trigger] subtree_files(ns2, d) == subtree_files(ns0, d) by {
        lemma_sums_congruence(ns2, nsp, d, ns2.len() as int);
        lemma_sums_push(ns0, ns2[l], d, l);
        assert(subtree_files(nsp, d) == subtree_files_upto(nsp, d, l) + file_contrib(nsp, d, l));
        assert(file_contrib(nsp, d, l) == 0);
    }
}

/// Growing an arena by a fresh directory keeps it structurally
/// well-formed.
#[verifier::spinoff_prover]
proof fn lemma_grow_wf(ns0: Seq<TreeNode>, ns2: Seq<TreeNode>, p: int, l: int)
    requires
        arena_wf(ns0),
        grown_arena(ns0, ns2, p, l),
        ns0[p].kind == NodeKind::Dir,
        ns2[l].kind == NodeKind::File ==> ns2[l].children.len() == 0,
    ensures
        arena_wf(ns2),
{
    assert(ns2[0].kind == NodeKind::Dir && parent_idx(ns2[0]) == -1);
    assert forall|i: int| 0 <= i < ns2.len() implies (#[trigger] ns2[i].id).0 == i by {
        if i != l {
            assert(ns0[i].id.0 == i);
            if i != p {
                assert(ns2[i] == ns0[i]);
            }
        }
    }
    assert forall|i: int| 1 <= i < ns2.len() implies 0 <= #[trigger] parent_idx(ns2[i]) < i by {
        if i != l {
            assert(0 <= parent_idx(ns0[i]) < i);
            if i != p {
                assert(ns2[i] == ns0[i]);
            }
        }
    }
    assert forall|i: int, q: int|
        #![trigger parent_idx(ns2[i]), ns2[q].kind]
        1 <= i < ns2.len() && q == parent_idx(ns2[i]) implies ns2[q].kind == NodeKind::Dir by {
        if i == l {
            assert(ns2[p].kind == ns0[p].kind);
        } else {
            if i != p {
                assert(ns2[i] == ns0[i]);
            }
            assert(q == parent_idx(ns0[i]));
            assert(0 <= parent_idx(ns0[i]) < i);
            assert(ns0[q].kind == NodeKind::Dir);
            if q != p && q != l {
                assert(ns2[q] == ns0[q]);
            }
        }
    }
    assert forall|i: int, k: int|
        0 <= i < ns2.len() && 0 <= k < ns2[i].children.len() implies 0 <= (
    #[trigger] ns2[i].children[k]).0 < ns2.len() by {
        if i == p {
            if k < ns0[p].children.len() {
                assert(ns2[p].children[k] == ns0[p].children[k]);
                assert(0 <= ns0[p].children[k].0 < ns0.len());
            } else {
                assert(ns2[p].children[k] == NodeId(l as u64));
            }
        } else if i != l {
            assert(ns2[i] == ns0[i]);
            assert(0 <= ns0[i].children[k].0 < ns0.len());
        }
    }
    assert forall|i: int, k: int, c: int|
        #![trigger ns2[i].children[k], parent_idx(ns2[c])]
        0 <= i < ns2.len() && 0 <= k < ns2[i].children.len() && c == ns2[i].children[k].0 implies
        parent_idx(ns2[c]) == i by {
        if i == p && k >= ns0[p].children.len() {
            assert(ns2[p].children[k] == NodeId(l as u64));
            assert(parent_idx(ns2[l]) == p);
        } else {
            if i == p {
                assert(ns2[p].children[k] == ns0[p].children[k]);
            } else if i != l {
                assert(ns2[i] == ns0[i]);
            }
            assert(0 <= k < ns0[i].children.len() && c == ns0[i].children[k].0);
            assert(0 <= ns0[i].children[k].0 < ns0.len());
            assert(parent_idx(ns0[c]) == i);
            if c != p && c != l {
                assert(ns2[c] == ns0[c]);
            }
        }
    }
    assert forall|j: int, q: int|
        #![trigger parent_idx(ns2[j]), ns2[q].children]
        1 <= j < ns2.len() && q == parent_idx(ns2[j]) implies ns2[q].children@.contains(
        NodeId(j as u64),
    ) by {
        if j == l {
            assert(ns2[p].children@.last() == NodeId(l as u64));
            assert(ns2[p].children@.contains(NodeId(l as u64)));
        } else {
            if j != p {
                assert(ns2[j] == ns0[j]);
            }
            assert(q == parent_idx(ns0[j]));
            assert(0 <= parent_idx(ns0[j]) < j);
            assert(ns0[q].children@.contains(NodeId(j as u64)));
            if q == p {
                lemma_push_contains(ns0[p].children@, NodeId(l as u64), NodeId(j as u64));
            } else {
                assert(ns2[q] == ns0[q]);
            }
        }
    }
    assert forall|i: int, k1: int, k2: int|
        0 <= i < ns2.len() && 0 <= k1 < k2 < ns2[i].children.len() implies (
    #[trigger] ns2[i].children[k1]).0 < (#[trigger] ns2[i].children[k2]).0 by {
        if i == p {
            assert(ns2[p].children[k1] == ns0[p].children[k1]);
            if k2 < ns0[p].children.len() {
                assert(ns2[p].children[k2] == ns0[p].children[k2]);
            } else {
                assert(ns2[p].children[k2] == NodeId(l as u64));
                assert(0 <= (ns0[p].children[k1]).0 < ns0.len());
            }
        } else if i != l {
            assert(ns2[i] == ns0[i]);
        }
    }
    assert forall|i: int|
        0 <= i < ns2.len() && (#[trigger] ns2[i]).kind == NodeKind::File implies ns2[
        i
    ].children.len() == 0 by {
        if i != p && i != l {
            assert(ns2[i] == ns0[i]);
        }
    }
}

/// Growing an arena by a fresh directory moves no bytes: every directory,
/// the new one included, still carries its exact subtree totals.
#[verifier::spinoff_prover]
proof fn lemma_grow_dir_aggregated(ns0: Seq<TreeNode>, ns2: Seq<TreeNode>, p: int, l: int)
    requires
        aggregated(ns0),
        grown_by_dir(ns0, ns2, p, l),
    ensures
        aggregated(ns2),
{
    let nsp = ns0.push(ns2[l]);
    assert forall|d: int|
        0 <= d < ns2.len() && (#[trigger] ns2[d]).kind == NodeKind::Dir implies ns2[d].size
        as int == cap_u128(subtree_bytes(ns2, d)) && ns2[d].file_count as int == cap_u64(
        subtree_files(ns2, d),
    ) by {
        if d == l {
            lemma_fresh_sums(ns2, l);
            assert(subtree_bytes(ns2, l) == subtree_bytes_upto(ns2, l, l) + byte_contrib(
                ns2,
                l,
                l,
            ));
            assert(byte_contrib(ns2, l, l) == 0 && file_contrib(ns2, l, l) == 0);
        } else {
            assert(forall|i: int|
                0 <= i < ns2.len() ==> parent_idx(#[trigger] ns2[i]) == parent_idx(nsp[i]) && ns2[i].kind
                    == nsp[i].kind && ns2[i].size == nsp[i].size);
            lemma_sums_congruence(ns2, nsp, d, ns2.len() as int);
            lemma_sums_push(ns0, ns2[l], d, l);
            assert(subtree_bytes(nsp, d) == subtree_bytes_upto(nsp, d, l) + byte_contrib(
                nsp,
                d,
                l,
            ));
            assert(byte_contrib(nsp, d, l) == 0 && file_contrib(nsp, d, l) == 0);
            assert(ns2[d].size == ns0[d].size && ns2[d].file_count == ns0[d].file_count);
            assert(ns0[d].kind == NodeKind::Dir);
        }
    }
    assert(forall|j: int|
        0 <= j < ns2.len() && (#[trigger] ns2[j]).kind == NodeKind::File ==> ns2[j].file_count
            == 1);
}

/// Growing an arena appends the new node's entry when it is a file and
/// leaves the collected entries untouched when it is a directory.
#[verifier::spinoff_prover]
proof fn lemma_grow_entries(ns0: Seq<TreeNode>, ns2: Seq<TreeNode>, p: int, l: int)
    requires
        grown_arena(ns0, ns2, p, l),
    ensures
        file_entries(ns2) == file_entries(ns0) + (if ns2[l].kind == NodeKind::File {
            seq![(ns2[l].path@, ns2[l].size)]
        } else {
            Seq::<(Seq<char>, u128)>::empty()
        }),
{
    let nsp = ns0.push(ns2[l]);
    lemma_file_entries_push(ns0, ns2[l]);
    assert forall|i: int| 0 <= i < ns2.len() implies node_frame(#[trigger] nsp[i], ns2[i]) by {
        if i != p && i != l {
            assert(ns2[i] == ns0[i] && nsp[i] == ns0[i]);
        } else if i == p {
            assert(nsp[p] == ns0[p]);
        } else {
            assert(nsp[l] == ns2[l]);
        }
    }
    lemma_file_entries_congruence(nsp, ns2);
    if ns2[l].kind == NodeKind::File {
        assert(file_entries(ns2) =~= file_entries(ns0) + seq![(ns2[l].path@, ns2[l].size)]);
    } else {
        assert(file_entries(ns2) =~= file_entries(ns0));
    }
}

/// Growing an arena by a fresh directory whose path hangs under its
/// parent keeps the path bookkeeping.
#[verifier::spinoff_prover]
proof fn lemma_grow_paths(
    root: Seq<char>,
    ns0: Seq<TreeNode>,
    ns2: Seq<TreeNode>,
    p: int,
    l: int,
)
    requires
        paths_wf(root, ns0),
        grown_arena(ns0, ns2, p, l),
        ns0[p].kind == NodeKind::Dir,
        forall|i: int| 1 <= i < ns0.len() ==> 0 <= #[trigger] parent_idx(ns0[i]) < i,
        ns2[l].name@ == name_of(ns2[l].path@),
        ns2[l].kind == NodeKind::Dir ==> path_under(root, ns2[l].path@) && ns0[p].path@
            == parent_of(ns2[l].path@) && (forall|i: int|
            0 <= i < ns0.len() && (#[trigger] ns0[i]).kind == NodeKind::Dir ==> ns0[i].path@
                != ns2[l].path@),
    ensures
        paths_wf(root, ns2),
{
    assert(ns2[0].path@ == root);
    assert forall|i: int|
        0 <= i < ns2.len() implies (#[trigger] ns2[i]).name@ == name_of(ns2[i].path@) by {
        if i != p && i != l {
            assert(ns2[i] == ns0[i]);
        } else if i == p {
            assert(ns0[p].name@ == name_of(ns0[p].path@));
        }
    }
    assert forall|i: int|
        1 <= i < ns2.len() && (#[trigger] ns2[i]).kind == NodeKind::Dir implies path_under(
        root,
        ns2[i].path@,
    ) by {
        if i != l {
            if i != p {
                assert(ns2[i] == ns0[i]);
            }
            assert(path_under(root, ns0[i].path@));
        }
    }
    assert forall|i: int, q: int|
        #![trigger parent_idx(ns2[i]), ns2[q].path]
        1 <= i < ns2.len() && ns2[i].kind == NodeKind::Dir && q == parent_idx(ns2[i]) implies
        parent_of(ns2[i].path@) == ns2[q].path@ by {
        if i == l {
            assert(ns2[p].path == ns0[p].path);
        } else {
            if i != p {
                assert(ns2[i] == ns0[i]);
            }
            assert(q == parent_idx(ns0[i]) && ns0[i].kind == NodeKind::Dir);
            assert(parent_of(ns0[i].path@) == ns0[q].path@);
            assert(0 <= parent_idx(ns0[i]) < i);
            if q != p {
                assert(ns2[q] == ns0[q]);
            }
        }
    }
    assert forall|i: int, j: int|
        0 <= i < j < ns2.len() && (#[trigger] ns2[i]).kind == NodeKind::Dir && (
        #[trigger] ns2[j]).kind == NodeKind::Dir implies ns2[i].path@ != ns2[j].path@ by {
        assert(ns2[i].path == ns0[i].path);
        if j != l {
            assert(ns2[j].path == ns0[j].path && ns0[j].kind == NodeKind::Dir);
            assert(ns0[i].path@ != ns0[j].path@);
        } else {
            assert(ns0[i].kind == NodeKind::Dir ==> ns0[i].path@ != ns2[l].path@);
        }
    }
}

/// Growing an arena by a fresh directory whose path hangs under its
/// parent keeps the whole builder invariant.
#[verifier::spinoff_prover]
proof fn lemma_grow_dir_building(
    root: Seq<char>,
    ns0: Seq<TreeNode>,
    ns2: Seq<TreeNode>,
    p: int,
    l: int,
)
    requires
        building(root, ns0),
        grown_by_dir(ns0, ns2, p, l),
        ns0[p].kind == NodeKind::Dir,
        path_under(root, ns2[l].path@),
        ns0[p].path@ == parent_of(ns2[l].path@),
        ns2[l].name@ == name_of(ns2[l].path@),
        forall|i: int|
            0 <= i < ns0.len() && (#[trigger] ns0[i]).kind == NodeKind::Dir ==> ns0[i].path@
                != ns2[l].path@,
    ensures
        building(root, ns2),
{
    lemma_grow_wf(ns0, ns2, p, l);
    lemma_grow_dir_aggregated(ns0, ns2, p, l);
    lemma_grow_paths(root, ns0, ns2, p, l);
}

/// Appends a directory node for `dpath`, linked as a child of `pid`.
/// The new node starts with empty aggregates: it has no descendants yet.
#[verifier::rlimit(60)]
#[verifier::spinoff_prover]
fn add_dir(
    nodes: &mut Vec<TreeNode>,
    pid: usize,
    dpath: String,
    Ghost(root): Ghost<Seq<char>>,
) -> (nid: usize)
    requires
        building(root, old(nodes)@),
        pid < old(nodes)@.len(),
        old(nodes)@[pid as int].kind == NodeKind::Dir,
        path_under(root, dpath@),
        old(nodes)@[pid as int].path@ == parent_of(dpath@),
        forall|i: int|
            0 <= i < old(nodes)@.len() && (#[trigger] old(nodes)@[i]).kind == NodeKind::Dir
                ==> old(nodes)@[i].path@ != dpath@,
    ensures
        building(root, final(nodes)@),
        final(nodes)@.len() == old(nodes)@.len() + 1,
        nid == old(nodes)@.len(),
        final(nodes)@[nid as int].kind == NodeKind::Dir,
        final(nodes)@[nid as int].path@ == dpath@,
        parent_idx(final(nodes)@[nid as int]) == pid,
        forall|i: int|
            0 <= i < old(nodes)@.len() && i != pid ==> final(nodes)@[i] == old(nodes)@[i],
        final(nodes)@[pid as int].path == old(nodes)@[pid as int].path,
        final(nodes)@[pid as int].kind == old(nodes)@[pid as int].kind,
        file_entries(final(nodes)@) == file_entries(old(nodes)@),
        forall|a: int, d: int|
            0 <= d < old(nodes)@.len() ==> #[trigger] in_subtree(final(nodes)@, a, d)
                == in_subtree(old(nodes)@, a, d),
        forall|d: int|
            0 <= d < old(nodes)@.len() ==> #[trigger] subtree_files(final(nodes)@, d)
                == subtree_files(old(nodes)@, d),
{
    let ghost ns0 = nodes@;
    let nid = nodes.len();
    let name = name_of_path(dpath.as_str());
    let node = TreeNode {
        id: NodeId(nid as u64),
        parent: Some(NodeId(pid as u64)),
        path: dpath,
        name,
        kind: NodeKind::Dir,
        size: 0,
        file_count: 0,
        children: Vec::new(),
        modified: None,
    };
    nodes.push(node);
    nodes[pid].children.push(NodeId(nid as u64));
    proof {
        let ns2 = nodes@;
        let l = nid as int;
        let p = pid as int;
        assert(grown_by_dir(ns0, ns2, p, l));
        lemma_grow_dir_building(root, ns0, ns2, p, l);
        lemma_grow_entries(ns0, ns2, p, l);
        lemma_grow_dir_frame(ns0, ns2, p, l);
    }
    nid
}


/// Two arenas of one shape: only directory aggregates may differ.
pub open spec fn same_shape(ns1: Seq<TreeNode>, ns2: Seq<TreeNode>) -> bool {
    &&& ns1.len() == ns2.len()
    &&& forall|i: int|
        #![trigger ns2[i]]
        0 <= i < ns1.len() ==> node_frame(ns1[i], ns2[i]) && ns2[i].children == ns1[i].children
}

/// Structural well-formedness only reads what `same_shape` preserves.
#[verifier::spinoff_prover]
proof fn lemma_wf_shape(ns1: Seq<TreeNode>, ns2: Seq<TreeNode>)
    requires
        arena_wf(ns1),
        same_shape(ns1, ns2),
    ensures
        arena_wf(ns2),
{
    assert(node_frame(ns1[0], ns2[0]));
    assert forall|i: int| 0 <= i < ns2.len() implies (#[trigger] ns2[i].id).0 == i by {
        assert(ns1[i].id.0 == i);
        assert(node_frame(ns1[i], ns2[i]));
    }
    assert forall|i: int| 1 <= i < ns2.len() implies 0 <= #[trigger] parent_idx(ns2[i]) < i by {
        assert(0 <= parent_idx(ns1[i]) < i);
        assert(node_frame(ns1[i], ns2[i]));
    }
    assert forall|i: int, q: int|
        #![trigger parent_idx(ns2[i]), ns2[q].kind]
        1 <= i < ns2.len() && q == parent_idx(ns2[i]) implies ns2[q].kind == NodeKind::Dir by {
        assert(node_frame(ns1[i], ns2[i]));
        assert(0 <= parent_idx(ns1[i]) < i);
        assert(ns1[q].kind == NodeKind::Dir);
        assert(node_frame(ns1[q], ns2[q]));
    }
    assert forall|i: int, k: int|
        0 <= i < ns2.len() && 0 <= k < ns2[i].children.len() implies 0 <= (
    #[trigger] ns2[i].children[k]).0 < ns2.len() by {
        assert(ns2[i].children == ns1[i].children);
        assert(0 <= (ns1[i].children[k]).0 < ns1.len());
    }
    assert forall|i: int, k: int, c: int|
        #![trigger ns2[i].children[k], parent_idx(ns2[c])]
        0 <= i < ns2.len() && 0 <= k < ns2[i].children.len() && c == ns2[i].children[k].0 implies
        parent_idx(ns2[c]) == i by {
        assert(ns2[i].children == ns1[i].children);
        assert(0 <= (ns1[i].children[k]).0 < ns1.len());
        assert(parent_idx(ns1[c]) == i);
        assert(node_frame(ns1[c], ns2[c]));
    }
    assert forall|j: int, q: int|
        #![trigger parent_idx(ns2[j]), ns2[q].children]
        1 <= j < ns2.len() && q == parent_idx(ns2[j]) implies ns2[q].children@.contains(
        NodeId(j as u64),
    ) by {
        assert(node_frame(ns1[j], ns2[j]));
        assert(0 <= parent_idx(ns1[j]) < j);
        assert(ns1[q].children@.contains(NodeId(j as u64)));
        assert(ns2[q].children == ns1[q].children);
    }
    assert forall|i: int, k1: int, k2: int|
        0 <= i < ns2.len() && 0 <= k1 < k2 < ns2[i].children.len() implies (
    #[trigger] ns2[i].children[k1]).0 < (#[trigger] ns2[i].children[k2]).0 by {
        assert(ns2[i].children == ns1[i].children);
        assert((ns1[i].children[k1]).0 < (ns1[i].children[k2]).0);
    }
    assert forall|i: int|
        0 <= i < ns2.len() && (#[trigger] ns2[i]).kind == NodeKind::File implies ns2[
        i
    ].children.len() == 0 by {
        assert(node_frame(ns1[i], ns2[i]));
        assert(ns1[i].kind == NodeKind::File ==> ns1[i].children.len() == 0);
    }
}

/// The path bookkeeping only reads what `same_shape` preserves.
#[verifier::spinoff_prover]
proof fn lemma_paths_shape(root: Seq<char>, ns1: Seq<TreeNode>, ns2: Seq<TreeNode>)
    requires
        paths_wf(root, ns1),
        same_shape(ns1, ns2),
        forall|i: int| 1 <= i < ns1.len() ==> 0 <= #[trigger] parent_idx(ns1[i]) < i,
        ns1.len() >= 1,
    ensures
        paths_wf(root, ns2),
{
    assert(node_frame(ns1[0], ns2[0]));
    assert forall|i: int|
        0 <= i < ns2.len() implies (#[trigger] ns2[i]).name@ == name_of(ns2[i].path@) by {
        assert(node_frame(ns1[i], ns2[i]));
        assert(ns1[i].name@ == name_of(ns1[i].path@));
    }
    assert forall|i: int|
        1 <= i < ns2.len() && (#[trigger] ns2[i]).kind == NodeKind::Dir implies path_under(
        root,
        ns2[i].path@,
    ) by {
        assert(node_frame(ns1[i], ns2[i]));
        assert(path_under(root, ns1[i].path@));
    }
    assert forall|i: int, q: int|
        #![trigger parent_idx(ns2[i]), ns2[q].path]
        1 <= i < ns2.len() && ns2[i].kind == NodeKind::Dir && q == parent_idx(ns2[i]) implies
        parent_of(ns2[i].path@) == ns2[q].path@ by {
        assert(node_frame(ns1[i], ns2[i]));
        assert(0 <= parent_idx(ns1[i]) < i);
        assert(parent_of(ns1[i].path@) == ns1[q].path@);
        assert(node_frame(ns1[q], ns2[q]));
    }
    assert forall|i: int, j: int|
        0 <= i < j < ns2.len() && (#[trigger] ns2[i]).kind == NodeKind::Dir && (
        #[trigger] ns2[j]).kind == NodeKind::Dir implies ns2[i].path@ != ns2[j].path@ by {
        assert(node_frame(ns1[i], ns2[i]));
        assert(node_frame(ns1[j], ns2[j]));
        assert(ns1[i].path@ != ns1[j].path@);
    }
}

/// After a file is appended, ancestry and the partial sums over the old
/// prefix are as they were.
#[verifier::spinoff_prover]
proof fn lemma_grow_file_sums(ns0: Seq<TreeNode>, ns2: Seq<TreeNode>, p: int, l: int, fsize: u64)
    requires
        grown_by_file(ns0, ns2, p, l, fsize),
    ensures
        forall|a: int, d: int|
            0 <= d < l ==> #[trigger] in_subtree(ns2, a, d) == in_subtree(ns0, a, d),
        forall|d: int|
            0 <= d <= l ==> subtree_bytes_upto(ns2, d, l) == #[trigger] subtree_bytes_upto(
                ns0,
                d,
                l,
            ) && subtree_files_upto(ns2, d, l) == subtree_files_upto(ns0, d, l),
{
    let nsp = ns0.push(ns2[l]);
    assert(forall|i: int|
        0 <= i < ns2.len() ==> parent_idx(#[trigger] ns2[i]) == parent_idx(nsp[i]) && ns2[i].kind
            == nsp[i].kind && ns2[i].size == nsp[i].size);
    assert forall|a: int, d: int|
        0 <= d < l implies #[trigger] in_subtree(ns2, a, d) == in_subtree(ns0, a, d) by {
        lemma_in_subtree_congruence(ns2, nsp, a, d);
        lemma_in_subtree_push(ns0, ns2[l], a, d);
    }
    assert forall|d: int|
        0 <= d <= l implies subtree_bytes_upto(ns2, d, l) == #[trigger] subtree_bytes_upto(
        ns0,
        d,
        l,
    ) && subtree_files_upto(ns2, d, l) == subtree_files_upto(ns0, d, l) by {
        lemma_sums_congruence(ns2, nsp, d, l);
        lemma_sums_push(ns0, ns2[l], d, l);
    }
}


/// Appends a file node under `pid`, then walks the parent chain up to the
/// root, adding the file's bytes and one to every ancestor directory with
/// saturating arithmetic.
#[verifier::rlimit(60)]
#[verifier::spinoff_prover]
fn insert_file(
    nodes: &mut Vec<TreeNode>,
    pid: usize,
    fpath: String,
    fsize: u64,
    Ghost(root): Ghost<Seq<char>>,
)
    requires
        building(root, old(nodes)@),
        pid < old(nodes)@.len(),
        old(nodes)@[pid as int].kind == NodeKind::Dir,
        path_under(root, fpath@),
        old(nodes)@[pid as int].path@ == parent_of(fpath@),
    ensures
        building(root, final(nodes)@),
        final(nodes)@.len() == old(nodes)@.len() + 1,
        file_entries(final(nodes)@) == file_entries(old(nodes)@) + seq![(fpath@, fsize as u128)],
        final(nodes)@[old(nodes)@.len() as int].kind == NodeKind::File,
        forall|d: int|
            0 <= d < old(nodes)@.len() ==> (#[trigger] final(nodes)@[d]).kind
                == old(nodes)@[d].kind,
        forall|a: int, d: int|
            0 <= d < old(nodes)@.len() ==> #[trigger] in_subtree(final(nodes)@, a, d)
                == in_subtree(old(nodes)@, a, d),
        forall|d: int|
            0 <= d < old(nodes)@.len() ==> #[trigger] subtree_files(final(nodes)@, d)
                >= subtree_files(old(nodes)@, d),
        forall|d: int|
            0 <= d < old(nodes)@.len() && in_subtree(old(nodes)@, d, pid as int)
                ==> #[trigger] subtree_files(final(nodes)@, d) >= subtree_files(old(nodes)@, d)
                + 1,
{
    let ghost ns0 = nodes@;
    let l = nodes.len();
    let fname = name_of_path(fpath.as_str());
    let node = TreeNode {
        id: NodeId(l as u64),
        parent: Some(NodeId(pid as u64)),
        path: fpath,
        name: fname,
        kind: NodeKind::File,
        size: fsize as u128,
        file_count: 1,
        children: Vec::new(),
        modified: None,
    };
    nodes.push(node);
    nodes[pid].children.push(NodeId(l as u64));
    let ghost ns1 = nodes@;
    let ghost li = l as int;
    let ghost p = pid as int;
    proof {
        assert(grown_by_file(ns0, ns1, p, li, fsize));
        lemma_grow_wf(ns0, ns1, p, li);
        lemma_grow_paths(root, ns0, ns1, p, li);
        lemma_grow_entries(ns0, ns1, p, li);
        lemma_grow_file_sums(ns0, ns1, p, li, fsize);
        assert forall|d: int|
            0 <= d < ns1.len() && (#[trigger] ns1[d]).kind == NodeKind::Dir implies ns1[d].size
            as int == cap_u128(subtree_bytes_upto(ns1, d, li)) && ns1[d].file_count as int
            == cap_u64(subtree_files_upto(ns1, d, li)) by {
            if d != p {
                assert(ns1[d] == ns0[d]);
            }
            assert(ns0[d].kind == NodeKind::Dir);
            assert(ns0[d].size as int == cap_u128(subtree_bytes(ns0, d)));
            assert(subtree_bytes_upto(ns0, d, li) == subtree_bytes(ns0, d));
        }
        assert(in_subtree(ns1, p, p));
        assert(same_shape(ns1, nodes@));
    }
    let mut cur: usize = pid;
    loop
        invariant_except_break
            ns1.len() == nodes@.len(),
            li == ns1.len() - 1,
            0 <= cur < li,
            0 <= p < li,
            ns1[cur as int].kind == NodeKind::Dir,
            in_subtree(ns1, cur as int, p),
            arena_wf(ns1),
            same_shape(ns1, nodes@),
            forall|d: int|
                0 <= d < ns1.len() && (#[trigger] ns1[d]).kind == NodeKind::Dir ==> nodes@[d].size
                    as int == cap_u128(
                    subtree_bytes_upto(ns1, d, li) + (if in_subtree(ns1, d, p) && !in_subtree(
                        ns1,
                        d,
                        cur as int,
                    ) {
                        fsize as int
                    } else {
                        0
                    }),
                ) && nodes@[d].file_count as int == cap_u64(
                    subtree_files_upto(ns1, d, li) + (if in_subtree(ns1, d, p) && !in_subtree(
                        ns1,
                        d,
                        cur as int,
                    ) {
                        1int
                    } else {
                        0
                    }),
                ),
        ensures
            ns1.len() == nodes@.len(),
            same_shape(ns1, nodes@),
            forall|d: int|
                0 <= d < ns1.len() && (#[trigger] ns1[d]).kind == NodeKind::Dir ==> nodes@[d].size
                    as int == cap_u128(
                    subtree_bytes_upto(ns1, d, li) + (if in_subtree(ns1, d, p) {
                        fsize as int
                    } else {
                        0
                    }),
                ) && nodes@[d].file_count as int == cap_u64(
                    subtree_files_upto(ns1, d, li) + (if in_subtree(ns1, d, p) {
                        1int
                    } else {
                        0
                    }),
                ),
        decreases cur,
    {
        let s_new = nodes[cur].size.saturating_add(fsize as u128);
        nodes[cur].size = s_new;
        let c_new = nodes[cur].file_count.saturating_add(1);
        nodes[cur].file_count = c_new;
        proof {
            assert(in_subtree(ns1, cur as int, cur as int));
            assert(same_shape(ns1, nodes@));
        }
        if cur == 0 {
            proof {
                lemma_root_in_subtree(ns1, p);
                assert forall|d: int|
                    0 <= d < ns1.len() && (#[trigger] ns1[d]).kind == NodeKind::Dir && d != 0
                        implies !in_subtree(ns1, d, 0) by {
                    assert(parent_idx(ns1[0]) == -1);
                }
            }
            break;
        }
        let pr = match nodes[cur].parent {
            Some(x) => x.0 as usize,
            None => 0,
        };
        proof {
            assert(node_frame(ns1[cur as int], nodes@[cur as int]));
            assert(0 <= parent_idx(ns1[cur as int]) < cur as int);
            assert(pr as int == parent_idx(ns1[cur as int]));
            assert(ns1[pr as int].kind == NodeKind::Dir);
            lemma_in_subtree_parent(ns1, cur as int, p);
            if in_subtree(ns1, cur as int, pr as int) {
                lemma_in_subtree_le(ns1, cur as int, pr as int);
            }
            assert forall|d: int| 0 <= d < ns1.len() implies #[trigger] in_subtree(
                ns1,
                d,
                cur as int,
            ) == (d == cur as int || in_subtree(ns1, d, pr as int)) by {}
        }
        cur = pr;
    }
    proof {
        let nsf = nodes@;
        lemma_wf_shape(ns1, nsf);
        lemma_paths_shape(root, ns1, nsf);
        assert forall|d: int|
            0 <= d < nsf.len() && (#[trigger] nsf[d]).kind == NodeKind::Dir implies nsf[d].size
            as int == cap_u128(subtree_bytes(nsf, d)) && nsf[d].file_count as int == cap_u64(
            subtree_files(nsf, d),
        ) by {
            assert(node_frame(ns1[d], nsf[d]));
            assert(ns1[d].kind == NodeKind::Dir);
            lemma_sums_congruence(nsf, ns1, d, ns1.len() as int);
            assert(subtree_bytes(ns1, d) == subtree_bytes_upto(ns1, d, li) + byte_contrib(
                ns1,
                d,
                li,
            ));
            assert(ns1[li].kind == NodeKind::File);
            assert(d != li);
            assert(in_subtree(ns1, d, li) == in_subtree(ns1, d, p));
        }
        assert forall|j: int|
            0 <= j < nsf.len() && (#[trigger] nsf[j]).kind == NodeKind::File implies nsf[
            j
        ].file_count == 1 by {
            assert(node_frame(ns1[j], nsf[j]));
            assert(ns1[j].kind == NodeKind::File && ns1[j].file_count == 1);
        }
        assert(aggregated(nsf));
        assert(forall|i: int| 0 <= i < nsf.len() ==> node_frame(#[trigger] ns1[i], nsf[i]));
        lemma_file_entries_congruence(ns1, nsf);
        assert(file_entries(nsf) == file_entries(ns0) + seq![(ns1[li].path@, fsize as u128)]);
        // Ancestry among the old nodes stands, and each of them keeps (or,
        // on the new file's chain, gains) its file descendants.
        assert(nsf[li].kind == NodeKind::File);
        assert forall|i: int|
            0 <= i < nsf.len() implies parent_idx(#[trigger] nsf[i]) == parent_idx(ns1[i]) by {
            assert(node_frame(ns1[i], nsf[i]));
        }
        assert forall|d: int|
            0 <= d < ns0.len() implies (#[trigger] nsf[d]).kind == ns0[d].kind by {
            assert(node_frame(ns1[d], nsf[d]));
            if d != p {
                assert(ns1[d] == ns0[d]);
            }
        }
        assert forall|a: int, d: int|
            0 <= d < ns0.len() implies #[trigger] in_subtree(nsf, a, d) == in_subtree(
            ns0,
            a,
            d,
        ) by {
            lemma_in_subtree_congruence(nsf, ns1, a, d);
            assert(in_subtree(ns1, a, d) == in_subtree(ns0, a, d));
        }
        assert forall|d: int|
            0 <= d < ns0.len() implies #[trigger] subtree_files(nsf, d) >= subtree_files(ns0, d)
                && (in_subtree(ns0, d, p) ==> subtree_files(nsf, d) >= subtree_files(ns0, d)
                + 1) by {
            lemma_sums_congruence(nsf, ns1, d, ns1.len() as int);
            assert(subtree_files(ns1, d) == subtree_files_upto(ns1, d, li) + file_contrib(
                ns1,
                d,
                li,
            ));
            assert(subtree_bytes_upto(ns1, d, li) == subtree_bytes_upto(ns0, d, li));
            assert(subtree_files_upto(ns1, d, li) == subtree_files_upto(ns0, d, li));
            assert(subtree_files_upto(ns0, d, li) == subtree_files(ns0, d));
            if in_subtree(ns0, d, p) {
                assert(in_subtree(ns1, d, p));
                assert(in_subtree(ns1, d, li));
                assert(file_contrib(ns1, d, li) == 1);
            }
            assert(file_contrib(ns1, d, li) >= 0);
        }
    }
}


/// Builds a fully aggregated tree from the root path and an unordered
/// flat list of `(file path, byte size)` pairs.
///
/// Directory nodes are created lazily while the files are processed, each
/// at most once: directory paths are unique, every directory below the
/// root shelters at least one file, and the root node always exists, so
/// an empty list yields the single-node tree. A pair whose path does not
/// lie under the root (see [`path_under`]) is ignored; a filesystem walk
/// never hands one over.
#[verifier::rlimit(100)]
#[verifier::spinoff_prover]
pub fn build_tree(root: &str, files: Vec<(String, u64)>) -> (t: Tree)
    ensures
        t.wf(),
        paths_wf(root@, t.nodes@),
        t.nodes@.len() >= 1,
        t.nodes@[0].path@ == root@,
        file_entries(t.nodes@) == kept_entries(root@, files@),
        forall|d: int|
            1 <= d < t.nodes@.len() && (#[trigger] t.nodes@[d]).kind == NodeKind::Dir
                ==> subtree_files(t.nodes@, d) >= 1,
        files@.len() == 0 ==> t.nodes@.len() == 1 && t.nodes@[0].size == 0
            && t.nodes@[0].file_count == 0,
{
    let mut nodes: Vec<TreeNode> = Vec::new();
    let rname = name_of_path(root);
    let rpath = root.to_owned();
    let root_string = root.to_owned();
    nodes.push(TreeNode {
        id: NodeId(0),
        parent: None,
        path: rpath,
        name: rname,
        kind: NodeKind::Dir,
        size: 0,
        file_count: 0,
        children: Vec::new(),
        modified: None,
    });
    proof {
        let ns = nodes@;
        assert(subtree_bytes_upto(ns, 0, 1) == subtree_bytes_upto(ns, 0, 0) + byte_contrib(
            ns,
            0,
            0,
        ));
        assert(subtree_files_upto(ns, 0, 1) == subtree_files_upto(ns, 0, 0) + file_contrib(
            ns,
            0,
            0,
        ));
        assert(building(root@, ns));
        assert(file_entries(ns.drop_last()) == Seq::<(Seq<char>, u128)>::empty());
        assert(file_entries(ns) =~= Seq::<(Seq<char>, u128)>::empty());
        assert(files@.subrange(0, 0) =~= Seq::<(String, u64)>::empty());
        assert(kept_entries(root@, files@.subrange(0, 0)) =~= Seq::<(Seq<char>, u128)>::empty());
    }
    let n = files.len();
    let mut idx: usize = 0;
    while idx < n
        invariant
            n == files@.len(),
            idx <= n,
            root_string@ == root@,
            building(root@, nodes@),
            nodes@.len() >= 1,
            file_entries(nodes@) == kept_entries(root@, files@.subrange(0, idx as int)),
            forall|d: int|
                1 <= d < nodes@.len() && (#[trigger] nodes@[d]).kind == NodeKind::Dir
                    ==> subtree_files(nodes@, d) >= 1,
            idx == 0 ==> nodes@.len() == 1 && nodes@[0].size == 0 && nodes@[0].file_count == 0,
        decreases n - idx,
    {
        let fpath = files[idx].0.clone();
        let fsize = files[idx].1;
        if path_is_under(root, fpath.as_str()) {
            proof {
                lemma_parent_under(root@, fpath@);
                lemma_last_slash(fpath@);
            }
            // Collect the directory paths from the file's parent up to
            // (but not including) the root, bottom-up.
            let mut cur = parent_of_path(fpath.as_str());
            let mut chain: Vec<String> = Vec::new();
            while !(cur == root_string)
                invariant
                    root_string@ == root@,
                    path_under(root@, fpath@),
                    path_under(root@, cur@) || cur@ == root@,
                    chain@.len() == 0 ==> cur@ == parent_of(fpath@),
                    chain@.len() > 0 ==> chain@[0]@ == parent_of(fpath@) && cur@ == parent_of(
                        chain@[chain@.len() - 1]@,
                    ),
                    forall|k: int|
                        1 <= k < chain@.len() ==> (#[trigger] chain@[k])@ == parent_of(
                            chain@[k - 1]@,
                        ),
                    forall|k: int|
                        0 <= k < chain@.len() ==> path_under(root@, (#[trigger] chain@[k])@),
                decreases cur@.len(),
            {
                proof {
                    lemma_parent_under(root@, cur@);
                    lemma_last_slash(cur@);
                }
                let parent = parent_of_path(cur.as_str());
                chain.push(cur);
                cur = parent;
            }
            // Materialise the directories top-down, reusing ones that
            // already exist; `pid` tracks the directory created or found
            // last, starting from the root node.
            let ghost len0 = nodes@.len();
            let mut pid: usize = 0;
            let mut k = chain.len();
            while k > 0
                invariant
                    root_string@ == root@,
                    building(root@, nodes@),
                    nodes@.len() >= 1,
                    1 <= len0 <= nodes@.len(),
                    forall|d: int|
                        1 <= d < len0 && (#[trigger] nodes@[d]).kind == NodeKind::Dir
                            ==> subtree_files(nodes@, d) >= 1,
                    forall|d: int|
                        len0 <= d < nodes@.len() ==> (#[trigger] nodes@[d]).kind == NodeKind::Dir
                            && in_subtree(nodes@, d, pid as int),
                    file_entries(nodes@) == kept_entries(root@, files@.subrange(0, idx as int)),
                    n == files@.len(),
                    idx < n,
                    k <= chain@.len(),
                    pid < nodes@.len(),
                    nodes@[pid as int].kind == NodeKind::Dir,
                    nodes@[pid as int].path@ == (if k == chain@.len() {
                        root@
                    } else {
                        chain@[k as int]@
                    }),
                    path_under(root@, fpath@),
                    chain@.len() == 0 ==> root@ == parent_of(fpath@),
                    chain@.len() > 0 ==> chain@[0]@ == parent_of(fpath@) && root@ == parent_of(
                        chain@[chain@.len() - 1]@,
                    ),
                    forall|j: int|
                        1 <= j < chain@.len() ==> (#[trigger] chain@[j])@ == parent_of(
                            chain@[j - 1]@,
                        ),
                    forall|j: int|
                        0 <= j < chain@.len() ==> path_under(root@, (#[trigger] chain@[j])@),
                decreases k,
            {
                k = k - 1;
                let dpath = chain[k].clone();
                assert(parent_of(dpath@) == (if k + 1 == chain@.len() {
                    root@
                } else {
                    chain@[k + 1]@
                }));
                match find_dir(&nodes, &dpath) {
                    Some(i) => {
                        proof {
                            // The found directory hangs off the directory we
                            // stand on: their paths say so, and directory
                            // paths are unique.
                            let nsx = nodes@;
                            assert(nsx[i as int].path@ != root@) by {
                                assert(path_under(root@, nsx[i as int].path@));
                            }
                            assert(i as int != 0);
                            let q = parent_idx(nsx[i as int]);
                            assert(0 <= q < i as int);
                            assert(nsx[q].kind == NodeKind::Dir);
                            assert(parent_of(nsx[i as int].path@) == nsx[q].path@);
                            lemma_dir_path_unique(root@, nsx, q, pid as int);
                            assert forall|d: int|
                                len0 <= d < nsx.len() implies (#[trigger] nsx[d]).kind
                                == NodeKind::Dir && in_subtree(nsx, d, i as int) by {
                                assert(in_subtree(nsx, d, pid as int));
                            }
                        }
                        pid = i;
                    },
                    None => {
                        let ghost old_pid = pid as int;
                        let ghost pre = nodes@;
                        pid = add_dir(&mut nodes, pid, dpath, Ghost(root@));
                        proof {
                            let nsx = nodes@;
                            let nid = pid as int;
                            assert forall|d: int|
                                1 <= d < len0 && (#[trigger] nsx[d]).kind == NodeKind::Dir implies
                                subtree_files(nsx, d) >= 1 by {
                                assert(0 <= d < pre.len());
                                assert(subtree_files(nsx, d) == subtree_files(pre, d));
                                if d != old_pid {
                                    assert(nsx[d] == pre[d]);
                                }
                                assert(pre[d].kind == NodeKind::Dir);
                            }
                            assert forall|d: int|
                                len0 <= d < nsx.len() implies (#[trigger] nsx[d]).kind
                                == NodeKind::Dir && in_subtree(nsx, d, nid) by {
                                if d == nid {
                                } else {
                                    assert(0 <= d < pre.len());
                                    assert(in_subtree(pre, d, old_pid));
                                    assert(in_subtree(nsx, d, old_pid) == in_subtree(
                                        pre,
                                        d,
                                        old_pid,
                                    ));
                                    assert(parent_idx(nsx[nid]) == old_pid);
                                    if d != old_pid {
                                        assert(nsx[d] == pre[d]);
                                    }
                                }
                            }
                        }
                    },
                }
            }
            let ghost ns_pre = nodes@;
            let ghost fpid = pid as int;
            insert_file(&mut nodes, pid, fpath, fsize, Ghost(root@));
            proof {
                // Every directory still shelters at least one file: the old
                // ones kept theirs, and the ones this round created lie on
                // the new file's ancestor chain.
                let nsf = nodes@;
                assert forall|d: int|
                    1 <= d < nsf.len() && (#[trigger] nsf[d]).kind == NodeKind::Dir implies
                    subtree_files(nsf, d) >= 1 by {
                    if d < ns_pre.len() {
                        assert(0 <= d < ns_pre.len());
                        assert(nsf[d].kind == ns_pre[d].kind);
                        if d < len0 {
                            assert(subtree_files(ns_pre, d) >= 1);
                            assert(subtree_files(nsf, d) >= subtree_files(ns_pre, d));
                        } else {
                            assert(in_subtree(ns_pre, d, fpid));
                            assert(subtree_files(nsf, d) >= subtree_files(ns_pre, d) + 1);
                            lemma_sums_nonneg(ns_pre, d, ns_pre.len() as int);
                        }
                    } else {
                        assert(d == ns_pre.len() as int);
                        assert(nsf[d].kind == NodeKind::File);
                    }
                }
            }
            proof {
                let fs = files@;
                assert(fs.subrange(0, idx + 1).drop_last() =~= fs.subrange(0, idx as int));
                assert(fs.subrange(0, idx + 1).last() == fs[idx as int]);
                assert(kept_entries(root@, fs.subrange(0, idx + 1)) == kept_entries(
                    root@,
                    fs.subrange(0, idx as int),
                ) + seq![(fs[idx as int].0@, fs[idx as int].1 as u128)]);
            }
        } else {
            proof {
                let fs = files@;
                assert(fs.subrange(0, idx + 1).drop_last() =~= fs.subrange(0, idx as int));
                assert(fs.subrange(0, idx + 1).last() == fs[idx as int]);
                assert(kept_entries(root@, fs.subrange(0, idx + 1)) =~= kept_entries(
                    root@,
                    fs.subrange(0, idx as int),
                ));
            }
        }
        idx = idx + 1;
    }
    proof {
        assert(files@.subrange(0, n as int) =~= files@);
        if files@.len() == 0 {
        }
    }
    Tree { root: NodeId(0), nodes }
}

} // verus!
