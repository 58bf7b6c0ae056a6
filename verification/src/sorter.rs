//! Stable ordering of sibling nodes for display and export.
//!
//! One of three keys orders a sequence of node handles: byte size
//! (largest first), name (lexicographic, smallest first) or file count
//! (largest first). The sort is stable, so handles with equal keys keep
//! their creation order.

use vstd::prelude::*;
use vstd::assert_multisets_equal;

use crate::model::{NodeId, Tree, TreeNode};
use crate::text::{lemma_lex_le_total, lemma_lex_le_trans, lex_le, str_lex_le};

verus! {

/// The key to order sibling nodes by.
#[derive(Debug, Clone, Copy, PartialEq, Eq, Structural)]
pub enum SortKey {
    Size,
    Name,
    Count,
}

/// Whether node `a` may stand before node `b` under `sort`: size and
/// file count order descending, names ascending.
pub open spec fn key_le(ns: Seq<TreeNode>, sort: SortKey, a: NodeId, b: NodeId) -> bool {
    match sort {
        SortKey::Size => ns[b.0 as int].size <= ns[a.0 as int].size,
        SortKey::Name => lex_le(ns[a.0 as int].name@, ns[b.0 as int].name@),
        SortKey::Count => ns[b.0 as int].file_count <= ns[a.0 as int].file_count,
    }
}

/// Any two nodes are ordered one way or the other.
pub proof fn lemma_key_le_total(ns: Seq<TreeNode>, sort: SortKey, a: NodeId, b: NodeId)
    ensures
        key_le(ns, sort, a, b) || key_le(ns, sort, b, a),
{
    if sort == SortKey::Name {
        lemma_lex_le_total(ns[a.0 as int].name@, ns[b.0 as int].name@);
    }
}

/// The order is transitive.
pub proof fn lemma_key_le_trans(ns: Seq<TreeNode>, sort: SortKey, a: NodeId, b: NodeId, c: NodeId)
    requires
        key_le(ns, sort, a, b),
        key_le(ns, sort, b, c),
    ensures
        key_le(ns, sort, a, c),
{
    if sort == SortKey::Name {
        lemma_lex_le_trans(ns[a.0 as int].name@, ns[b.0 as int].name@, ns[c.0 as int].name@);
    }
}

/// Executable comparison of two handles under `sort`.
fn key_le_exec(tree: &Tree, sort: SortKey, a: NodeId, b: NodeId) -> (r: bool)
    requires
        a.0 < tree.nodes@.len(),
        b.0 < tree.nodes@.len(),
    ensures
        r == key_le(tree.nodes@, sort, a, b),
{
    let n = tree.nodes.len();
    let ai = a.0 as usize;
    let bi = b.0 as usize;
    match sort {
        SortKey::Size => tree.nodes[bi].size <= tree.nodes[ai].size,
        SortKey::Name => str_lex_le(tree.nodes[ai].name.as_str(), tree.nodes[bi].name.as_str()),
        SortKey::Count => tree.nodes[bi].file_count <= tree.nodes[ai].file_count,
    }
}

/// Removing an element and putting it back elsewhere permutes a
/// sequence: the multiset of elements stands.
pub proof fn lemma_remove_insert_multiset<T>(s: Seq<T>, i: int, p: int)
    requires
        0 <= i < s.len(),
        0 <= p <= s.len() - 1,
    ensures
        s.remove(i).insert(p, s[i]).to_multiset() == s.to_multiset(),
{
    broadcast use vstd::seq_lib::group_to_multiset_ensures;

    let s1 = s.remove(i);
    let s2 = s1.insert(p, s[i]);
    assert(s1.to_multiset() =~= s.to_multiset().remove(s[i]));
    assert(s2.remove(p) =~= s1);
    assert(s2[p] == s[i]);
    assert(s2.remove(p).to_multiset() =~= s2.to_multiset().remove(s2[p]));
    assert(s2.to_multiset().contains(s[i])) by {
        assert(s2.contains(s[i]));
    }
    assert_multisets_equal!(s2.to_multiset(), s.to_multiset(), x: T => {
        if x == s[i] {
            assert(s2.to_multiset().remove(s2[p]).count(x) == s2.to_multiset().count(x) - 1);
            assert(s.to_multiset().remove(s[i]).count(x) == s.to_multiset().count(x) - 1);
            assert(s.to_multiset().contains(s[i])) by {
                assert(s.contains(s[i]));
            }
        } else {
            assert(s2.to_multiset().remove(s2[p]).count(x) == s2.to_multiset().count(x));
            assert(s.to_multiset().remove(s[i]).count(x) == s.to_multiset().count(x));
        }
    });
}

/// Sorts sibling handles in place under `sort` by insertion, which is
/// stable: the result is a permutation of the input, ordered by the key.
pub fn sort_node_ids(nodes: &mut Vec<NodeId>, tree: &Tree, sort: SortKey)
    requires
        forall|k: int| 0 <= k < old(nodes)@.len() ==> (#[trigger] old(nodes)@[k]).0
            < tree.nodes@.len(),
    ensures
        final (nodes)@.len() == old(nodes)@.len(),
        final (nodes)@.to_multiset() == old(nodes)@.to_multiset(),
        forall|k: int| 0 <= k < final (nodes)@.len() ==> (#[trigger] final (nodes)@[k]).0
            < tree.nodes@.len(),
        forall|k1: int, k2: int|
            0 <= k1 < k2 < final (nodes)@.len() ==> key_le(
                tree.nodes@,
                sort,
                final (nodes)@[k1],
                final (nodes)@[k2],
            ),
        forall|k1: int, k2: int|
            0 <= k1 < k2 < old(nodes)@.len() && key_le(
                tree.nodes@,
                sort,
                old(nodes)@[k1],
                old(nodes)@[k2],
            ) && key_le(tree.nodes@, sort, old(nodes)@[k2], old(nodes)@[k1]) ==> exists|
                j1: int,
                j2: int,
            |
                0 <= j1 < j2 < final (nodes)@.len() && final (nodes)@[j1] == old(nodes)@[k1]
                    && final (nodes)@[j2] == old(nodes)@[k2],
{
    let ghost orig = nodes@;
    let n = nodes.len();
    let mut i: usize = 1;
    while i < n
        invariant
            1 <= i,
            n == nodes@.len(),
            i <= n || n <= 1,
            nodes@.to_multiset() == orig.to_multiset(),
            forall|k: int| 0 <= k < nodes@.len() ==> (#[trigger] nodes@[k]).0 < tree.nodes@.len(),
            forall|k1: int, k2: int|
                0 <= k1 < k2 < i && k2 < n ==> key_le(
                    tree.nodes@,
                    sort,
                    nodes@[k1],
                    nodes@[k2],
                ),
            forall|k1: int, k2: int|
                0 <= k1 < k2 < orig.len() && key_le(tree.nodes@, sort, orig[k1], orig[k2])
                    && key_le(tree.nodes@, sort, orig[k2], orig[k1]) ==> exists|j1: int, j2: int|
                    0 <= j1 < j2 < nodes@.len() && nodes@[j1] == orig[k1] && nodes@[j2]
                        == orig[k2],
        decreases n - i,
    {
        let x = nodes[i];
        let mut p = i;
        while p > 0 && !key_le_exec(tree, sort, nodes[p - 1], x)
            invariant
                p <= i < n,
                n == nodes@.len(),
                x == nodes@[i as int],
                x.0 < tree.nodes@.len(),
                forall|k: int| 0 <= k < nodes@.len() ==> (#[trigger] nodes@[k]).0
                    < tree.nodes@.len(),
                forall|k: int| p <= k < i ==> key_le(tree.nodes@, sort, x, #[trigger] nodes@[k]),
                forall|k: int|
                    p <= k < i ==> !key_le(tree.nodes@, sort, #[trigger] nodes@[k], x),
            decreases p,
        {
            proof {
                lemma_key_le_total(tree.nodes@, sort, nodes@[p - 1], x);
            }
            p = p - 1;
        }
        let ghost before = nodes@;
        let y = nodes.remove(i);
        nodes.insert(p, y);
        proof {
            lemma_remove_insert_multiset(before, i as int, p as int);
            let after = nodes@;
            assert(after == before.remove(i as int).insert(p as int, y));
            assert(after.to_multiset() == orig.to_multiset());
            // Pointwise placement after the shift.
            assert(forall|k: int| 0 <= k < p ==> #[trigger] after[k] == before[k]);
            assert(after[p as int] == x);
            assert(forall|k: int| p < k <= i ==> #[trigger] after[k] == before[k - 1]);
            assert(forall|k: int| i < k < n ==> #[trigger] after[k] == before[k]);
            assert forall|k1: int, k2: int|
                0 <= k1 < k2 < i + 1 && k2 < n implies key_le(
                tree.nodes@,
                sort,
                after[k1],
                after[k2],
            ) by {
                if k2 < p {
                    assert(key_le(tree.nodes@, sort, before[k1], before[k2]));
                } else if k2 == p {
                    if k1 < p - 1 {
                        assert(key_le(tree.nodes@, sort, before[k1], before[p - 1]));
                        assert(key_le(tree.nodes@, sort, before[p - 1], x));
                        lemma_key_le_trans(tree.nodes@, sort, before[k1], before[p - 1], x);
                    }
                } else {
                    // after[k2] comes from the shifted block or beyond it.
                    if k1 < p {
                        assert(key_le(tree.nodes@, sort, before[k1], before[k2 - 1]));
                    } else if k1 == p {
                        assert(key_le(tree.nodes@, sort, x, before[k2 - 1]));
                    } else {
                        assert(key_le(tree.nodes@, sort, before[k1 - 1], before[k2 - 1]));
                    }
                }
            }
            // A pair with equal keys keeps its relative order: the moved
            // element never crosses an element of its own key.
            assert forall|k1: int, k2: int|
                0 <= k1 < k2 < orig.len() && key_le(tree.nodes@, sort, orig[k1], orig[k2])
                    && key_le(tree.nodes@, sort, orig[k2], orig[k1]) implies exists|
                j1: int,
                j2: int,
            |
                0 <= j1 < j2 < after.len() && after[j1] == orig[k1] && after[j2] == orig[k2] by {
                let (j1, j2) = choose|j1: int, j2: int|
                    0 <= j1 < j2 < before.len() && before[j1] == orig[k1] && before[j2]
                        == orig[k2];
                if j2 == i as int {
                    // The later element is the one being moved; the earlier
                    // one cannot sit among the strictly larger crossed block.
                    assert(!(p <= j1 < i));
                    assert(after[j1] == before[j1] && after[p as int] == before[j2]);
                    assert(0 <= j1 < p as int);
                } else if j1 == i as int {
                    // The earlier element moved down to p; the later one
                    // stands beyond i and kept its place.
                    assert(after[p as int] == before[j1] && after[j2] == before[j2]);
                } else {
                    let nj1: int = if j1 < p as int {
                        j1
                    } else if j1 < i as int {
                        j1 + 1
                    } else {
                        j1
                    };
                    let nj2: int = if j2 < p as int {
                        j2
                    } else if j2 < i as int {
                        j2 + 1
                    } else {
                        j2
                    };
                    assert(after[nj1] == before[j1] && after[nj2] == before[j2]);
                    assert(nj1 < nj2);
                }
            }
        }
        i = i + 1;
    }
}

} // verus!
