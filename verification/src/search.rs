//! Derived match indices over one tree snapshot.
//!
//! A [`SearchFilter`] marks, for every node, whether the node itself
//! matches a query (case-insensitively, against its name and then its
//! full path) and whether anything in its subtree does. It is built from
//! an immutable tree and a needle and must be rebuilt when either
//! changes. Callers treat a blank needle as "no filter": every node is
//! then to be shown, not none.

use vstd::prelude::*;

use crate::model::{arena_wf, parent_idx, NodeId, Tree, TreeNode};
use crate::text::{contains_seq, lower_seq, lowercase, str_contains};

verus! {

/// Whether the node itself matches the needle: case-insensitive substring
/// of its name, or of its full path.
pub open spec fn direct_match(needle: Seq<char>, node: TreeNode) -> bool {
    contains_seq(lower_seq(node.name@), lower_seq(needle)) || contains_seq(
        lower_seq(node.path@),
        lower_seq(needle),
    )
}

/// Whether some child of node `i` has its subtree bit set in `sub`.
pub open spec fn child_match(ns: Seq<TreeNode>, sub: Seq<bool>, i: int) -> bool {
    exists|k: int|
        0 <= k < ns[i].children.len() && sub[(#[trigger] ns[i].children[k]).0 as int]
}

/// Bitsets over the node indices of one tree snapshot: per-node and
/// per-subtree match marks for one needle.
pub struct SearchFilter {
    pub direct_matches: Vec<bool>,
    pub subtree_matches: Vec<bool>,
}

impl SearchFilter {
    /// Whether the node itself matched.
    pub fn matches_node(&self, id: NodeId) -> (r: bool)
        requires
            id.0 < self.direct_matches@.len(),
        ensures
            r == self.direct_matches@[id.0 as int],
    {
        let n = self.direct_matches.len();
        let i = id.0 as usize;
        self.direct_matches[i]
    }

    /// Whether the node or anything below it matched.
    pub fn matches_subtree(&self, id: NodeId) -> (r: bool)
        requires
            id.0 < self.subtree_matches@.len(),
        ensures
            r == self.subtree_matches@[id.0 as int],
    {
        let n = self.subtree_matches.len();
        let i = id.0 as usize;
        self.subtree_matches[i]
    }

    /// Builds both bitsets for `needle` over `tree`.
    ///
    /// The direct pass marks each node by [`direct_match`]; the subtree
    /// pass then propagates marks upwards, so that a node's subtree bit
    /// is its own bit or any child's subtree bit. An empty tree yields
    /// empty bitsets; an empty needle matches every node.
    pub fn build(needle: &str, tree: &Tree) -> (r: SearchFilter)
        requires
            tree.nodes@.len() == 0 || arena_wf(tree.nodes@),
        ensures
            r.direct_matches@.len() == tree.nodes@.len(),
            r.subtree_matches@.len() == tree.nodes@.len(),
            forall|i: int|
                0 <= i < tree.nodes@.len() ==> r.direct_matches@[i] == direct_match(
                    needle@,
                    #[trigger] tree.nodes@[i],
                ),
            forall|i: int|
                0 <= i < tree.nodes@.len() ==> r.subtree_matches@[i] == (r.direct_matches@[i]
                    || child_match(tree.nodes@, r.subtree_matches@, i)),
    {
        let ghost ns = tree.nodes@;
        let needle_lc = lowercase(needle);
        let n = tree.nodes.len();
        let mut direct: Vec<bool> = Vec::new();
        let mut i: usize = 0;
        while i < n
            invariant
                i <= n,
                n == ns.len(),
                ns == tree.nodes@,
                needle_lc@ == lower_seq(needle@),
                direct@.len() == i,
                forall|j: int|
                    0 <= j < i ==> direct@[j] == direct_match(needle@, #[trigger] ns[j]),
            decreases n - i,
        {
            let name_lc = lowercase(tree.nodes[i].name.as_str());
            let mut hit = str_contains(name_lc.as_str(), needle_lc.as_str());
            if !hit {
                let path_lc = lowercase(tree.nodes[i].path.as_str());
                hit = str_contains(path_lc.as_str(), needle_lc.as_str());
            }
            direct.push(hit);
            i = i + 1;
        }
        let mut subtree: Vec<bool> = vec![false; n];
        let mut i2: usize = n;
        while i2 > 0
            invariant
                i2 <= n,
                n == ns.len(),
                ns == tree.nodes@,
                ns.len() == 0 || arena_wf(ns),
                direct@.len() == n,
                subtree@.len() == n,
                forall|j: int|
                    0 <= j < n ==> direct@[j] == direct_match(needle@, #[trigger] ns[j]),
                forall|j: int|
                    i2 <= j < n ==> subtree@[j] == (direct@[j] || child_match(ns, subtree@, j)),
            decreases i2,
        {
            i2 = i2 - 1;
            let ghost sub_pre = subtree@;
            let mut hit = direct[i2];
            let ghost own = direct@[i2 as int];
            let m = tree.nodes[i2].children.len();
            let mut k: usize = 0;
            while k < m
                invariant
                    k <= m,
                    0 <= i2 < n,
                    n == ns.len(),
                    ns == tree.nodes@,
                    arena_wf(ns),
                    m == ns[i2 as int].children.len(),
                    subtree@.len() == n,
                    subtree@ == sub_pre,
                    hit == (own || exists|k2: int|
                        0 <= k2 < k && subtree@[(#[trigger] ns[i2 as int].children[k2]).0 as int]),
                decreases m - k,
            {
                let c = tree.nodes[i2].children[k];
                proof {
                    assert(0 <= (ns[i2 as int].children[k as int]).0 < ns.len());
                }
                if subtree[c.0 as usize] {
                    hit = true;
                }
                proof {
                    if subtree@[(ns[i2 as int].children[k as int]).0 as int] {
                        assert(subtree@[(ns[i2 as int].children[k as int]).0 as int]);
                    }
                }
                k = k + 1;
            }
            subtree[i2] = hit;
            proof {
                // Every child of `i2` stands at a larger index, so its bit
                // survives this write; bits above `i2` are untouched.
                assert forall|j: int|
                    i2 <= j < n implies subtree@[j] == (direct@[j] || child_match(
                    ns,
                    subtree@,
                    j,
                )) by {
                    if j == i2 as int {
                        assert forall|k2: int|
                            0 <= k2 < ns[j].children.len() implies subtree@[(
                        #[trigger] ns[j].children[k2]).0 as int] == sub_pre[(
                        ns[j].children[k2]).0 as int] by {
                            assert(parent_idx(ns[(ns[j].children[k2]).0 as int]) == j);
                            assert(0 <= parent_idx(ns[(ns[j].children[k2]).0 as int])
                                < (ns[j].children[k2]).0 as int);
                        }
                        assert(child_match(ns, subtree@, j) == child_match(ns, sub_pre, j));
                    } else {
                        assert(sub_pre[j] == (direct@[j] || child_match(ns, sub_pre, j)));
                        assert forall|k2: int|
                            0 <= k2 < ns[j].children.len() implies subtree@[(
                        #[trigger] ns[j].children[k2]).0 as int] == sub_pre[(
                        ns[j].children[k2]).0 as int] by {
                            assert(parent_idx(ns[(ns[j].children[k2]).0 as int]) == j);
                            assert(0 <= ns[j].children[k2].0 < ns.len());
                            assert((ns[j].children[k2]).0 > j);
                        }
                        assert(child_match(ns, subtree@, j) == child_match(ns, sub_pre, j));
                    }
                }
            }
        }
        SearchFilter { direct_matches: direct, subtree_matches: subtree }
    }
}

/// The quiet interval a needle must rest before its filter is rebuilt.
pub const REBUILD_IDLE_MILLIS: u64 = 100;

/// Whether the search filter should be rebuilt now: only once the idle
/// interval has passed since the needle last changed, and never while the
/// built filter already corresponds to the current needle and to a tree
/// of the same node count. This bounds rebuild work during rapid typing
/// without leaving a stale filter across a rescan.
pub fn should_rebuild_filter(
    needle: &String,
    built_needle: &String,
    built_node_count: usize,
    node_count: usize,
    millis_since_change: u64,
) -> (r: bool)
    ensures
        r == (millis_since_change >= REBUILD_IDLE_MILLIS && !(needle@ == built_needle@
            && built_node_count == node_count)),
{
    millis_since_change >= REBUILD_IDLE_MILLIS && !(*needle == *built_needle && built_node_count
        == node_count)
}

/// A fuzzy match score between a query and a candidate, or nothing when
/// the query's characters do not occur in order.
pub uninterp spec fn fuzzy_score_of(needle: Seq<char>, hay: Seq<char>) -> Option<i64>;

/// Relies on fuzzy_matcher's `SkimMatcherV2::fuzzy_match` with its
/// default configuration: a deterministic score computed from the two
/// texts alone.
#[verifier::external_body]
pub fn fuzzy_score(needle: &str, hay: &str) -> (r: Option<i64>)
    ensures
        r == fuzzy_score_of(needle@, hay@),
{
    let m = fuzzy_matcher::skim::SkimMatcherV2::default();
    fuzzy_matcher::FuzzyMatcher::fuzzy_match(&m, hay, needle)
}

} // verus!
