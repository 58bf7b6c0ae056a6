//! A textual model of filesystem paths.
//!
//! The library stores every path as plain text with `/` as the separator.
//! A path lies *under* a root when it extends the root by a separator and a
//! well-formed relative part: non-empty, with no leading, trailing or
//! doubled separator. Callers that collect paths from a filesystem
//! normalise them to this shape (in particular, a bare `/` root is passed
//! as the empty string).

use vstd::prelude::*;

verus! {

/// The index of the last `/` in `s`, or -1 when `s` has none.
pub open spec fn last_slash(s: Seq<char>) -> int
    decreases s.len(),
{
    if s.len() == 0 {
        -1
    } else if s[s.len() - 1] == '/' {
        s.len() - 1
    } else {
        last_slash(s.drop_last())
    }
}

/// Everything before the last `/`.
pub open spec fn parent_of(p: Seq<char>) -> Seq<char>
    recommends
        last_slash(p) >= 0,
{
    p.subrange(0, last_slash(p))
}

/// Everything after the last `/`; the whole text when there is none.
pub open spec fn name_of(p: Seq<char>) -> Seq<char> {
    if last_slash(p) >= 0 {
        p.subrange(last_slash(p) + 1, p.len() as int)
    } else {
        p
    }
}

/// No two adjacent separators anywhere in `s`.
pub open spec fn no_doubled_slash(s: Seq<char>) -> bool {
    forall|i: int| 0 <= i < s.len() - 1 ==> !(s[i] == '/' && #[trigger] s[i + 1] == '/')
}

/// A well-formed relative part: non-empty and with no separator at either
/// end nor doubled within.
pub open spec fn rel_ok(s: Seq<char>) -> bool {
    &&& s.len() > 0
    &&& s[0] != '/'
    &&& s[s.len() - 1] != '/'
    &&& no_doubled_slash(s)
}

/// `p` lies strictly under `root`: it is `root`, a separator, and a
/// well-formed relative part.
pub open spec fn path_under(root: Seq<char>, p: Seq<char>) -> bool {
    &&& p.len() > root.len() + 1
    &&& p.subrange(0, root.len() as int) == root
    &&& p[root.len() as int] == '/'
    &&& rel_ok(p.subrange(root.len() as int + 1, p.len() as int))
}

/// `last_slash` is the largest index holding a separator.
pub proof fn lemma_last_slash(s: Seq<char>)
    ensures
        -1 <= last_slash(s) < s.len(),
        last_slash(s) == -1 ==> forall|i: int| 0 <= i < s.len() ==> s[i] != '/',
        last_slash(s) >= 0 ==> s[last_slash(s)] == '/',
        forall|i: int| last_slash(s) < i < s.len() ==> s[i] != '/',
    decreases s.len(),
{
    if s.len() > 0 && s[s.len() - 1] != '/' {
        let t = s.drop_last();
        lemma_last_slash(t);
        assert(forall|i: int| 0 <= i < t.len() ==> #[trigger] s[i] == t[i]);
        if last_slash(t) >= 0 {
            assert(s[last_slash(t)] == t[last_slash(t)]);
        }
        assert forall|i: int| last_slash(s) < i < s.len() implies s[i] != '/' by {
            if i < s.len() - 1 {
                assert(s[i] == t[i]);
            }
        }
        if last_slash(s) == -1 {
            assert forall|i: int| 0 <= i < s.len() implies s[i] != '/' by {
                if i < s.len() - 1 {
                    assert(s[i] == t[i]);
                }
            }
        }
    }
}

/// A separator at index `i` with none after it pins `last_slash` to `i`.
pub proof fn lemma_last_slash_at(s: Seq<char>, i: int)
    requires
        0 <= i < s.len(),
        s[i] == '/',
        forall|j: int| i < j < s.len() ==> s[j] != '/',
    ensures
        last_slash(s) == i,
{
    lemma_last_slash(s);
    if last_slash(s) < i {
    } else if last_slash(s) > i {
    }
}

/// Walking from a path under `root` to its parent either reaches `root`
/// itself or another, shorter path under `root`.
pub proof fn lemma_parent_under(root: Seq<char>, p: Seq<char>)
    requires
        path_under(root, p),
    ensures
        last_slash(p) > root.len() ==> path_under(root, parent_of(p)),
        last_slash(p) == root.len() ==> parent_of(p) == root,
        root.len() <= last_slash(p) < p.len() - 1,
        parent_of(p).len() < p.len(),
        name_of(p).len() > 0,
{
    lemma_last_slash(p);
    let ls = last_slash(p);
    let rl = root.len() as int;
    let s = p.subrange(rl + 1, p.len() as int);
    // The separator right after the root bounds last_slash from below; the
    // relative part's clean tail bounds it away from the end.
    assert(ls >= rl);
    assert(s[s.len() - 1] == p[p.len() - 1]);
    assert(ls < p.len() - 1);
    if ls == rl {
        assert(parent_of(p) =~= root);
    } else {
        // The character at ls lies inside the relative part.
        assert(s[ls - rl - 1] == p[ls]);
        assert(ls > rl + 1) by {
            if ls == rl + 1 {
                assert(s[0] == p[rl + 1]);
            }
        }
        let q = parent_of(p);
        assert(q.len() == ls);
        assert(q.subrange(0, rl) =~= root);
        assert(q[rl] == '/');
        let s2 = q.subrange(rl + 1, q.len() as int);
        assert(s2 =~= s.subrange(0, ls - rl - 1));
        assert(s2[0] == s[0]);
        // No separator stands right before the one at ls.
        let i0 = ls - rl - 2;
        assert(s2[s2.len() - 1] == s[i0]);
        assert(s[i0 + 1] == p[ls]);
        assert(!(s[i0] == '/' && s[i0 + 1] == '/'));
        assert(forall|i: int|
            0 <= i < s2.len() - 1 ==> !(s2[i] == '/' && #[trigger] s2[i + 1] == '/')) by {
            assert(forall|i: int|
                0 <= i < s2.len() ==> s2[i] == #[trigger] s[i]);
        }
        assert(path_under(root, q));
    }
}

/// The index of the last separator in `s`, when one exists.
pub fn last_slash_index(s: &str) -> (r: Option<usize>)
    ensures
        match r {
            Option::Some(i) => last_slash(s@) == i,
            Option::None => last_slash(s@) == -1,
        },
{
    let n = s.unicode_len();
    let mut i = n;
    while i > 0
        invariant
            i <= n,
            n == s@.len(),
            forall|j: int| i <= j < s@.len() ==> s@[j] != '/',
        decreases i,
    {
        i = i - 1;
        if s.get_char(i) == '/' {
            proof {
                lemma_last_slash_at(s@, i as int);
            }
            return Some(i);
        }
    }
    proof {
        lemma_last_slash(s@);
    }
    None
}

/// Everything before the last separator.
pub fn parent_of_path(p: &str) -> (r: String)
    requires
        last_slash(p@) >= 0,
    ensures
        r@ == parent_of(p@),
{
    let ls = match last_slash_index(p) {
        Some(i) => i,
        None => 0,  // unreachable under the precondition
    };
    proof {
        lemma_last_slash(p@);
    }
    let q = p.substring_char(0, ls);
    q.to_owned()
}

/// Everything after the last separator; the whole text when none exists.
pub fn name_of_path(p: &str) -> (r: String)
    ensures
        r@ == name_of(p@),
{
    let n = p.unicode_len();
    match last_slash_index(p) {
        Some(i) => {
            proof {
                lemma_last_slash(p@);
            }
            let q = p.substring_char(i + 1, n);
            q.to_owned()
        },
        None => p.to_owned(),
    }
}

/// Whether `p` lies strictly under `root`, in the sense of [`path_under`].
pub fn path_is_under(root: &str, p: &str) -> (r: bool)
    ensures
        r == path_under(root@, p@),
{
    let rl = root.unicode_len();
    let pl = p.unicode_len();
    if pl == 0 || pl - 1 <= rl {
        return false;
    }
    // The prefix must be the root itself.
    let mut i: usize = 0;
    while i < rl
        invariant
            i <= rl,
            rl == root@.len(),
            pl == p@.len(),
            pl > rl + 1,
            forall|j: int| 0 <= j < i ==> p@[j] == root@[j],
        decreases rl - i,
    {
        if p.get_char(i) != root.get_char(i) {
            assert(p@.subrange(0, rl as int) != root@);
            return false;
        }
        i = i + 1;
    }
    assert(p@.subrange(0, rl as int) =~= root@);
    if p.get_char(rl) != '/' {
        return false;
    }
    // The relative part must be clean: no separator at either end, none
    // doubled.
    let ghost s = p@.subrange(rl as int + 1, pl as int);
    assert(s[0] == p@[rl + 1] && s[s.len() - 1] == p@[pl - 1]);
    if p.get_char(rl + 1) == '/' || p.get_char(pl - 1) == '/' {
        return false;
    }
    let mut k: usize = rl + 1;
    while k + 1 < pl
        invariant
            rl + 1 <= k < pl,
            rl == root@.len(),
            pl == p@.len(),
            pl > rl + 1,
            s == p@.subrange(rl as int + 1, pl as int),
            forall|j: int|
                0 <= j < k - rl - 1 ==> !(s[j] == '/' && #[trigger] s[j + 1] == '/'),
        decreases pl - k,
    {
        let ghost j0 = k - rl - 1;
        assert(s[j0] == p@[k as int] && s[j0 + 1] == p@[k + 1]);
        if p.get_char(k) == '/' && p.get_char(k + 1) == '/' {
            assert(s[j0] == '/' && s[j0 + 1] == '/');
            return false;
        }
        assert(!(s[j0] == '/' && s[j0 + 1] == '/'));
        k = k + 1;
    }
    assert(no_doubled_slash(s));
    true
}

} // verus!
