//! Proportional rectangle partitioning (slice-and-dice treemap).
//!
//! The layout works on whole-number coordinates. One axis is chosen per
//! call — the longer edge of the given rectangle — and every item is
//! allocated a slice of the remaining rectangle proportional to its
//! share of the remaining weight. Degenerate slices are dropped, and the
//! walk stops once the remaining rectangle is exhausted. The produced
//! rectangles never overlap and never exceed the input rectangle's area.

use vstd::prelude::*;

use crate::model::NodeId;

verus! {

/// An axis-aligned rectangle on whole-number coordinates.
#[derive(Debug, Clone, Copy, PartialEq, Eq, Structural)]
pub struct Rect {
    pub x: u64,
    pub y: u64,
    pub w: u64,
    pub h: u64,
}

impl Default for Rect {
    fn default() -> (r: Self)
        ensures
            r.x == 0 && r.y == 0 && r.w == 0 && r.h == 0,
    {
        Rect { x: 0, y: 0, w: 0, h: 0 }
    }
}

/// One laid-out item: the node it stands for, its weight and its slice.
#[derive(Debug, Clone, Copy)]
pub struct TreemapItem {
    pub id: NodeId,
    pub weight: u64,
    pub rect: Rect,
}

/// Two rectangles with no common interior point.
pub open spec fn rect_disjoint(a: Rect, b: Rect) -> bool {
    ||| a.x + a.w <= b.x
    ||| b.x + b.w <= a.x
    ||| a.y + a.h <= b.y
    ||| b.y + b.h <= a.y
}

/// A rectangle lying entirely within another.
pub open spec fn rect_inside(inner: Rect, outer: Rect) -> bool {
    &&& outer.x <= inner.x
    &&& inner.x + inner.w <= outer.x + outer.w
    &&& outer.y <= inner.y
    &&& inner.y + inner.h <= outer.y + outer.h
}

/// The area of a rectangle.
pub open spec fn rect_area(r: Rect) -> int {
    (r.w as int) * (r.h as int)
}

/// The summed area of the laid-out slices.
pub open spec fn total_area(items: Seq<TreemapItem>) -> int
    decreases items.len(),
{
    if items.len() == 0 {
        0
    } else {
        total_area(items.drop_last()) + rect_area(items.last().rect)
    }
}

/// The summed weight of a weight list.
pub open spec fn sum_weights(items: Seq<(NodeId, u64)>) -> int
    decreases items.len(),
{
    if items.len() == 0 {
        0
    } else {
        sum_weights(items.drop_last()) + items.last().1
    }
}

/// A weight sum is bounded below by zero and above by count times the
/// largest weight.
proof fn lemma_sum_weights_bounds(items: Seq<(NodeId, u64)>)
    ensures
        0 <= sum_weights(items) <= items.len() * (u64::MAX as int),
    decreases items.len(),
{
    if items.len() > 0 {
        lemma_sum_weights_bounds(items.drop_last());
        assert((items.len() - 1) * (u64::MAX as int) + (u64::MAX as int) == items.len() * (
        u64::MAX as int)) by (nonlinear_arith);
    }
}

/// A suffix sum starts with its first element; the rest is nonnegative.
proof fn lemma_sum_weights_first(items: Seq<(NodeId, u64)>, k: int)
    requires
        0 <= k < items.len(),
    ensures
        sum_weights(items.subrange(k, items.len() as int)) >= items[k].1,
        sum_weights(items.subrange(k, items.len() as int)) == items[k].1 + sum_weights(
            items.subrange(k + 1, items.len() as int),
        ),
    decreases items.len(),
{
    let len = items.len() as int;
    let s = items.subrange(k, len);
    if k == len - 1 {
        assert(s.drop_last() =~= items.subrange(k + 1, len));
        assert(s.last() == items[k]);
    } else {
        let short = items.drop_last();
        assert(items.subrange(k, len - 1) =~= short.subrange(k, len - 1));
        assert(items.subrange(k + 1, len - 1) =~= short.subrange(k + 1, len - 1));
        // Peel the final element off both suffixes, then use the shorter
        // list's own decomposition.
        lemma_sum_weights_last(items, k);
        lemma_sum_weights_last(items, k + 1);
        lemma_sum_weights_first(short, k);
        assert(short[k] == items[k]);
    }
    lemma_sum_weights_bounds(items.subrange(k + 1, len));
}

/// Peeling the final element off a suffix sum.
proof fn lemma_sum_weights_last(items: Seq<(NodeId, u64)>, k: int)
    requires
        0 <= k < items.len(),
    ensures
        sum_weights(items.subrange(k, items.len() as int)) == sum_weights(
            items.subrange(k, items.len() - 1),
        ) + items.last().1,
{
    let s = items.subrange(k, items.len() as int);
    assert(s.drop_last() =~= items.subrange(k, items.len() - 1));
    assert(s.last() == items.last());
}

/// The input pairs whose weight is positive, in their given order.
pub open spec fn positive_items(s: Seq<(NodeId, u64)>) -> Seq<(NodeId, u64)>
    decreases s.len(),
{
    if s.len() == 0 {
        Seq::empty()
    } else {
        positive_items(s.drop_last()) + (if s.last().1 > 0 {
            seq![s.last()]
        } else {
            Seq::<(NodeId, u64)>::empty()
        })
    }
}

/// Insertion of `x` into a weight-descending list: after every element
/// of equal or larger weight, before every smaller one.
pub open spec fn insert_desc(s: Seq<(NodeId, u64)>, x: (NodeId, u64)) -> Seq<(NodeId, u64)>
    decreases s.len(),
{
    if s.len() > 0 && s.last().1 < x.1 {
        insert_desc(s.drop_last(), x).push(s.last())
    } else {
        s.push(x)
    }
}

/// The stable weight-descending sort: each element inserted, in input
/// order, behind its equals.
pub open spec fn sort_desc(s: Seq<(NodeId, u64)>) -> Seq<(NodeId, u64)>
    decreases s.len(),
{
    if s.len() == 0 {
        s
    } else {
        insert_desc(sort_desc(s.drop_last()), s.last())
    }
}

/// Insertion adds exactly one element.
proof fn lemma_insert_desc_len(s: Seq<(NodeId, u64)>, x: (NodeId, u64))
    ensures
        insert_desc(s, x).len() == s.len() + 1,
    decreases s.len(),
{
    if s.len() > 0 && s.last().1 < x.1 {
        lemma_insert_desc_len(s.drop_last(), x);
    }
}

/// Sorting keeps the length.
proof fn lemma_sort_desc_len(s: Seq<(NodeId, u64)>)
    ensures
        sort_desc(s).len() == s.len(),
    decreases s.len(),
{
    if s.len() > 0 {
        lemma_sort_desc_len(s.drop_last());
        lemma_insert_desc_len(sort_desc(s.drop_last()), s.last());
    }
}

/// Where the insertion lands: `x` goes right after the last element of
/// equal or larger weight.
proof fn lemma_insert_desc_at(s: Seq<(NodeId, u64)>, x: (NodeId, u64), p: int)
    requires
        0 <= p <= s.len(),
        p == 0 || s[p - 1].1 >= x.1,
        forall|k: int| p <= k < s.len() ==> (#[trigger] s[k]).1 < x.1,
    ensures
        insert_desc(s, x) == s.subrange(0, p) + seq![x] + s.subrange(p, s.len() as int),
    decreases s.len(),
{
    if p == s.len() {
        assert(s.subrange(0, p) =~= s);
        assert(s.subrange(0, p) + seq![x] + s.subrange(p, s.len() as int) =~= s.push(x));
        if s.len() > 0 {
            assert(s[s.len() - 1].1 >= x.1);
        }
    } else {
        assert(s[s.len() - 1].1 < x.1);
        let s1 = s.drop_last();
        assert(forall|k: int| 0 <= k < s1.len() ==> #[trigger] s1[k] == s[k]);
        lemma_insert_desc_at(s1, x, p);
        assert(insert_desc(s1, x).push(s.last()) =~= s.subrange(0, p) + seq![x] + s.subrange(
            p,
            s.len() as int,
        ));
    }
}

/// The slices for given (positive-weight, weight-descending) items: one
/// pass along the chosen axis, each slice proportional to the item's
/// share of the remaining weight, zero-extent slices skipped, stopping
/// once the remaining extent is spent.
pub open spec fn slice_layout(
    items: Seq<(NodeId, u64)>,
    x: int,
    y: int,
    w: int,
    h: int,
    rem: int,
    horizontal: bool,
) -> Seq<TreemapItem>
    decreases items.len(),
{
    if items.len() == 0 {
        Seq::empty()
    } else {
        let id = items[0].0;
        let wt = items[0].1;
        if horizontal {
            let cw = w * wt / rem;
            let head = if cw > 0 {
                seq![
                    (TreemapItem {
                        id,
                        weight: wt,
                        rect: Rect { x: x as u64, y: y as u64, w: cw as u64, h: h as u64 },
                    }),
                ]
            } else {
                Seq::<TreemapItem>::empty()
            };
            if w - cw <= 1 || h <= 1 {
                head
            } else {
                head + slice_layout(items.drop_first(), x + cw, y, w - cw, h, rem - wt, true)
            }
        } else {
            let ch = h * wt / rem;
            let head = if ch > 0 {
                seq![
                    (TreemapItem {
                        id,
                        weight: wt,
                        rect: Rect { x: x as u64, y: y as u64, w: w as u64, h: ch as u64 },
                    }),
                ]
            } else {
                Seq::<TreemapItem>::empty()
            };
            if w <= 1 || h - ch <= 1 {
                head
            } else {
                head + slice_layout(items.drop_first(), x, y + ch, w, h - ch, rem - wt, false)
            }
        }
    }
}

/// The whole layout, from the raw weight list: positive weights kept in
/// order, sorted largest-first (stable), then sliced along the area's
/// longer edge; a degenerate area or no positive weight yields nothing.
pub open spec fn squarify_spec(weights: Seq<(NodeId, u64)>, area: Rect) -> Seq<TreemapItem> {
    let items = sort_desc(positive_items(weights));
    if items.len() == 0 || area.w == 0 || area.h == 0 {
        Seq::empty()
    } else {
        slice_layout(
            items,
            area.x as int,
            area.y as int,
            area.w as int,
            area.h as int,
            sum_weights(items),
            area.w >= area.h,
        )
    }
}

/// Lays the weighted items out inside `area`, slicing along its longer
/// edge. Items with zero weight are dropped; each kept item receives a
/// slice proportional to its share of the remaining weight.
#[verifier::rlimit(60)]
pub fn squarify(weights: &Vec<(NodeId, u64)>, area: Rect) -> (out: Vec<TreemapItem>)
    requires
        area.x + area.w <= u64::MAX,
        area.y + area.h <= u64::MAX,
    ensures
        out@ == squarify_spec(weights@, area),
        out@.len() <= weights@.len(),
        forall|i: int, j: int|
            0 <= i < j < out@.len() ==> rect_disjoint(
                (#[trigger] out@[i]).rect,
                (#[trigger] out@[j]).rect,
            ),
        forall|i: int| 0 <= i < out@.len() ==> rect_inside((#[trigger] out@[i]).rect, area),
        total_area(out@) <= rect_area(area),
        forall|i: int| 0 <= i < out@.len() ==> (#[trigger] out@[i]).weight > 0,
{
    let mut items: Vec<(NodeId, u64)> = Vec::new();
    let mut i: usize = 0;
    let n = weights.len();
    while i < n
        invariant
            i <= n,
            n == weights@.len(),
            items@.len() <= i,
            items@ == positive_items(weights@.subrange(0, i as int)),
            forall|k: int| 0 <= k < items@.len() ==> (#[trigger] items@[k]).1 > 0,
        decreases n - i,
    {
        let (id, w) = weights[i];
        let ghost pre = items@;
        if w > 0 {
            items.push((id, w));
        }
        proof {
            assert(weights@.subrange(0, i + 1).drop_last() =~= weights@.subrange(0, i as int));
            assert(weights@.subrange(0, i + 1).last() == weights@[i as int]);
            if w > 0 {
                assert(items@ =~= pre + seq![weights@[i as int]]);
            } else {
                assert(items@ =~= pre + Seq::<(NodeId, u64)>::empty());
            }
        }
        i = i + 1;
    }
    proof {
        assert(weights@.subrange(0, n as int) =~= weights@);
    }
    if items.len() == 0 || area.w == 0 || area.h == 0 {
        proof {
            assert(rect_area(area) >= 0) by (nonlinear_arith);
            lemma_sort_desc_len(positive_items(weights@));
            assert(squarify_spec(weights@, area) =~= Seq::<TreemapItem>::empty());
        }
        return Vec::new();
    }
    sort_items_desc(&mut items);
    let m = items.len();
    let ghost iseq = items@;
    proof {
        assert(iseq == sort_desc(positive_items(weights@)));
    }
    let mut total: u128 = 0;
    let mut k: usize = 0;
    while k < m
        invariant
            k <= m,
            m == items@.len(),
            items@ == iseq,
            total as int == sum_weights(iseq.subrange(0, k as int)),
        decreases m - k,
    {
        proof {
            assert(iseq.subrange(0, k + 1).drop_last() =~= iseq.subrange(0, k as int));
            lemma_sum_weights_bounds(iseq.subrange(0, k as int));
            assert((k as int) * (u64::MAX as int) + (u64::MAX as int) < u128::MAX) by (
            nonlinear_arith)
                requires
                    0 <= k < 0x1_0000_0000_0000_0000,
            ;
        }
        total = total + (items[k].1 as u128);
        k = k + 1;
    }
    proof {
        assert(iseq.subrange(0, m as int) =~= iseq);
    }
    let horizontal = area.w >= area.h;
    let ghost full = slice_layout(
        iseq,
        area.x as int,
        area.y as int,
        area.w as int,
        area.h as int,
        total as int,
        horizontal,
    );
    let mut out: Vec<TreemapItem> = Vec::new();
    let mut x = area.x;
    let mut y = area.y;
    let mut w = area.w;
    let mut h = area.h;
    let mut rem: u128 = total;
    let mut k2: usize = 0;
    proof {
        assert(iseq.subrange(0, m as int) =~= iseq);
        assert(Seq::<TreemapItem>::empty() + full =~= full);
    }
    while k2 < m
        invariant_except_break
            full == out@ + slice_layout(
                iseq.subrange(k2 as int, m as int),
                x as int,
                y as int,
                w as int,
                h as int,
                rem as int,
                horizontal,
            ),
        invariant
            k2 <= m,
            1 <= m,
            k2 == m ==> out@ == full,
            m == items@.len(),
            items@ == iseq,
            forall|q: int| 0 <= q < iseq.len() ==> (#[trigger] iseq[q]).1 > 0,
            rem as int == sum_weights(iseq.subrange(k2 as int, m as int)),
            area.x + area.w <= u64::MAX,
            area.y + area.h <= u64::MAX,
            horizontal ==> x + w == area.x + area.w && y == area.y && h == area.h,
            !horizontal ==> y + h == area.y + area.h && x == area.x && w == area.w,
            x >= area.x,
            y >= area.y,
            out@.len() <= k2,
            forall|q: int| 0 <= q < out@.len() ==> (#[trigger] out@[q]).weight > 0,
            forall|q: int| 0 <= q < out@.len() ==> rect_inside((#[trigger] out@[q]).rect, area),
            horizontal ==> forall|q: int|
                0 <= q < out@.len() ==> (#[trigger] out@[q]).rect.x + out@[q].rect.w <= x,
            !horizontal ==> forall|q: int|
                0 <= q < out@.len() ==> (#[trigger] out@[q]).rect.y + out@[q].rect.h <= y,
            forall|q1: int, q2: int|
                0 <= q1 < q2 < out@.len() ==> rect_disjoint(
                    (#[trigger] out@[q1]).rect,
                    (#[trigger] out@[q2]).rect,
                ),
            total_area(out@) + (if horizontal {
                (w as int) * (area.h as int)
            } else {
                (area.w as int) * (h as int)
            }) <= rect_area(area),
        ensures
            out@ == full,
        decreases m - k2,
    {
        let (id, weight) = items[k2];
        let ghost sfx = iseq.subrange(k2 as int, m as int);
        let ghost out0 = out@;
        let ghost x0 = x as int;
        let ghost y0 = y as int;
        let ghost w0 = w as int;
        let ghost h0 = h as int;
        let ghost rem0 = rem as int;
        proof {
            lemma_sum_weights_first(iseq, k2 as int);
            assert(sfx[0] == iseq[k2 as int]);
            assert(sfx.drop_first() =~= iseq.subrange(k2 + 1, m as int));
        }
        let rem_after: u128 = rem - (weight as u128);
        if horizontal {
            proof {
                assert((w as int) * (weight as int) <= u128::MAX) by (nonlinear_arith)
                    requires
                        w as int <= u64::MAX as int,
                        weight as int <= u64::MAX as int,
                ;
            }
            let prod: u128 = (w as u128) * (weight as u128);
            let cw128: u128 = prod / rem;
            proof {
                assert(((w as int) * (weight as int)) / (rem as int) <= w as int) by (
                nonlinear_arith)
                    requires
                        rem as int >= weight as int,
                        weight as int >= 1,
                        w as int >= 0,
                ;
            }
            let cw = cw128 as u64;
            if cw > 0 {
                let ghost pre = out@;
                out.push(TreemapItem { id, weight, rect: Rect { x, y, w: cw, h } });
                x = x + cw;
                w = w - cw;
                proof {
                    assert(out@.drop_last() =~= pre);
                    assert(total_area(out@) == total_area(pre) + (cw as int) * (h as int));
                    assert(total_area(pre) + (cw as int) * (area.h as int) + (w as int) * (
                    area.h as int) == total_area(pre) + ((cw + w) as int) * (area.h as int)) by (
                    nonlinear_arith);
                }
            }
            proof {
                let cwi = cw as int;
                assert(cwi == w0 * (weight as int) / rem0);
                let head: Seq<TreemapItem> = if cwi > 0 {
                    seq![
                        (TreemapItem {
                            id,
                            weight,
                            rect: Rect {
                                x: x0 as u64,
                                y: y0 as u64,
                                w: cwi as u64,
                                h: h0 as u64,
                            },
                        }),
                    ]
                } else {
                    Seq::<TreemapItem>::empty()
                };
                assert(out@ =~= out0 + head);
                assert(x as int == x0 + cwi && w as int == w0 - cwi);
                if w0 - cwi <= 1 || h0 <= 1 {
                    assert(slice_layout(sfx, x0, y0, w0, h0, rem0, true) == head);
                    assert(full =~= out@);
                } else {
                    assert(slice_layout(sfx, x0, y0, w0, h0, rem0, true) == head + slice_layout(
                        sfx.drop_first(),
                        x0 + cwi,
                        y0,
                        w0 - cwi,
                        h0,
                        rem0 - weight,
                        true,
                    ));
                    assert(full =~= out@ + slice_layout(
                        iseq.subrange(k2 + 1, m as int),
                        x as int,
                        y as int,
                        w as int,
                        h as int,
                        rem0 - weight,
                        true,
                    ));
                }
            }
        } else {
            proof {
                assert((h as int) * (weight as int) <= u128::MAX) by (nonlinear_arith)
                    requires
                        h as int <= u64::MAX as int,
                        weight as int <= u64::MAX as int,
                ;
            }
            let prod: u128 = (h as u128) * (weight as u128);
            let ch128: u128 = prod / rem;
            proof {
                assert(((h as int) * (weight as int)) / (rem as int) <= h as int) by (
                nonlinear_arith)
                    requires
                        rem as int >= weight as int,
                        weight as int >= 1,
                        h as int >= 0,
                ;
            }
            let ch = ch128 as u64;
            if ch > 0 {
                let ghost pre = out@;
                out.push(TreemapItem { id, weight, rect: Rect { x, y, w, h: ch } });
                y = y + ch;
                h = h - ch;
                proof {
                    assert(out@.drop_last() =~= pre);
                    assert(total_area(out@) == total_area(pre) + (w as int) * (ch as int));
                    assert(total_area(pre) + (area.w as int) * (ch as int) + (area.w as int) * (
                    h as int) == total_area(pre) + (area.w as int) * ((ch + h) as int)) by (
                    nonlinear_arith);
                }
            }
            proof {
                let chi = ch as int;
                assert(chi == h0 * (weight as int) / rem0);
                let head: Seq<TreemapItem> = if chi > 0 {
                    seq![
                        (TreemapItem {
                            id,
                            weight,
                            rect: Rect {
                                x: x0 as u64,
                                y: y0 as u64,
                                w: w0 as u64,
                                h: chi as u64,
                            },
                        }),
                    ]
                } else {
                    Seq::<TreemapItem>::empty()
                };
                assert(out@ =~= out0 + head);
                assert(y as int == y0 + chi && h as int == h0 - chi);
                if w0 <= 1 || h0 - chi <= 1 {
                    assert(slice_layout(sfx, x0, y0, w0, h0, rem0, false) == head);
                    assert(full =~= out@);
                } else {
                    assert(slice_layout(sfx, x0, y0, w0, h0, rem0, false) == head + slice_layout(
                        sfx.drop_first(),
                        x0,
                        y0 + chi,
                        w0,
                        h0 - chi,
                        rem0 - weight,
                        false,
                    ));
                    assert(full =~= out@ + slice_layout(
                        iseq.subrange(k2 + 1, m as int),
                        x as int,
                        y as int,
                        w as int,
                        h as int,
                        rem0 - weight,
                        false,
                    ));
                }
            }
        }
        rem = rem_after;
        k2 = k2 + 1;
        proof {
            if k2 == m && !(w <= 1 || h <= 1) {
                assert(iseq.subrange(k2 as int, m as int) =~= Seq::<(NodeId, u64)>::empty());
                assert(slice_layout(
                    Seq::<(NodeId, u64)>::empty(),
                    x as int,
                    y as int,
                    w as int,
                    h as int,
                    rem as int,
                    horizontal,
                ) =~= Seq::<TreemapItem>::empty());
                assert(full =~= out@);
            }
        }
        if w <= 1 || h <= 1 {
            proof {
                assert((w as int) * (area.h as int) >= 0) by (nonlinear_arith);
                assert((area.w as int) * (h as int) >= 0) by (nonlinear_arith);
            }
            break ;
        }
    }
    proof {
        assert((w as int) * (area.h as int) >= 0) by (nonlinear_arith);
        assert((area.w as int) * (h as int) >= 0) by (nonlinear_arith);
        assert(squarify_spec(weights@, area) == full);
    }
    out
}

/// Sorts the weight list largest-first; the elements are permuted, never
/// changed.
fn sort_items_desc(items: &mut Vec<(NodeId, u64)>)
    ensures
        final (items)@ == sort_desc(old(items)@),
        final (items)@.len() == old(items)@.len(),
        final (items)@.to_multiset() == old(items)@.to_multiset(),
        forall|k1: int, k2: int|
            0 <= k1 < k2 < final (items)@.len() ==> (#[trigger] final (items)@[k1]).1 >= (
            #[trigger] final (items)@[k2]).1,
        (forall|k: int| 0 <= k < old(items)@.len() ==> (#[trigger] old(items)@[k]).1 > 0)
            ==> forall|k: int| 0 <= k < final (items)@.len() ==> (#[trigger] final (items)@[k]).1
            > 0,
{
    let ghost orig = items@;
    let n = items.len();
    proof {
        if n == 0 {
            assert(sort_desc(orig) =~= orig);
        } else {
            // A one-element prefix is already in order.
            assert(orig.subrange(0, 1).drop_last() =~= Seq::<(NodeId, u64)>::empty());
            assert(sort_desc(orig.subrange(0, 1).drop_last()) =~= Seq::<(NodeId, u64)>::empty());
            assert(insert_desc(Seq::<(NodeId, u64)>::empty(), orig[0]) =~= seq![orig[0]]);
            assert(sort_desc(orig.subrange(0, 1)) =~= orig.subrange(0, 1));
            assert(items@ =~= orig.subrange(0, 1) + orig.subrange(1, n as int));
            if n == 1 {
                assert(orig.subrange(0, 1) =~= orig);
                assert(sort_desc(orig) =~= orig);
            }
        }
    }
    let mut i: usize = 1;
    while i < n
        invariant
            1 <= i,
            n == items@.len(),
            n == orig.len(),
            i <= n || (n <= 1 && i == 1),
            n >= 1 ==> items@ == sort_desc(orig.subrange(0, i as int)) + orig.subrange(
                i as int,
                n as int,
            ),
            items@.to_multiset() == orig.to_multiset(),
            (forall|k: int| 0 <= k < orig.len() ==> (#[trigger] orig[k]).1 > 0) ==> forall|k: int|
                0 <= k < items@.len() ==> (#[trigger] items@[k]).1 > 0,
            forall|k1: int, k2: int|
                0 <= k1 < k2 < i && k2 < n ==> (#[trigger] items@[k1]).1 >= (
                #[trigger] items@[k2]).1,
        decreases n - i,
    {
        let x = items[i];
        proof {
            lemma_sort_desc_len(orig.subrange(0, i as int));
            assert(orig.subrange(i as int, n as int)[0] == orig[i as int]);
            assert(x == orig[i as int]);
        }
        let mut p = i;
        while p > 0 && items[p - 1].1 < x.1
            invariant
                p <= i < n,
                n == items@.len(),
                x == items@[i as int],
                forall|k: int| p <= k < i ==> (#[trigger] items@[k]).1 < x.1,
            decreases p,
        {
            p = p - 1;
        }
        let ghost before = items@;
        let y = items.remove(i);
        items.insert(p, y);
        proof {
            crate::sorter::lemma_remove_insert_multiset(before, i as int, p as int);
            let after = items@;
            assert(after.to_multiset() == orig.to_multiset());
            assert(forall|k: int| 0 <= k < p ==> #[trigger] after[k] == before[k]);
            assert(after[p as int] == x);
            assert(forall|k: int| p < k <= i ==> #[trigger] after[k] == before[k - 1]);
            assert(forall|k: int| i < k < n ==> #[trigger] after[k] == before[k]);
            assert forall|k1: int, k2: int|
                0 <= k1 < k2 < i + 1 && k2 < n implies (#[trigger] after[k1]).1 >= (
            #[trigger] after[k2]).1 by {
                if k2 < p {
                } else if k2 == p {
                    if k1 < p - 1 {
                        assert(before[k1].1 >= before[p - 1].1);
                    }
                    assert(before[p - 1].1 >= x.1);
                } else {
                    if k1 == p {
                        assert(x.1 >= before[k2 - 1].1);
                    }
                }
            }
            // The prefix grew by exactly this insertion, in spec terms.
            let sp = sort_desc(orig.subrange(0, i as int));
            assert(sp == before.subrange(0, i as int)) by {
                assert(before.subrange(0, i as int) =~= sp);
            }
            assert forall|k: int| p <= k < sp.len() implies (#[trigger] sp[k]).1 < x.1 by {
                assert(sp[k] == before[k]);
            }
            if p > 0 {
                assert(sp[p - 1] == before[p - 1]);
            }
            lemma_insert_desc_at(sp, x, p as int);
            assert(orig.subrange(0, i + 1).drop_last() =~= orig.subrange(0, i as int));
            assert(orig.subrange(0, i + 1).last() == orig[i as int]);
            assert(sort_desc(orig.subrange(0, i + 1)) == insert_desc(sp, x));
            assert(after =~= sort_desc(orig.subrange(0, i + 1)) + orig.subrange(
                i + 1,
                n as int,
            )) by {
                assert(insert_desc(sp, x) == sp.subrange(0, p as int) + seq![x] + sp.subrange(
                    p as int,
                    sp.len() as int,
                ));
                assert(forall|k: int|
                    0 <= k < i ==> #[trigger] sp[k] == before[k]);
                assert(forall|k: int|
                    i < k < n ==> orig.subrange(i + 1, n as int)[k - i - 1] == #[trigger] orig[k]);
                assert(forall|k: int|
                    i < k < n ==> #[trigger] before[k] == orig[k]);
            }
            if forall|k: int| 0 <= k < orig.len() ==> (#[trigger] orig[k]).1 > 0 {
                assert forall|k: int| 0 <= k < after.len() implies (#[trigger] after[k]).1 > 0 by {
                    if k < p {
                        assert(before[k].1 > 0);
                    } else if k == p {
                        assert(before[i as int].1 > 0);
                    } else if k <= i {
                        assert(before[k - 1].1 > 0);
                    } else {
                        assert(before[k].1 > 0);
                    }
                }
            }
        }
        i = i + 1;
    }
    proof {
        if n == 0 {
            assert(items@ =~= sort_desc(orig));
        } else {
            assert(orig.subrange(0, n as int) =~= orig);
            assert(sort_desc(orig) + orig.subrange(n as int, n as int) =~= sort_desc(orig));
        }
    }
}

} // verus!
