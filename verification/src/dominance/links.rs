//! The covering relation of the two-dimensional dominance order, and the
//! ordered lists of links that a dominance graph stores.
//!
//! Nodes are identified by their index, which follows the prime order; the
//! obverse order is given by a sequence of ranks.  Node `p` dominates node `c`
//! when `p < c` and `ranks[p] <= ranks[c]`; `p` covers `c` when, in addition,
//! no node strictly between them in index has an obverse rank between theirs.

use vstd::prelude::*;

verus! {

/// `c` is an immediate successor of `p` in the dominance order.
pub open spec fn covers(ranks: Seq<i32>, p: int, c: int) -> bool {
    &&& 0 <= p < c < ranks.len()
    &&& ranks[p] <= ranks[c]
    &&& forall|d: int| p < d < c ==> !(ranks[p] <= #[trigger] ranks[d] && ranks[d] <= ranks[c])
}

/// The links of a dominance graph: the covering pairs, as a relation on
/// indices.
pub open spec fn cover_link(ranks: Seq<i32>) -> spec_fn(int, int) -> bool {
    |p: int, c: int| covers(ranks, p, c)
}

/// The nodes `c` with `p < c < end` and `link(p, c)`, in increasing order.
pub open spec fn links_down(link: spec_fn(int, int) -> bool, p: int, end: int) -> Seq<usize>
    decreases end - p,
{
    if end <= p + 1 {
        Seq::empty()
    } else if link(p, end - 1) {
        links_down(link, p, end - 1).push((end - 1) as usize)
    } else {
        links_down(link, p, end - 1)
    }
}

/// The nodes `p` with `start <= p < c` and `link(p, c)`, in decreasing order.
pub open spec fn links_up(link: spec_fn(int, int) -> bool, c: int, start: int) -> Seq<usize>
    decreases c - start,
{
    if c <= start {
        Seq::empty()
    } else if link(start, c) {
        links_up(link, c, start + 1).push(start as usize)
    } else {
        links_up(link, c, start + 1)
    }
}

/// The elements of `links_down` are exactly the linked nodes in range, in
/// strictly increasing order.
pub proof fn lemma_links_down(link: spec_fn(int, int) -> bool, p: int, end: int)
    requires
        0 <= p,
        end <= usize::MAX,
    ensures
        forall|i: int|
            0 <= i < links_down(link, p, end).len() ==> {
                &&& p < #[trigger] links_down(link, p, end)[i] < end
                &&& link(p, links_down(link, p, end)[i] as int)
            },
        forall|i: int, j: int|
            0 <= i < j < links_down(link, p, end).len() ==> links_down(link, p, end)[i]
                < links_down(link, p, end)[j],
        forall|e: int|
            p < e < end && #[trigger] link(p, e) ==> links_down(link, p, end).contains(e as usize),
    decreases end - p,
{
    if end > p + 1 {
        lemma_links_down(link, p, end - 1);
        let l = links_down(link, p, end - 1);
        if link(p, end - 1) {
            assert forall|e: int| p < e < end && #[trigger] link(p, e) implies links_down(
                link,
                p,
                end,
            ).contains(e as usize) by {
                if e == end - 1 {
                    assert(links_down(link, p, end)[l.len() as int] == e as usize);
                } else {
                    let k = choose|k: int| 0 <= k < l.len() && l[k] == e as usize;
                    assert(links_down(link, p, end)[k] == e as usize);
                }
            }
        }
    }
}

/// The elements of `links_up` are exactly the linked nodes in range, in
/// strictly decreasing order.
pub proof fn lemma_links_up(link: spec_fn(int, int) -> bool, c: int, start: int)
    requires
        0 <= start,
        c <= usize::MAX,
    ensures
        forall|i: int|
            0 <= i < links_up(link, c, start).len() ==> {
                &&& start <= #[trigger] links_up(link, c, start)[i] < c
                &&& link(links_up(link, c, start)[i] as int, c)
            },
        forall|i: int, j: int|
            0 <= i < j < links_up(link, c, start).len() ==> links_up(link, c, start)[i]
                > links_up(link, c, start)[j],
        forall|e: int|
            start <= e < c && #[trigger] link(e, c) ==> links_up(link, c, start).contains(e as usize),
    decreases c - start,
{
    if c > start {
        lemma_links_up(link, c, start + 1);
        let l = links_up(link, c, start + 1);
        if link(start, c) {
            assert forall|e: int| start <= e < c && #[trigger] link(e, c) implies links_up(
                link,
                c,
                start,
            ).contains(e as usize) by {
                if e == start {
                    assert(links_up(link, c, start)[l.len() as int] == e as usize);
                } else {
                    let k = choose|k: int| 0 <= k < l.len() && l[k] == e as usize;
                    assert(links_up(link, c, start)[k] == e as usize);
                }
            }
        }
    }
}

/// Below any node that `p` dominates there is a node that `p` covers, of no
/// greater rank.
pub proof fn lemma_cover_below(ranks: Seq<i32>, p: int, d: int)
    requires
        0 <= p < d < ranks.len(),
        ranks[p] <= ranks[d],
    ensures
        exists|e: int| p < e <= d && covers(ranks, p, e) && ranks[e] <= ranks[d],
    decreases d - p,
{
    if !covers(ranks, p, d) {
        let d2 = choose|d2: int| p < d2 < d && ranks[p] <= ranks[d2] && ranks[d2] <= ranks[d];
        lemma_cover_below(ranks, p, d2);
        let e = choose|e: int| p < e <= d2 && covers(ranks, p, e) && ranks[e] <= ranks[d2];
        assert(p < e <= d && covers(ranks, p, e) && ranks[e] <= ranks[d]);
    }
}

/// Above any node that dominates `c` there is a node that covers `c`, of no
/// lesser rank.
pub proof fn lemma_cover_above(ranks: Seq<i32>, d: int, c: int)
    requires
        0 <= d < c < ranks.len(),
        ranks[d] <= ranks[c],
    ensures
        exists|e: int| d <= e < c && covers(ranks, e, c) && ranks[d] <= ranks[e],
    decreases c - d,
{
    if !covers(ranks, d, c) {
        let d2 = choose|d2: int| d < d2 < c && ranks[d] <= ranks[d2] && ranks[d2] <= ranks[c];
        lemma_cover_above(ranks, d2, c);
        let e = choose|e: int| d2 <= e < c && covers(ranks, e, c) && ranks[d2] <= ranks[e];
        assert(d <= e < c && covers(ranks, e, c) && ranks[d] <= ranks[e]);
    }
}

/// One step of the forward scan: with the children of `p` below `c` known,
/// `c` is a child exactly when its rank is at least `p`'s and, where `p` has
/// a child already, below the latest child's rank.
pub proof fn lemma_child_scan(ranks: Seq<i32>, p: int, c: int)
    requires
        0 <= p < c < ranks.len(),
        ranks.len() <= usize::MAX,
    ensures
        ({
            let l = links_down(cover_link(ranks), p, c);
            cover_link(ranks)(p, c) <==> (ranks[p] <= ranks[c] && (l.len() == 0 || ranks[c]
                < ranks[l.last() as int]))
        }),
{
    let link = cover_link(ranks);
    let l = links_down(link, p, c);
    lemma_links_down(link, p, c);
    if link(p, c) {
        if l.len() > 0 {
            let e = l.last() as int;
            assert(l[l.len() - 1] == l.last());
            assert(p < e < c);
        }
    }
    if ranks[p] <= ranks[c] && (l.len() == 0 || ranks[c] < ranks[l.last() as int]) {
        assert forall|d: int| p < d < c implies !(ranks[p] <= #[trigger] ranks[d] && ranks[d]
            <= ranks[c]) by {
            if ranks[p] <= ranks[d] && ranks[d] <= ranks[c] {
                lemma_cover_below(ranks, p, d);
                let e = choose|e: int| p < e <= d && covers(ranks, p, e) && ranks[e] <= ranks[d];
                assert(link(p, e));
                assert(l.contains(e as usize));
                let k = choose|k: int| 0 <= k < l.len() && l[k] == e as usize;
                if k < l.len() - 1 {
                    // Children of `p` have strictly decreasing ranks.
                    let last = l.last() as int;
                    assert(l[l.len() - 1] == l.last());
                    assert(l[k] < l[l.len() - 1]);
                    assert(covers(ranks, p, last));
                    assert(p < e < last);
                }
            }
        }
    }
}

/// One step of the backward scan: with the parents of `c` from `p + 1` on
/// known, `p` is a parent exactly when its rank is at most `c`'s and, where
/// `c` has a parent already, above the latest parent's rank.
pub proof fn lemma_parent_scan(ranks: Seq<i32>, p: int, c: int)
    requires
        0 <= p < c < ranks.len(),
        ranks.len() <= usize::MAX,
    ensures
        ({
            let l = links_up(cover_link(ranks), c, p + 1);
            cover_link(ranks)(p, c) <==> (ranks[p] <= ranks[c] && (l.len() == 0 || ranks[p]
                > ranks[l.last() as int]))
        }),
{
    let link = cover_link(ranks);
    let l = links_up(link, c, p + 1);
    lemma_links_up(link, c, p + 1);
    if link(p, c) {
        if l.len() > 0 {
            let e = l.last() as int;
            assert(l[l.len() - 1] == l.last());
            assert(p < e < c);
        }
    }
    if ranks[p] <= ranks[c] && (l.len() == 0 || ranks[p] > ranks[l.last() as int]) {
        assert forall|d: int| p < d < c implies !(ranks[p] <= #[trigger] ranks[d] && ranks[d]
            <= ranks[c]) by {
            if ranks[p] <= ranks[d] && ranks[d] <= ranks[c] {
                lemma_cover_above(ranks, d, c);
                let e = choose|e: int| d <= e < c && covers(ranks, e, c) && ranks[d] <= ranks[e];
                assert(link(e, c));
                assert(l.contains(e as usize));
                let k = choose|k: int| 0 <= k < l.len() && l[k] == e as usize;
                if k < l.len() - 1 {
                    let last = l.last() as int;
                    assert(l[l.len() - 1] == l.last());
                    assert(l[k] > l[l.len() - 1]);
                    assert(covers(ranks, last, c));
                    assert(last < e < c);
                }
            }
        }
    }
}

} // verus!
