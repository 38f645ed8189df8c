//! The block merge: a second construction of a dominance graph's edges that
//! follows the merge steps as a merge sort by obverse rank does.
//!
//! Each current block keeps its nodes in a chain sorted by obverse rank (ties
//! by index): `sorted_roots` holds the first node of a block at the block's
//! lowest index and the last node at its highest, and `sorted_next` and
//! `sorted_prev` link the chain.  A merge step interleaves the two chains in
//! runs, and between runs the edges that cross from the lower block to the
//! upper one are appended, guided by cross links.
//!
//! That every step leaves the merged block's chain sorted and linked is
//! proved here.  The edge lists are not: `connect_graph` checks them against
//! the forward scan.  A walk along links or a stack that would not stay on
//! course makes the block merge give up its edge work.

use vstd::prelude::*;
use crate::dominance::dominance_graph::DominanceGraph;
use crate::dominance::dominance_graph::IndexType;
use crate::dominance::dominance_graph::RankType;
use crate::dominance::dominance_graph::obverse_ranks;
use crate::dominance::conquer_iterator::MergeStep;
use crate::dominance::conquer_iterator::MinusPlusShift;

verus! {

/// `x` comes before `y` in obverse order, ties broken by index.
pub open spec fn key_before(ranks: Seq<i32>, x: usize, y: usize) -> bool {
    ranks[x as int] < ranks[y as int] || (ranks[x as int] == ranks[y as int] && x < y)
}

/// The chain `ch` is strictly increasing in obverse order.
pub open spec fn chain_sorted(ranks: Seq<i32>, ch: Seq<usize>) -> bool {
    forall|a: int, b: int|
        0 <= a < b < ch.len() ==> #[trigger] key_before(ranks, ch[a], ch[b])
}

/// A sorted chain holds no node twice.
proof fn lemma_sorted_chain_distinct(ranks: Seq<i32>, ch: Seq<usize>)
    requires
        chain_sorted(ranks, ch),
    ensures
        ch.no_duplicates(),
{
    assert forall|a: int, b: int| 0 <= a < ch.len() && 0 <= b < ch.len() && a != b implies ch[a]
        != ch[b] by {
        if a < b {
            assert(key_before(ranks, ch[a], ch[b]));
        } else {
            assert(key_before(ranks, ch[b], ch[a]));
        }
    }
}

/// Consecutive nodes of `ch` are linked forwards by `next` and backwards by
/// `prev`.
pub open spec fn chain_linked(next: Seq<usize>, prev: Seq<usize>, ch: Seq<usize>) -> bool {
    linked_from(next, ch, 0) && prev_linked_from(prev, ch, 0)
}

/// The forward links of `ch` from position `from` on are in place.
pub open spec fn linked_from(next: Seq<usize>, ch: Seq<usize>, from: int) -> bool {
    forall|k: int| from <= k < ch.len() - 1 ==> #[trigger] next[ch[k] as int] == ch[k + 1]
}

/// The backward links of `ch` into the nodes after position `from` are in
/// place.
pub open spec fn prev_linked_from(prev: Seq<usize>, ch: Seq<usize>, from: int) -> bool {
    forall|k: int| from < k < ch.len() ==> #[trigger] prev[ch[k] as int] == ch[k - 1]
}

/// `ch` is the sorted chain of the block `[s, e)`, and `roots` holds its ends.
pub open spec fn block_chain(
    ranks: Seq<i32>,
    next: Seq<usize>,
    prev: Seq<usize>,
    roots: Seq<usize>,
    s: int,
    e: int,
    ch: Seq<usize>,
) -> bool {
    &&& 0 <= s < e <= roots.len()
    &&& ch.len() == e - s
    &&& forall|k: int| 0 <= k < ch.len() ==> s <= #[trigger] ch[k] < e
    &&& chain_sorted(ranks, ch)
    &&& chain_linked(next, prev, ch)
    &&& roots[s] == ch[0]
    &&& roots[e - 1] == ch[ch.len() - 1]
}

/// `a` and `b` agree outside `[lower, upper)`.
pub open spec fn same_outside(a: Seq<usize>, b: Seq<usize>, lower: int, upper: int) -> bool {
    &&& a.len() == b.len()
    &&& forall|i: int| 0 <= i < a.len() && !(lower <= i < upper) ==> #[trigger] a[i] == b[i]
}

/// The least index among `ch[from..=to]`.
pub open spec fn least_index(ch: Seq<usize>, from: int, to: int) -> usize
    decreases to - from,
{
    if to <= from {
        ch[from]
    } else {
        let rest = least_index(ch, from, to - 1);
        if ch[to] < rest {
            ch[to]
        } else {
            rest
        }
    }
}

/// The greatest index among `ch[from..=to]`.
pub open spec fn greatest_index(ch: Seq<usize>, from: int, to: int) -> usize
    decreases to - from,
{
    if to <= from {
        ch[from]
    } else {
        let rest = greatest_index(ch, from, to - 1);
        if ch[to] >= rest {
            ch[to]
        } else {
            rest
        }
    }
}

/// Appending the run `ch[from..=to]` to the sorted, linked chain `p` keeps it
/// sorted and linked, when the run continues `p` in order and by links.
proof fn lemma_append_run(
    ranks: Seq<i32>,
    next: Seq<usize>,
    prev: Seq<usize>,
    p: Seq<usize>,
    ch: Seq<usize>,
    from: int,
    to: int,
)
    requires
        chain_sorted(ranks, p),
        chain_linked(next, prev, p),
        chain_sorted(ranks, ch),
        linked_from(next, ch, from),
        prev_linked_from(prev, ch, from),
        0 <= from <= to < ch.len(),
        p.len() > 0 ==> next[p[p.len() - 1] as int] == ch[from] && prev[ch[from] as int] == p[p.len()
            - 1],
        forall|k: int| 0 <= k < p.len() ==> #[trigger] key_before(ranks, p[k], ch[from]),
    ensures
        chain_sorted(ranks, p + ch.subrange(from, to + 1)),
        chain_linked(next, prev, p + ch.subrange(from, to + 1)),
        (p + ch.subrange(from, to + 1)).len() == p.len() + to + 1 - from,
        forall|k: int| 0 <= k < p.len() ==> #[trigger] (p + ch.subrange(from, to + 1))[k] == p[k],
        forall|k: int|
            p.len() <= k < p.len() + to + 1 - from ==> #[trigger] (p + ch.subrange(from, to + 1))[k]
                == ch[k - p.len() + from],
{
    let q = p + ch.subrange(from, to + 1);
    assert forall|a: int, b: int| 0 <= a < b < q.len() implies #[trigger] key_before(
        ranks,
        q[a],
        q[b],
    ) by {
        if b < p.len() {
            assert(key_before(ranks, p[a], p[b]));
        } else if a < p.len() {
            let j = b - p.len() + from;
            assert(key_before(ranks, p[a], ch[from]));
            if j > from {
                assert(key_before(ranks, ch[from], ch[j]));
            }
        } else {
            assert(key_before(ranks, ch[a - p.len() + from], ch[b - p.len() + from]));
        }
    }
    assert forall|k: int| 0 <= k < q.len() - 1 implies #[trigger] next[q[k] as int] == q[k + 1] by {
        if k < p.len() - 1 {
            assert(next[p[k] as int] == p[k + 1]);
        } else if k == p.len() - 1 {
        } else {
            assert(next[ch[k - p.len() + from] as int] == ch[k - p.len() + from + 1]);
        }
    }
    assert forall|k: int| 0 < k < q.len() implies #[trigger] prev[q[k] as int] == q[k - 1] by {
        if k < p.len() {
            assert(prev[p[k] as int] == p[k - 1]);
        } else if k == p.len() {
        } else {
            assert(prev[ch[k - p.len() + from] as int] == ch[k - p.len() + from - 1]);
        }
    }
}

/// Updating `next` at the last node of a sorted, linked chain, and `prev` at a
/// node outside it, keeps the chain linked.
proof fn lemma_stitch_keeps_chain(
    ranks: Seq<i32>,
    next: Seq<usize>,
    prev: Seq<usize>,
    q: Seq<usize>,
    to: usize,
    y: usize,
    from: usize,
)
    requires
        chain_sorted(ranks, q),
        chain_linked(next, prev, q),
        q.len() > 0,
        forall|k: int| 0 <= k < q.len() ==> #[trigger] q[k] != y,
        forall|k: int| 0 <= k < q.len() ==> #[trigger] q[k] < next.len() && q[k] < prev.len(),
        y < prev.len(),
    ensures
        chain_linked(next.update(q[q.len() - 1] as int, to), prev.update(y as int, from), q),
{
    let next2 = next.update(q[q.len() - 1] as int, to);
    let prev2 = prev.update(y as int, from);
    assert forall|k: int| 0 <= k < q.len() - 1 implies #[trigger] next2[q[k] as int] == q[k + 1] by {
        assert(key_before(ranks, q[k], q[q.len() - 1]));
        assert(next[q[k] as int] == q[k + 1]);
    }
    assert forall|k: int| 0 < k < q.len() implies #[trigger] prev2[q[k] as int] == q[k - 1] by {
        assert(prev[q[k] as int] == q[k - 1]);
    }
}

/// Updating `next` at a node that is not a source of the remaining forward
/// links of `ch`, and `prev` at a node that is not a target of its remaining
/// backward links, keeps those links.
proof fn lemma_stitch_keeps_rest(
    next: Seq<usize>,
    prev: Seq<usize>,
    ch: Seq<usize>,
    from: int,
    x: usize,
    to: usize,
    y: usize,
    back: usize,
)
    requires
        0 <= from,
        linked_from(next, ch, from),
        prev_linked_from(prev, ch, from),
        forall|k: int| from <= k < ch.len() - 1 ==> #[trigger] ch[k] != x,
        forall|k: int| from < k < ch.len() ==> #[trigger] ch[k] != y,
        forall|k: int| 0 <= k < ch.len() ==> #[trigger] ch[k] < next.len() && ch[k] < prev.len(),
        x < next.len(),
        y < prev.len(),
    ensures
        linked_from(next.update(x as int, to), ch, from),
        prev_linked_from(prev.update(y as int, back), ch, from),
{
    let next2 = next.update(x as int, to);
    let prev2 = prev.update(y as int, back);
    assert forall|k: int| from <= k < ch.len() - 1 implies #[trigger] next2[ch[k] as int] == ch[k
        + 1] by {
        assert(ch[k] != x);
        assert(ch[k] < next.len());
        assert(next[ch[k] as int] == ch[k + 1]);
    }
    assert forall|k: int| from < k < ch.len() implies #[trigger] prev2[ch[k] as int] == ch[k - 1] by {
        assert(ch[k] != y);
        assert(ch[k] < prev.len());
        assert(prev[ch[k] as int] == ch[k - 1]);
    }
}

/// The two chains of a merge step: the lower block `[lower, middle)` and the
/// upper block `[middle, upper)`, each sorted, within an `n`-node graph.
pub open spec fn step_chains(
    ranks: Seq<i32>,
    lch: Seq<usize>,
    rch: Seq<usize>,
    lower: int,
    middle: int,
    upper: int,
) -> bool {
    &&& 0 <= lower < middle < upper <= ranks.len()
    &&& lch.len() == middle - lower
    &&& rch.len() == upper - middle
    &&& forall|k: int| 0 <= k < lch.len() ==> lower <= #[trigger] lch[k] < middle
    &&& forall|k: int| 0 <= k < rch.len() ==> middle <= #[trigger] rch[k] < upper
    &&& chain_sorted(ranks, lch)
    &&& chain_sorted(ranks, rch)
}

/// The progress of a merge step between runs: `merged` holds, sorted and
/// linked, the first `pl` nodes of the lower chain and the first `pr` of the
/// upper one, all before the nodes still to come; the links of the rest of
/// each chain are in place.
pub open spec fn merge_progress(
    ranks: Seq<i32>,
    next: Seq<usize>,
    prev: Seq<usize>,
    lch: Seq<usize>,
    rch: Seq<usize>,
    pl: int,
    pr: int,
    merged: Seq<usize>,
    lower: int,
    upper: int,
) -> bool {
    &&& 0 <= pl <= lch.len()
    &&& 0 <= pr <= rch.len()
    &&& merged.len() == pl + pr
    &&& chain_sorted(ranks, merged)
    &&& chain_linked(next, prev, merged)
    &&& forall|k: int| 0 <= k < merged.len() ==> lower <= #[trigger] merged[k] < upper
    &&& linked_from(next, lch, pl)
    &&& prev_linked_from(prev, lch, pl)
    &&& linked_from(next, rch, pr)
    &&& prev_linked_from(prev, rch, pr)
    &&& pl < lch.len() ==> forall|k: int|
        0 <= k < merged.len() ==> #[trigger] key_before(ranks, merged[k], lch[pl])
    &&& pr < rch.len() ==> forall|k: int|
        0 <= k < merged.len() ==> #[trigger] key_before(ranks, merged[k], rch[pr])
    &&& pl == lch.len() ==> exists|k: int|
        0 <= k < merged.len() && #[trigger] merged[k] == lch[lch.len() - 1]
    &&& pr == rch.len() ==> exists|k: int|
        0 <= k < merged.len() && #[trigger] merged[k] == rch[rch.len() - 1]
}

/// The merged chain's last node links to `head`, and back.
pub open spec fn pending_link(
    next: Seq<usize>,
    prev: Seq<usize>,
    merged: Seq<usize>,
    head: usize,
) -> bool {
    merged.len() > 0 ==> {
        &&& next[merged[merged.len() - 1] as int] == head
        &&& prev[head as int] == merged[merged.len() - 1]
    }
}

/// Taking the upper run `rch[pr..=q]`, all of it below the next lower node.
proof fn lemma_take_upper(
    ranks: Seq<i32>,
    next: Seq<usize>,
    prev: Seq<usize>,
    lch: Seq<usize>,
    rch: Seq<usize>,
    pl: int,
    pr: int,
    q: int,
    merged: Seq<usize>,
    lower: int,
    middle: int,
    upper: int,
)
    requires
        step_chains(ranks, lch, rch, lower, middle, upper),
        merge_progress(ranks, next, prev, lch, rch, pl, pr, merged, lower, upper),
        pr <= q < rch.len(),
        pending_link(next, prev, merged, rch[pr]),
        pl < lch.len() ==> forall|k: int|
            pr <= k <= q ==> ranks[#[trigger] rch[k] as int] < ranks[lch[pl] as int],
    ensures
        merge_progress(
            ranks,
            next,
            prev,
            lch,
            rch,
            pl,
            q + 1,
            merged + rch.subrange(pr, q + 1),
            lower,
            upper,
        ),
        (merged + rch.subrange(pr, q + 1)).len() > 0,
        (merged + rch.subrange(pr, q + 1))[(merged + rch.subrange(pr, q + 1)).len() - 1] == rch[q],
        merged.len() > 0 ==> (merged + rch.subrange(pr, q + 1))[0] == merged[0],
        merged.len() == 0 ==> (merged + rch.subrange(pr, q + 1))[0] == rch[pr],
{
    let m2 = merged + rch.subrange(pr, q + 1);
    lemma_append_run(ranks, next, prev, merged, rch, pr, q);
    assert forall|k: int| 0 <= k < m2.len() implies lower <= #[trigger] m2[k] < upper by {
        if k >= merged.len() {
            assert(m2[k] == rch[k - merged.len() + pr]);
        }
    }
    if pl < lch.len() {
        assert forall|k: int| 0 <= k < m2.len() implies #[trigger] key_before(
            ranks,
            m2[k],
            lch[pl],
        ) by {
            if k < merged.len() {
                assert(key_before(ranks, merged[k], lch[pl]));
            } else {
                assert(m2[k] == rch[k - merged.len() + pr]);
            }
        }
    }
    if q + 1 < rch.len() {
        assert forall|k: int| 0 <= k < m2.len() implies #[trigger] key_before(
            ranks,
            m2[k],
            rch[q + 1],
        ) by {
            assert(key_before(ranks, rch[pr], rch[q + 1]));
            if k < merged.len() {
                assert(key_before(ranks, merged[k], rch[pr]));
            } else {
                let j = k - merged.len() + pr;
                assert(m2[k] == rch[j]);
                assert(key_before(ranks, rch[j], rch[q + 1]));
            }
        }
    }
    if pl == lch.len() {
        let k = choose|k: int| 0 <= k < merged.len() && #[trigger] merged[k] == lch[lch.len() - 1];
        assert(m2[k] == lch[lch.len() - 1]);
    }
    if q + 1 == rch.len() {
        assert(m2[m2.len() - 1] == rch[rch.len() - 1]);
    }
    assert(m2[m2.len() - 1] == rch[q]);
}

/// Taking the lower run `lch[pl..=q]`, all of it at or below the next upper
/// node's rank.
proof fn lemma_take_lower(
    ranks: Seq<i32>,
    next: Seq<usize>,
    prev: Seq<usize>,
    lch: Seq<usize>,
    rch: Seq<usize>,
    pl: int,
    pr: int,
    q: int,
    merged: Seq<usize>,
    lower: int,
    middle: int,
    upper: int,
)
    requires
        step_chains(ranks, lch, rch, lower, middle, upper),
        merge_progress(ranks, next, prev, lch, rch, pl, pr, merged, lower, upper),
        pl <= q < lch.len(),
        pending_link(next, prev, merged, lch[pl]),
        pr < rch.len() ==> forall|k: int|
            pl <= k <= q ==> ranks[#[trigger] lch[k] as int] <= ranks[rch[pr] as int],
    ensures
        merge_progress(
            ranks,
            next,
            prev,
            lch,
            rch,
            q + 1,
            pr,
            merged + lch.subrange(pl, q + 1),
            lower,
            upper,
        ),
        (merged + lch.subrange(pl, q + 1)).len() > 0,
        (merged + lch.subrange(pl, q + 1))[(merged + lch.subrange(pl, q + 1)).len() - 1] == lch[q],
        merged.len() > 0 ==> (merged + lch.subrange(pl, q + 1))[0] == merged[0],
        merged.len() == 0 ==> (merged + lch.subrange(pl, q + 1))[0] == lch[pl],
{
    let m2 = merged + lch.subrange(pl, q + 1);
    lemma_append_run(ranks, next, prev, merged, lch, pl, q);
    assert forall|k: int| 0 <= k < m2.len() implies lower <= #[trigger] m2[k] < upper by {
        if k >= merged.len() {
            assert(m2[k] == lch[k - merged.len() + pl]);
        }
    }
    if pr < rch.len() {
        assert forall|k: int| 0 <= k < m2.len() implies #[trigger] key_before(
            ranks,
            m2[k],
            rch[pr],
        ) by {
            if k < merged.len() {
                assert(key_before(ranks, merged[k], rch[pr]));
            } else {
                let j = k - merged.len() + pl;
                assert(m2[k] == lch[j]);
                assert(lch[j] < middle <= rch[pr]);
            }
        }
    }
    if q + 1 < lch.len() {
        assert forall|k: int| 0 <= k < m2.len() implies #[trigger] key_before(
            ranks,
            m2[k],
            lch[q + 1],
        ) by {
            assert(key_before(ranks, lch[pl], lch[q + 1]));
            if k < merged.len() {
                assert(key_before(ranks, merged[k], lch[pl]));
            } else {
                let j = k - merged.len() + pl;
                assert(m2[k] == lch[j]);
                assert(key_before(ranks, lch[j], lch[q + 1]));
            }
        }
    }
    if pr == rch.len() {
        let k = choose|k: int| 0 <= k < merged.len() && #[trigger] merged[k] == rch[rch.len() - 1];
        assert(m2[k] == rch[rch.len() - 1]);
    }
    if q + 1 == lch.len() {
        assert(m2[m2.len() - 1] == lch[lch.len() - 1]);
    }
    assert(m2[m2.len() - 1] == lch[q]);
}

/// Linking the end of the latest upper run to the next lower node.
proof fn lemma_stitch_after_upper(
    ranks: Seq<i32>,
    next: Seq<usize>,
    prev: Seq<usize>,
    lch: Seq<usize>,
    rch: Seq<usize>,
    pl: int,
    pr: int,
    merged: Seq<usize>,
    lower: int,
    middle: int,
    upper: int,
)
    requires
        step_chains(ranks, lch, rch, lower, middle, upper),
        next.len() == ranks.len(),
        prev.len() == ranks.len(),
        merge_progress(ranks, next, prev, lch, rch, pl, pr, merged, lower, upper),
        pl < lch.len(),
        1 <= pr,
        merged.len() > 0,
        merged[merged.len() - 1] == rch[pr - 1],
    ensures
        merge_progress(
            ranks,
            next.update(rch[pr - 1] as int, lch[pl]),
            prev.update(lch[pl] as int, rch[pr - 1]),
            lch,
            rch,
            pl,
            pr,
            merged,
            lower,
            upper,
        ),
        pending_link(
            next.update(rch[pr - 1] as int, lch[pl]),
            prev.update(lch[pl] as int, rch[pr - 1]),
            merged,
            lch[pl],
        ),
{
    let x = rch[pr - 1];
    let y = lch[pl];
    assert forall|k: int| 0 <= k < merged.len() implies #[trigger] merged[k] != y by {
        assert(key_before(ranks, merged[k], lch[pl]));
    }
    lemma_stitch_keeps_chain(ranks, next, prev, merged, y, y, x);
    assert forall|k: int| pl < k < lch.len() implies #[trigger] lch[k] != y by {
        assert(key_before(ranks, lch[pl], lch[k]));
    }
    lemma_stitch_keeps_rest(next, prev, lch, pl, x, y, y, x);
    assert forall|k: int| pr <= k < rch.len() - 1 implies #[trigger] rch[k] != x by {
        assert(key_before(ranks, rch[pr - 1], rch[k]));
    }
    lemma_stitch_keeps_rest(next, prev, rch, pr, x, y, y, x);
}

/// Linking the end of the latest lower run to the next upper node.
proof fn lemma_stitch_after_lower(
    ranks: Seq<i32>,
    next: Seq<usize>,
    prev: Seq<usize>,
    lch: Seq<usize>,
    rch: Seq<usize>,
    pl: int,
    pr: int,
    merged: Seq<usize>,
    lower: int,
    middle: int,
    upper: int,
)
    requires
        step_chains(ranks, lch, rch, lower, middle, upper),
        next.len() == ranks.len(),
        prev.len() == ranks.len(),
        merge_progress(ranks, next, prev, lch, rch, pl, pr, merged, lower, upper),
        pr < rch.len(),
        1 <= pl,
        merged.len() > 0,
        merged[merged.len() - 1] == lch[pl - 1],
    ensures
        merge_progress(
            ranks,
            next.update(lch[pl - 1] as int, rch[pr]),
            prev.update(rch[pr] as int, lch[pl - 1]),
            lch,
            rch,
            pl,
            pr,
            merged,
            lower,
            upper,
        ),
        pending_link(
            next.update(lch[pl - 1] as int, rch[pr]),
            prev.update(rch[pr] as int, lch[pl - 1]),
            merged,
            rch[pr],
        ),
{
    let x = lch[pl - 1];
    let y = rch[pr];
    assert forall|k: int| 0 <= k < merged.len() implies #[trigger] merged[k] != y by {
        assert(key_before(ranks, merged[k], rch[pr]));
    }
    lemma_stitch_keeps_chain(ranks, next, prev, merged, y, y, x);
    assert forall|k: int| pr < k < rch.len() implies #[trigger] rch[k] != y by {
        assert(key_before(ranks, rch[pr], rch[k]));
    }
    lemma_stitch_keeps_rest(next, prev, rch, pr, x, y, y, x);
    assert forall|k: int| pl <= k < lch.len() - 1 implies #[trigger] lch[k] != x by {
        assert(key_before(ranks, lch[pl - 1], lch[k]));
    }
    lemma_stitch_keeps_rest(next, prev, lch, pl, x, y, y, x);
}

/// The last node of a sorted chain that holds the ends of both blocks is the
/// later of the two in obverse order.
proof fn lemma_last_of_merge(ranks: Seq<i32>, merged: Seq<usize>, lterm: usize, rterm: usize)
    requires
        chain_sorted(ranks, merged),
        merged.len() > 0,
        lterm < rterm,
        exists|k: int| 0 <= k < merged.len() && #[trigger] merged[k] == lterm,
        exists|k: int| 0 <= k < merged.len() && #[trigger] merged[k] == rterm,
        merged[merged.len() - 1] == lterm || merged[merged.len() - 1] == rterm,
    ensures
        merged[merged.len() - 1] == if ranks[lterm as int] > ranks[rterm as int] {
            lterm
        } else {
            rterm
        },
{
    let last = merged.len() - 1;
    let kl = choose|k: int| 0 <= k < merged.len() && #[trigger] merged[k] == lterm;
    let kr = choose|k: int| 0 <= k < merged.len() && #[trigger] merged[k] == rterm;
    if merged[last] == lterm {
        assert(kr != last);
        assert(key_before(ranks, merged[kr], merged[last]));
    } else {
        assert(kl != last);
        assert(key_before(ranks, merged[kl], merged[last]));
    }
}

/// Every current block of `it` holds the items it is the block of.
pub open spec fn blocks_partition(it: MinusPlusShift, n: int) -> bool {
    forall|x: int|
        0 <= x < n ==> {
            &&& 0 <= (#[trigger] it.block_of(x)).0 <= x < it.block_of(x).1 <= n
            &&& forall|y: int|
                it.block_of(x).0 <= y < it.block_of(x).1 ==> #[trigger] it.block_of(y)
                    == it.block_of(x)
        }
}

/// Every current block of `it` has its sorted chain, `chains` at the
/// block's start.
pub open spec fn blocks_chained(
    it: MinusPlusShift,
    n: int,
    ranks: Seq<i32>,
    next: Seq<usize>,
    prev: Seq<usize>,
    roots: Seq<usize>,
    chains: Seq<Seq<usize>>,
) -> bool {
    forall|x: int|
        0 <= x < n ==> block_chain(
            ranks,
            next,
            prev,
            roots,
            (#[trigger] it.block_of(x)).0,
            it.block_of(x).1,
            chains[it.block_of(x).0],
        )
}

/// A block's chain only depends on the links and ends stored in the block.
proof fn lemma_block_chain_frame(
    ranks: Seq<i32>,
    next: Seq<usize>,
    prev: Seq<usize>,
    roots: Seq<usize>,
    next2: Seq<usize>,
    prev2: Seq<usize>,
    roots2: Seq<usize>,
    s: int,
    e: int,
    ch: Seq<usize>,
)
    requires
        block_chain(ranks, next, prev, roots, s, e, ch),
        roots2.len() == roots.len(),
        forall|i: int| s <= i < e ==> #[trigger] next2[i] == next[i],
        forall|i: int| s <= i < e ==> #[trigger] prev2[i] == prev[i],
        forall|i: int| s <= i < e ==> #[trigger] roots2[i] == roots[i],
    ensures
        block_chain(ranks, next2, prev2, roots2, s, e, ch),
{
    assert forall|k: int| 0 <= k < ch.len() - 1 implies #[trigger] next2[ch[k] as int] == ch[k + 1] by {
        assert(s <= ch[k] < e);
        assert(next[ch[k] as int] == ch[k + 1]);
    }
    assert forall|k: int| 0 < k < ch.len() implies #[trigger] prev2[ch[k] as int] == ch[k - 1] by {
        assert(s <= ch[k] < e);
        assert(prev[ch[k] as int] == ch[k - 1]);
    }
    assert(roots2[s] == roots[s]);
    assert(roots2[e - 1] == roots[e - 1]);
}

/// The walk from `cur` along each node's latest parent, down to `stop`: the
/// nodes it visits, and whether it reaches `stop`.  It stops short at a node
/// with no parent, or whose latest parent is not below it.
pub open spec fn parent_walk(parents: Seq<Vec<usize>>, cur: nat, stop: nat) -> (Seq<usize>, bool)
    decreases cur,
{
    if cur == stop {
        (seq![cur as usize], true)
    } else if cur >= parents.len() || parents[cur as int]@.len() == 0 {
        (seq![cur as usize], false)
    } else {
        let p = parents[cur as int]@[parents[cur as int]@.len() - 1];
        if p >= cur {
            (seq![cur as usize], false)
        } else {
            let rest = parent_walk(parents, p as nat, stop);
            (seq![cur as usize] + rest.0, rest.1)
        }
    }
}

/// The walk from `cur` along each node's latest child, up to `stop`: the nodes
/// it visits, and whether it reaches `stop`.  It stops short at a node with no
/// child, or whose latest child is not above it among the nodes.
pub open spec fn child_walk(children: Seq<Vec<usize>>, cur: nat, stop: nat) -> (Seq<usize>, bool)
    decreases children.len() - cur,
{
    if cur == stop {
        (seq![cur as usize], true)
    } else if cur >= children.len() || children[cur as int]@.len() == 0 {
        (seq![cur as usize], false)
    } else {
        let c = children[cur as int]@[children[cur as int]@.len() - 1];
        if c <= cur || c >= children.len() {
            (seq![cur as usize], false)
        } else {
            let rest = child_walk(children, c as nat, stop);
            (seq![cur as usize] + rest.0, rest.1)
        }
    }
}

/// `links` with the entry of every node of `nodes` set to `v`.
pub open spec fn marked(links: Seq<usize>, nodes: Seq<usize>, v: usize) -> Seq<usize> {
    Seq::new(links.len(), |i: int| if nodes.contains(i as usize) { v } else { links[i] })
}

/// Marking one more node.
proof fn lemma_marked_push(links: Seq<usize>, nodes: Seq<usize>, x: usize, v: usize)
    requires
        x < links.len(),
        links.len() <= usize::MAX,
    ensures
        marked(links, nodes.push(x), v) == marked(links, nodes, v).update(x as int, v),
{
    let a = marked(links, nodes.push(x), v);
    let b = marked(links, nodes, v).update(x as int, v);
    assert forall|i: int| 0 <= i < links.len() implies a[i] == b[i] by {
        if nodes.push(x).contains(i as usize) {
            let k = choose|k: int| 0 <= k < nodes.push(x).len() && nodes.push(x)[k] == i as usize;
            if k < nodes.len() {
                assert(nodes[k] == i as usize);
            }
        }
        if nodes.contains(i as usize) {
            let k = choose|k: int| 0 <= k < nodes.len() && nodes[k] == i as usize;
            assert(nodes.push(x)[k] == i as usize);
        }
        if i == x {
            assert(nodes.push(x)[nodes.len() as int] == x);
        }
    }
    assert(a =~= b);
}

/// The walk from `cur` along east-south links up to `stop`, with room for
/// `room` more nodes after `cur`: the nodes it visits, and whether it reaches
/// `stop`.  It stops short at a link that does not lead to a later node, or
/// when there is no room left.
pub open spec fn es_walk(es: Seq<usize>, cur: nat, stop: nat, room: nat) -> (Seq<usize>, bool)
    decreases es.len() - cur,
{
    if cur == stop {
        (seq![cur as usize], true)
    } else if cur >= es.len() {
        (seq![cur as usize], false)
    } else {
        let next = es[cur as int];
        if next >= es.len() || next <= cur || room == 0 {
            (seq![cur as usize], false)
        } else {
            let rest = es_walk(es, next as nat, stop, (room - 1) as nat);
            (seq![cur as usize] + rest.0, rest.1)
        }
    }
}

/// The walk from `cur` along west-north links while they are set and the
/// node ranks below `limit`, with room for `room` more nodes after `cur`: the
/// nodes it visits, and whether it ended well.  It stops short at a link that
/// does not lead to an earlier node, or when there is no room left.
pub open spec fn wn_walk(
    wn: Seq<usize>,
    ranks: Seq<i32>,
    cur: nat,
    limit: i32,
    room: nat,
) -> (Seq<usize>, bool)
    decreases cur,
{
    if cur >= wn.len() {
        (seq![cur as usize], false)
    } else if wn[cur as int] == usize::MAX || ranks[cur as int] >= limit {
        (seq![cur as usize], true)
    } else {
        let next = wn[cur as int];
        if next >= cur || room == 0 {
            (seq![cur as usize], false)
        } else {
            let rest = wn_walk(wn, ranks, next as nat, limit, (room - 1) as nat);
            (seq![cur as usize] + rest.0, rest.1)
        }
    }
}

/// `roots` with `nodes` written from `start` up.
pub open spec fn place_up(roots: Seq<usize>, start: int, nodes: Seq<usize>) -> Seq<usize> {
    Seq::new(
        roots.len(),
        |i: int|
            if start <= i < start + nodes.len() {
                nodes[i - start]
            } else {
                roots[i]
            },
    )
}

/// `roots` with `nodes` written from `top - 1` down.
pub open spec fn place_down(roots: Seq<usize>, top: int, nodes: Seq<usize>) -> Seq<usize> {
    Seq::new(
        roots.len(),
        |i: int|
            if top - nodes.len() <= i < top {
                nodes[top - 1 - i]
            } else {
                roots[i]
            },
    )
}

/// The lists held by a list of vectors.
pub open spec fn lists(v: Seq<Vec<usize>>) -> Seq<Seq<usize>> {
    v.map_values(|x: Vec<usize>| x@)
}

/// The obverse rank of the last entry of `list`, or `i32::MAX` for an empty
/// list.
pub open spec fn latest_rank(ranks: Seq<i32>, list: Seq<usize>) -> i32 {
    if list.len() == 0 {
        i32::MAX
    } else {
        ranks[list[list.len() - 1] as int]
    }
}

/// The first position from `rb` on, below `upper`, whose node in `roots`
/// ranks below `limit`.
pub open spec fn first_below(ranks: Seq<i32>, roots: Seq<usize>, rb: int, upper: int, limit: i32) -> Option<int>
    decreases upper - rb,
{
    if rb < 0 || rb >= upper {
        None
    } else if ranks[roots[rb] as int] < limit {
        Some(rb)
    } else {
        first_below(ranks, roots, rb + 1, upper, limit)
    }
}

/// `pa` with `p` appended, in turn, to the list of each node of
/// `roots[from..to]`.
pub open spec fn push_parent_all(pa: Seq<Seq<usize>>, roots: Seq<usize>, from: int, to: int, p: usize) -> Seq<Seq<usize>>
    decreases to - from,
{
    if from >= to {
        pa
    } else {
        push_parent_all(
            pa.update(roots[from] as int, pa[roots[from] as int].push(p)),
            roots,
            from + 1,
            to,
            p,
        )
    }
}

/// The appending of edges: each parent of the stack `roots[lower..i]`, from the
/// top, drops the children of the stack `roots[rb..upper]` that rank at or above
/// its latest child, and gains the rest.  The children lists, the parents
/// lists, and whether no parent ran out of children.
pub open spec fn append_from(
    ranks: Seq<i32>,
    roots: Seq<usize>,
    lower: int,
    upper: int,
    i: int,
    rb: int,
    ch: Seq<Seq<usize>>,
    pa: Seq<Seq<usize>>,
) -> (Seq<Seq<usize>>, Seq<Seq<usize>>, bool)
    decreases i - lower,
{
    if i <= lower {
        (ch, pa, true)
    } else {
        let p = roots[i - 1];
        match first_below(ranks, roots, rb, upper, latest_rank(ranks, ch[p as int])) {
            None => (ch, pa, false),
            Some(rb2) => append_from(
                ranks,
                roots,
                lower,
                upper,
                i - 1,
                rb2,
                ch.update(p as int, ch[p as int] + roots.subrange(rb2, upper)),
                push_parent_all(pa, roots, rb2, upper, p),
            ),
        }
    }
}

/// Writing one more node on top of a stack written from `start` up.
proof fn lemma_place_up_push(roots: Seq<usize>, start: int, nodes: Seq<usize>, x: usize)
    requires
        0 <= start,
        start + nodes.len() < roots.len(),
    ensures
        place_up(roots, start, nodes.push(x)) == place_up(roots, start, nodes).update(
            start + nodes.len(),
            x,
        ),
{
    assert(place_up(roots, start, nodes.push(x)) =~= place_up(roots, start, nodes).update(
        start + nodes.len(),
        x,
    ));
}

/// Writing one more node below a stack written from `top - 1` down.
proof fn lemma_place_down_push(roots: Seq<usize>, top: int, nodes: Seq<usize>, x: usize)
    requires
        top <= roots.len(),
        0 <= top - 1 - nodes.len(),
    ensures
        place_down(roots, top, nodes.push(x)) == place_down(roots, top, nodes).update(
            top - 1 - nodes.len(),
            x,
        ),
{
    assert(place_down(roots, top, nodes.push(x)) =~= place_down(roots, top, nodes).update(
        top - 1 - nodes.len(),
        x,
    ));
}

/// Appending to one vector of a list of vectors.
proof fn lemma_lists_update(v: Seq<Vec<usize>>, k: int, w: Vec<usize>)
    requires
        0 <= k < v.len(),
    ensures
        lists(v.update(k, w)) == lists(v).update(k, w@),
{
    assert(lists(v.update(k, w)) =~= lists(v).update(k, w@));
}

/// The working state of the block merge.
struct AuxData {
    left_root: IndexType,
    right_root: IndexType,
    left_terminal: IndexType,
    right_terminal: IndexType,
    final_root: IndexType,
    final_terminal: IndexType,
    left_block_low: IndexType,
    left_block_mid: IndexType,
    left_block_high: IndexType,
    right_block_low: IndexType,
    right_block_mid: IndexType,
    right_block_high: IndexType,
    accum_parents: Vec<Vec<IndexType>>,
    accum_children: Vec<Vec<IndexType>>,
    cross_wn_links: Vec<IndexType>,
    cross_es_links: Vec<IndexType>,
    sorted_next: Vec<IndexType>,
    sorted_prev: Vec<IndexType>,
    sorted_roots: Vec<IndexType>,
}

impl AuxData {
    /// Every stored index is a node of an `n`-node graph; a cross link may also
    /// be unset (`usize::MAX`).
    spec fn wf(&self, n: nat) -> bool {
        &&& self.accum_parents@.len() == n
        &&& self.accum_children@.len() == n
        &&& self.cross_wn_links@.len() == n
        &&& self.cross_es_links@.len() == n
        &&& self.sorted_next@.len() == n
        &&& self.sorted_prev@.len() == n
        &&& self.sorted_roots@.len() == n
        &&& forall|i: int| 0 <= i < n ==> #[trigger] self.sorted_next@[i] < n
        &&& forall|i: int| 0 <= i < n ==> #[trigger] self.sorted_prev@[i] < n
        &&& forall|i: int| 0 <= i < n ==> #[trigger] self.sorted_roots@[i] < n
        &&& forall|i: int|
            0 <= i < n ==> #[trigger] self.cross_wn_links@[i] < n || self.cross_wn_links@[i]
                == usize::MAX
        &&& forall|i: int|
            0 <= i < n ==> #[trigger] self.cross_es_links@[i] < n || self.cross_es_links@[i]
                == usize::MAX
        &&& forall|i: int, k: int|
            0 <= i < n && 0 <= k < self.accum_parents@[i]@.len() ==> #[trigger] self.accum_parents@[i]@[k]
                < n
        &&& forall|i: int, k: int|
            0 <= i < n && 0 <= k < self.accum_children@[i]@.len()
                ==> #[trigger] self.accum_children@[i]@[k] < n
        &&& self.left_root < n
        &&& self.right_root < n
        &&& self.left_terminal < n
        &&& self.right_terminal < n
        &&& self.final_root < n
        &&& self.final_terminal < n
        &&& self.left_block_low < n
        &&& self.left_block_mid < n
        &&& self.left_block_high < n
        &&& self.right_block_low < n
        &&& self.right_block_mid < n
        &&& self.right_block_high < n
    }

    /// The walk of `apply_downwards_updates` down the latest upper run, from
    /// its last node along latest parents to its least index.
    spec fn down_walk(&self) -> (Seq<usize>, bool) {
        parent_walk(self.accum_parents@, self.right_block_high as nat, self.right_block_mid as nat)
    }

    /// The walk of `apply_downwards_updates` up the latest lower run, from its
    /// first node along latest children to its greatest index.
    spec fn up_walk(&self) -> (Seq<usize>, bool) {
        child_walk(self.accum_children@, self.left_block_low as nat, self.left_block_mid as nat)
    }

    /// `self` and `o` agree on the working indices of a merge step.
    spec fn same_indices(&self, o: &Self) -> bool {
        &&& self.left_root == o.left_root
        &&& self.right_root == o.right_root
        &&& self.left_terminal == o.left_terminal
        &&& self.right_terminal == o.right_terminal
        &&& self.final_root == o.final_root
        &&& self.final_terminal == o.final_terminal
        &&& self.left_block_low == o.left_block_low
        &&& self.left_block_mid == o.left_block_mid
        &&& self.left_block_high == o.left_block_high
        &&& self.right_block_low == o.right_block_low
        &&& self.right_block_mid == o.right_block_mid
        &&& self.right_block_high == o.right_block_high
    }

    /// The state before the first merge step: every node a block of its own.
    fn new(n: usize) -> (aux: Self)
        requires
            0 < n,
        ensures
            aux.wf(n as nat),
            forall|i: int| 0 <= i < n ==> #[trigger] aux.sorted_roots@[i] == i,
            forall|i: int|
                0 <= i < n ==> (#[trigger] aux.accum_parents@[i])@ == Seq::<usize>::empty()
                    && aux.accum_children@[i]@ == Seq::<usize>::empty(),
    {
        let last = n - 1;
        let mut accum_parents: Vec<Vec<IndexType>> = Vec::new();
        let mut accum_children: Vec<Vec<IndexType>> = Vec::new();
        let mut cross_wn_links: Vec<IndexType> = Vec::new();
        let mut cross_es_links: Vec<IndexType> = Vec::new();
        let mut sorted_next: Vec<IndexType> = Vec::new();
        let mut sorted_prev: Vec<IndexType> = Vec::new();
        let mut sorted_roots: Vec<IndexType> = Vec::new();
        let mut i: usize = 0;
        while i < n
            invariant
                i <= n,
                last == n - 1,
                accum_parents@.len() == i,
                accum_children@.len() == i,
                cross_wn_links@.len() == i,
                cross_es_links@.len() == i,
                sorted_next@.len() == i,
                sorted_prev@.len() == i,
                sorted_roots@.len() == i,
                forall|k: int| 0 <= k < i ==> (#[trigger] accum_parents@[k])@ == Seq::<usize>::empty(),
                forall|k: int| 0 <= k < i ==> (#[trigger] accum_children@[k])@ == Seq::<usize>::empty(),
                forall|k: int| 0 <= k < i ==> #[trigger] cross_wn_links@[k] == usize::MAX,
                forall|k: int| 0 <= k < i ==> #[trigger] cross_es_links@[k] == usize::MAX,
                forall|k: int| 0 <= k < i ==> #[trigger] sorted_next@[k] == last,
                forall|k: int| 0 <= k < i ==> #[trigger] sorted_prev@[k] == last,
                forall|k: int| 0 <= k < i ==> #[trigger] sorted_roots@[k] == k,
            decreases n - i,
        {
            accum_parents.push(Vec::new());
            accum_children.push(Vec::new());
            cross_wn_links.push(IndexType::MAX);
            cross_es_links.push(IndexType::MAX);
            sorted_next.push(last);
            sorted_prev.push(last);
            sorted_roots.push(i);
            i += 1;
        }
        AuxData {
            left_root: 0,
            right_root: 0,
            left_terminal: 0,
            right_terminal: 0,
            final_root: 0,
            final_terminal: 0,
            left_block_low: 0,
            left_block_mid: 0,
            left_block_high: 0,
            right_block_low: 0,
            right_block_mid: 0,
            right_block_high: 0,
            accum_parents,
            accum_children,
            cross_wn_links,
            cross_es_links,
            sorted_next,
            sorted_prev,
            sorted_roots,
        }
    }
}

/// What `apply_upwards_appending` makes of `a` for the step `[lower, upper)`:
/// the roots, the children lists, the parents lists, and whether it went
/// through.  The parent stack is written from `lower` up, then the child stack
/// from `upper` down; a stack that stops short ends the work there.
spec fn appending_outcome(ranks: Seq<i32>, a: AuxData, lower: int, upper: int) -> (
    Seq<usize>,
    Seq<Seq<usize>>,
    Seq<Seq<usize>>,
    bool,
) {
    let ch0 = lists(a.accum_children@);
    let pa0 = lists(a.accum_parents@);
    let lw = es_walk(
        a.cross_es_links@,
        a.left_block_high as nat,
        a.left_block_mid as nat,
        (upper - lower - 1) as nat,
    );
    let roots1 = place_up(a.sorted_roots@, lower, lw.0);
    if !lw.1 {
        (roots1, ch0, pa0, false)
    } else {
        let limit = latest_rank(ranks, ch0[a.left_block_mid as int]);
        let rw = wn_walk(
            a.cross_wn_links@,
            ranks,
            a.right_block_low as nat,
            limit,
            (upper - 1 - lower) as nat,
        );
        let roots2 = place_down(roots1, upper, rw.0);
        if !rw.1 {
            (roots2, ch0, pa0, false)
        } else {
            let app = append_from(
                ranks,
                roots2,
                lower,
                upper,
                lower + lw.0.len(),
                upper - rw.0.len(),
                ch0,
                pa0,
            );
            (roots2, app.0, app.1, app.2)
        }
    }
}

impl DominanceGraph {
    /// Builds a run on the upper block: from `right_current`, follows the
    /// upper chain while the next node ranks below `left_next_rank`, stopping
    /// at the chain's end.  The run's first node, least index and last node
    /// are recorded, and `right_current` is left on the last node.
    fn build_right_block(
        &self,
        aux: &mut AuxData,
        left_next_rank: RankType,
        right_current: &mut IndexType,
        Ghost(rch): Ghost<Seq<usize>>,
        Ghost(pos): Ghost<int>,
    ) -> (end: Ghost<int>)
        requires
            old(aux).wf(self.nodes@.len() as nat),
            chain_sorted(obverse_ranks(self.nodes@), rch),
            linked_from(old(aux).sorted_next@, rch, pos),
            forall|k: int| 0 <= k < rch.len() ==> #[trigger] rch[k] < self.nodes@.len(),
            0 <= pos < rch.len(),
            *old(right_current) == rch[pos],
            old(aux).right_terminal == rch[rch.len() - 1],
            self.nodes@[rch[pos] as int].obverse_rank < left_next_rank,
        ensures
            final(aux).wf(self.nodes@.len() as nat),
            pos <= end@ < rch.len(),
            *final(right_current) == rch[end@],
            forall|k: int|
                pos <= k <= end@ ==> self.nodes@[#[trigger] rch[k] as int].obverse_rank
                    < left_next_rank,
            end@ < rch.len() - 1 ==> self.nodes@[rch[end@ + 1] as int].obverse_rank
                >= left_next_rank,
            *final(aux) == (AuxData {
                right_block_low: rch[pos],
                right_block_mid: least_index(rch, pos, end@),
                right_block_high: rch[end@],
                ..*old(aux)
            }),
    {
        let ghost ranks = obverse_ranks(self.nodes@);
        aux.right_block_low = *right_current;
        let mut right_next = aux.sorted_next[*right_current];
        let mut right_mid = *right_current;
        let mut min_prime = *right_current;
        let ghost mut q: int = pos;
        while (self.nodes[right_next].obverse_rank < left_next_rank) && (*right_current
            != aux.right_terminal)
            invariant
                aux.wf(self.nodes@.len() as nat),
                *aux == (AuxData { right_block_low: rch[pos], ..*old(aux) }),
                ranks == obverse_ranks(self.nodes@),
                chain_sorted(ranks, rch),
                linked_from(aux.sorted_next@, rch, pos),
                forall|k: int| 0 <= k < rch.len() ==> #[trigger] rch[k] < self.nodes@.len(),
                0 <= pos <= q < rch.len(),
                *right_current == rch[q],
                right_next == aux.sorted_next@[rch[q] as int],
                right_next < self.nodes@.len(),
                min_prime == right_mid,
                right_mid == least_index(rch, pos, q),
                min_prime < self.nodes@.len(),
                forall|k: int|
                    pos <= k <= q ==> self.nodes@[#[trigger] rch[k] as int].obverse_rank
                        < left_next_rank,
                aux.right_terminal == rch[rch.len() - 1],
            decreases rch.len() - q,
        {
            proof {
                if q == rch.len() - 1 {
                    assert(*right_current == aux.right_terminal);
                }
                assert(aux.sorted_next@[rch[q] as int] == rch[q + 1]);
            }
            *right_current = right_next;
            right_next = aux.sorted_next[*right_current];
            proof {
                q = q + 1;
            }
            if *right_current < min_prime {
                min_prime = *right_current;
                right_mid = *right_current;
            }
        }
        proof {
            if q < rch.len() - 1 {
                assert(*right_current != aux.right_terminal) by {
                    assert(key_before(ranks, rch[q], rch[rch.len() - 1]));
                }
                assert(aux.sorted_next@[rch[q] as int] == rch[q + 1]);
            }
        }
        aux.right_block_mid = right_mid;
        aux.right_block_high = *right_current;
        Ghost(q)
    }

    /// Builds the last run on the upper block, when the lower block is used
    /// up: follows the upper chain from `right_current` to its end.
    fn build_right_block_terminal(
        &self,
        aux: &mut AuxData,
        right_current: &mut IndexType,
        Ghost(rch): Ghost<Seq<usize>>,
        Ghost(pos): Ghost<int>,
    )
        requires
            old(aux).wf(self.nodes@.len() as nat),
            rch.no_duplicates(),
            linked_from(old(aux).sorted_next@, rch, pos),
            forall|k: int| 0 <= k < rch.len() ==> #[trigger] rch[k] < self.nodes@.len(),
            0 <= pos < rch.len(),
            *old(right_current) == rch[pos],
            old(aux).right_terminal == rch[rch.len() - 1],
        ensures
            final(aux).wf(self.nodes@.len() as nat),
            *final(right_current) == rch[rch.len() - 1],
            *final(aux) == (AuxData {
                right_block_low: rch[pos],
                right_block_mid: least_index(rch, pos, rch.len() - 1),
                right_block_high: rch[rch.len() - 1],
                ..*old(aux)
            }),
    {
        aux.right_block_low = *right_current;
        let right_terminal = aux.right_terminal;
        let mut min_prime = *right_current;
        let ghost mut q: int = pos;
        while *right_current != right_terminal
            invariant
                aux.wf(self.nodes@.len() as nat),
                *aux == (AuxData { right_block_low: rch[pos], ..*old(aux) }),
                rch.no_duplicates(),
                linked_from(aux.sorted_next@, rch, pos),
                forall|k: int| 0 <= k < rch.len() ==> #[trigger] rch[k] < self.nodes@.len(),
                0 <= pos <= q < rch.len(),
                *right_current == rch[q],
                min_prime == least_index(rch, pos, q),
                min_prime < self.nodes@.len(),
                right_terminal == rch[rch.len() - 1],
            decreases rch.len() - q,
        {
            proof {
                assert(aux.sorted_next@[rch[q] as int] == rch[q + 1]);
                assert(rch[q] < self.nodes@.len());
            }
            *right_current = aux.sorted_next[*right_current];
            proof {
                q = q + 1;
            }
            if *right_current < min_prime {
                min_prime = *right_current;
            }
        }
        aux.right_block_mid = min_prime;
        aux.right_block_high = right_terminal;
    }

    /// Builds a run on the lower block: from `left_current`, follows the
    /// lower chain while the next node ranks at most `right_next_rank`,
    /// stopping at the chain's end.  The run's first node, greatest index and
    /// last node are recorded, and `left_current` is left on the last node.
    fn build_left_block(
        &self,
        aux: &mut AuxData,
        right_next_rank: RankType,
        left_current: &mut IndexType,
        Ghost(lch): Ghost<Seq<usize>>,
        Ghost(pos): Ghost<int>,
    ) -> (end: Ghost<int>)
        requires
            old(aux).wf(self.nodes@.len() as nat),
            chain_sorted(obverse_ranks(self.nodes@), lch),
            linked_from(old(aux).sorted_next@, lch, pos),
            forall|k: int| 0 <= k < lch.len() ==> #[trigger] lch[k] < self.nodes@.len(),
            0 <= pos < lch.len(),
            *old(left_current) == lch[pos],
            old(aux).left_terminal == lch[lch.len() - 1],
            self.nodes@[lch[pos] as int].obverse_rank <= right_next_rank,
        ensures
            final(aux).wf(self.nodes@.len() as nat),
            pos <= end@ < lch.len(),
            *final(left_current) == lch[end@],
            forall|k: int|
                pos <= k <= end@ ==> self.nodes@[#[trigger] lch[k] as int].obverse_rank
                    <= right_next_rank,
            end@ < lch.len() - 1 ==> self.nodes@[lch[end@ + 1] as int].obverse_rank
                > right_next_rank,
            *final(aux) == (AuxData {
                left_block_low: lch[pos],
                left_block_mid: greatest_index(lch, pos, end@),
                left_block_high: lch[end@],
                ..*old(aux)
            }),
    {
        let ghost ranks = obverse_ranks(self.nodes@);
        aux.left_block_low = *left_current;
        let mut left_next = aux.sorted_next[*left_current];
        let mut max_prime = *left_current;
        let ghost mut q: int = pos;
        while (self.nodes[left_next].obverse_rank <= right_next_rank) && (*left_current
            != aux.left_terminal)
            invariant
                aux.wf(self.nodes@.len() as nat),
                *aux == (AuxData { left_block_low: lch[pos], ..*old(aux) }),
                ranks == obverse_ranks(self.nodes@),
                chain_sorted(ranks, lch),
                linked_from(aux.sorted_next@, lch, pos),
                forall|k: int| 0 <= k < lch.len() ==> #[trigger] lch[k] < self.nodes@.len(),
                0 <= pos <= q < lch.len(),
                *left_current == lch[q],
                left_next == aux.sorted_next@[lch[q] as int],
                left_next < self.nodes@.len(),
                max_prime == greatest_index(lch, pos, q),
                max_prime < self.nodes@.len(),
                forall|k: int|
                    pos <= k <= q ==> self.nodes@[#[trigger] lch[k] as int].obverse_rank
                        <= right_next_rank,
                aux.left_terminal == lch[lch.len() - 1],
            decreases lch.len() - q,
        {
            proof {
                if q == lch.len() - 1 {
                    assert(*left_current == aux.left_terminal);
                }
                assert(aux.sorted_next@[lch[q] as int] == lch[q + 1]);
            }
            *left_current = left_next;
            left_next = aux.sorted_next[*left_current];
            proof {
                q = q + 1;
            }
            if *left_current >= max_prime {
                max_prime = *left_current;
            }
        }
        proof {
            if q < lch.len() - 1 {
                assert(*left_current != aux.left_terminal) by {
                    assert(key_before(ranks, lch[q], lch[lch.len() - 1]));
                }
                assert(aux.sorted_next@[lch[q] as int] == lch[q + 1]);
            }
        }
        aux.left_block_mid = max_prime;
        aux.left_block_high = *left_current;
        Ghost(q)
    }

    /// Builds the last run on the lower block, when the upper block is used
    /// up: follows the lower chain from `left_current` to its end.
    fn build_left_block_terminal(
        &self,
        aux: &mut AuxData,
        left_current: &mut IndexType,
        Ghost(lch): Ghost<Seq<usize>>,
        Ghost(pos): Ghost<int>,
    )
        requires
            old(aux).wf(self.nodes@.len() as nat),
            lch.no_duplicates(),
            linked_from(old(aux).sorted_next@, lch, pos),
            forall|k: int| 0 <= k < lch.len() ==> #[trigger] lch[k] < self.nodes@.len(),
            0 <= pos < lch.len(),
            *old(left_current) == lch[pos],
            old(aux).left_terminal == lch[lch.len() - 1],
        ensures
            final(aux).wf(self.nodes@.len() as nat),
            *final(left_current) == lch[lch.len() - 1],
            *final(aux) == (AuxData {
                left_block_low: lch[pos],
                left_block_mid: greatest_index(lch, pos, lch.len() - 1),
                left_block_high: lch[lch.len() - 1],
                ..*old(aux)
            }),
    {
        aux.left_block_low = *left_current;
        let left_terminal = aux.left_terminal;
        let mut max_prime = *left_current;
        let ghost mut q: int = pos;
        while *left_current != left_terminal
            invariant
                aux.wf(self.nodes@.len() as nat),
                *aux == (AuxData { left_block_low: lch[pos], ..*old(aux) }),
                lch.no_duplicates(),
                linked_from(aux.sorted_next@, lch, pos),
                forall|k: int| 0 <= k < lch.len() ==> #[trigger] lch[k] < self.nodes@.len(),
                0 <= pos <= q < lch.len(),
                *left_current == lch[q],
                max_prime == greatest_index(lch, pos, q),
                max_prime < self.nodes@.len(),
                left_terminal == lch[lch.len() - 1],
            decreases lch.len() - q,
        {
            proof {
                assert(aux.sorted_next@[lch[q] as int] == lch[q + 1]);
                assert(lch[q] < self.nodes@.len());
            }
            *left_current = aux.sorted_next[*left_current];
            proof {
                q = q + 1;
            }
            if *left_current >= max_prime {
                max_prime = *left_current;
            }
        }
        aux.left_block_mid = max_prime;
        aux.left_block_high = left_terminal;
    }

    /// Links the end of an upper run, `right_tracer`, to the next node of the
    /// lower block, and moves `right_tracer` on along the upper chain.
    fn stitch_right_below_left(
        aux: &mut AuxData,
        right_tracer: &mut IndexType,
        left_tracer: IndexType,
    )
        requires
            old(aux).wf(old(aux).sorted_next@.len() as nat),
            *old(right_tracer) < old(aux).sorted_next@.len(),
            left_tracer < old(aux).sorted_next@.len(),
        ensures
            final(aux).wf(old(aux).sorted_next@.len() as nat),
            final(aux).same_indices(old(aux)),
            final(aux).sorted_next@ == old(aux).sorted_next@.update(
                *old(right_tracer) as int,
                left_tracer,
            ),
            final(aux).sorted_prev@ == old(aux).sorted_prev@.update(
                left_tracer as int,
                *old(right_tracer),
            ),
            final(aux).sorted_roots@ == old(aux).sorted_roots@,
            final(aux).cross_wn_links@ == old(aux).cross_wn_links@,
            final(aux).cross_es_links@ == old(aux).cross_es_links@,
            final(aux).accum_parents@ == old(aux).accum_parents@,
            final(aux).accum_children@ == old(aux).accum_children@,
            *final(right_tracer) == old(aux).sorted_next@[*old(right_tracer) as int],
    {
        let right_next = aux.sorted_next[*right_tracer];
        aux.sorted_next[*right_tracer] = left_tracer;
        aux.sorted_prev[left_tracer] = *right_tracer;
        *right_tracer = right_next;
    }

    /// Links the end of a lower run, `left_tracer`, to the next node of the
    /// upper block, and moves `left_tracer` on along the lower chain.
    fn stitch_left_below_right(
        aux: &mut AuxData,
        left_tracer: &mut IndexType,
        right_tracer: IndexType,
    )
        requires
            old(aux).wf(old(aux).sorted_next@.len() as nat),
            *old(left_tracer) < old(aux).sorted_next@.len(),
            right_tracer < old(aux).sorted_next@.len(),
        ensures
            final(aux).wf(old(aux).sorted_next@.len() as nat),
            final(aux).same_indices(old(aux)),
            final(aux).sorted_next@ == old(aux).sorted_next@.update(
                *old(left_tracer) as int,
                right_tracer,
            ),
            final(aux).sorted_prev@ == old(aux).sorted_prev@.update(
                right_tracer as int,
                *old(left_tracer),
            ),
            final(aux).sorted_roots@ == old(aux).sorted_roots@,
            final(aux).cross_wn_links@ == old(aux).cross_wn_links@,
            final(aux).cross_es_links@ == old(aux).cross_es_links@,
            final(aux).accum_parents@ == old(aux).accum_parents@,
            final(aux).accum_children@ == old(aux).accum_children@,
            *final(left_tracer) == old(aux).sorted_next@[*old(left_tracer) as int],
    {
        let left_next = aux.sorted_next[*left_tracer];
        aux.sorted_next[*left_tracer] = right_tracer;
        aux.sorted_prev[right_tracer] = *left_tracer;
        *left_tracer = left_next;
    }

    /// Links the end of the latest upper run, which `right_tracer` is on, to
    /// the next node of the lower block, and moves `right_tracer` on.
    fn stitch_right_between_left(
        aux: &mut AuxData,
        right_tracer: &mut IndexType,
        left_above_tracer: IndexType,
    )
        requires
            old(aux).wf(old(aux).sorted_next@.len() as nat),
            *old(right_tracer) == old(aux).right_block_high,
            left_above_tracer < old(aux).sorted_next@.len(),
        ensures
            final(aux).wf(old(aux).sorted_next@.len() as nat),
            final(aux).same_indices(old(aux)),
            final(aux).sorted_next@ == old(aux).sorted_next@.update(
                old(aux).right_block_high as int,
                left_above_tracer,
            ),
            final(aux).sorted_prev@ == old(aux).sorted_prev@.update(
                left_above_tracer as int,
                old(aux).right_block_high,
            ),
            final(aux).sorted_roots@ == old(aux).sorted_roots@,
            final(aux).cross_wn_links@ == old(aux).cross_wn_links@,
            final(aux).cross_es_links@ == old(aux).cross_es_links@,
            final(aux).accum_parents@ == old(aux).accum_parents@,
            final(aux).accum_children@ == old(aux).accum_children@,
            *final(right_tracer) == old(aux).sorted_next@[old(aux).right_block_high as int],
    {
        let right_next = aux.sorted_next[*right_tracer];
        let high = aux.right_block_high;
        aux.sorted_next[high] = left_above_tracer;
        aux.sorted_prev[left_above_tracer] = high;
        *right_tracer = right_next;
    }

    /// Links the end of the latest lower run, which `left_tracer` is on, to
    /// the next node of the upper block, and moves `left_tracer` on.
    fn stitch_left_between_right(
        aux: &mut AuxData,
        left_tracer: &mut IndexType,
        right_above_tracer: IndexType,
    )
        requires
            old(aux).wf(old(aux).sorted_next@.len() as nat),
            *old(left_tracer) == old(aux).left_block_high,
            right_above_tracer < old(aux).sorted_next@.len(),
        ensures
            final(aux).wf(old(aux).sorted_next@.len() as nat),
            final(aux).same_indices(old(aux)),
            final(aux).sorted_next@ == old(aux).sorted_next@.update(
                old(aux).left_block_high as int,
                right_above_tracer,
            ),
            final(aux).sorted_prev@ == old(aux).sorted_prev@.update(
                right_above_tracer as int,
                old(aux).left_block_high,
            ),
            final(aux).sorted_roots@ == old(aux).sorted_roots@,
            final(aux).cross_wn_links@ == old(aux).cross_wn_links@,
            final(aux).cross_es_links@ == old(aux).cross_es_links@,
            final(aux).accum_parents@ == old(aux).accum_parents@,
            final(aux).accum_children@ == old(aux).accum_children@,
            *final(left_tracer) == old(aux).sorted_next@[old(aux).left_block_high as int],
    {
        let left_next = aux.sorted_next[*left_tracer];
        let high = aux.left_block_high;
        aux.sorted_next[high] = right_above_tracer;
        aux.sorted_prev[right_above_tracer] = high;
        *left_tracer = left_next;
    }

    /// Updates the cross links of the two latest runs, the upper run lying
    /// below the lower one in obverse order: from the upper run's last node,
    /// following each node's latest parent down to the run's least index,
    /// every node's west-north link becomes the lower run's first node; from
    /// the lower run's first node, following each node's latest child up to
    /// the run's greatest index, every node's east-south link becomes the upper
    /// run's last node.  A walk that does not move strictly down (up) in
    /// index, or that reaches a node with no parent (child), abandons the
    /// block merge: the result is `false`.  The walks are `parent_walk` and
    /// `child_walk`; the second is only taken when the first went through.
    fn apply_downwards_updates(aux: &mut AuxData) -> (ok: bool)
        requires
            old(aux).wf(old(aux).sorted_next@.len() as nat),
        ensures
            final(aux).wf(old(aux).sorted_next@.len() as nat),
            final(aux).same_indices(old(aux)),
            final(aux).sorted_next@ == old(aux).sorted_next@,
            final(aux).sorted_prev@ == old(aux).sorted_prev@,
            final(aux).sorted_roots@ == old(aux).sorted_roots@,
            final(aux).accum_parents@ == old(aux).accum_parents@,
            final(aux).accum_children@ == old(aux).accum_children@,
            final(aux).cross_wn_links@ == marked(
                old(aux).cross_wn_links@,
                old(aux).down_walk().0,
                old(aux).left_block_low,
            ),
            old(aux).down_walk().1 ==> final(aux).cross_es_links@ == marked(
                old(aux).cross_es_links@,
                old(aux).up_walk().0,
                old(aux).right_block_high,
            ),
            !old(aux).down_walk().1 ==> final(aux).cross_es_links@ == old(aux).cross_es_links@,
            ok == (old(aux).down_walk().1 && old(aux).up_walk().1),
    {
        let ghost n = aux.sorted_next@.len() as nat;
        let ghost parents = old(aux).accum_parents@;
        let ghost children = old(aux).accum_children@;
        let ghost down_stop = old(aux).right_block_mid as nat;
        let ghost up_stop = old(aux).left_block_mid as nat;
        let ghost down = parent_walk(parents, old(aux).right_block_high as nat, down_stop);
        let ghost up = child_walk(children, old(aux).left_block_low as nat, up_stop);
        let ghost wn0 = old(aux).cross_wn_links@;
        let ghost es0 = old(aux).cross_es_links@;
        let node_count = aux.sorted_next.len();
        {
            let mut current_right = aux.right_block_high;
            let low = aux.left_block_low;
            let ghost mut done: Seq<usize> = Seq::empty();
            proof {
                lemma_marked_push(wn0, done, current_right, low);
                assert(marked(wn0, Seq::<usize>::empty(), low) =~= wn0);
                assert(done + parent_walk(parents, current_right as nat, down_stop).0
                    =~= parent_walk(parents, current_right as nat, down_stop).0);
            }
            aux.cross_wn_links[current_right] = low;
            while current_right != aux.right_block_mid
                invariant
                    aux.wf(n),
                    node_count == n,
                    aux.same_indices(old(aux)),
                    aux.sorted_next@ == old(aux).sorted_next@,
                    aux.sorted_prev@ == old(aux).sorted_prev@,
                    aux.sorted_roots@ == old(aux).sorted_roots@,
                    aux.accum_parents@ == old(aux).accum_parents@,
                    aux.accum_children@ == old(aux).accum_children@,
                    parents == old(aux).accum_parents@,
                    children == old(aux).accum_children@,
                    down == old(aux).down_walk(),
                    up == old(aux).up_walk(),
                    wn0 == old(aux).cross_wn_links@,
                    es0 == old(aux).cross_es_links@,
                    down_stop == old(aux).right_block_mid as nat,
                    up_stop == old(aux).left_block_mid as nat,
                    aux.cross_es_links@ == es0,
                    current_right < node_count,
                    low == aux.left_block_low,
                    down_stop == aux.right_block_mid,
                    down == (
                        done + parent_walk(parents, current_right as nat, down_stop).0,
                        parent_walk(parents, current_right as nat, down_stop).1,
                    ),
                    aux.cross_wn_links@ == marked(wn0, done.push(current_right), low),
                decreases current_right,
            {
                let count = aux.accum_parents[current_right].len();
                if count == 0 {
                    proof {
                        assert(parent_walk(parents, current_right as nat, down_stop) == (seq![current_right], false));
                        assert(down.0 =~= done.push(current_right));
                    }
                    return false;
                }
                let parent = aux.accum_parents[current_right][count - 1];
                if parent >= current_right {
                    proof {
                        assert(parent_walk(parents, current_right as nat, down_stop) == (seq![current_right], false));
                        assert(down.0 =~= done.push(current_right));
                    }
                    return false;
                }
                proof {
                    let rest = parent_walk(parents, parent as nat, down_stop);
                    assert(done + (seq![current_right] + rest.0) =~= done.push(current_right)
                        + rest.0);
                    lemma_marked_push(wn0, done.push(current_right), parent, low);
                    done = done.push(current_right);
                }
                current_right = parent;
                aux.cross_wn_links[current_right] = low;
            }
            proof {
                assert(done + seq![current_right] =~= done.push(current_right));
            }
        }
        {
            let mut current_left = aux.left_block_low;
            let high = aux.right_block_high;
            let ghost mut done: Seq<usize> = Seq::empty();
            proof {
                lemma_marked_push(es0, done, current_left, high);
                assert(marked(es0, Seq::<usize>::empty(), high) =~= es0);
                assert(done + child_walk(children, current_left as nat, up_stop).0
                    =~= child_walk(children, current_left as nat, up_stop).0);
            }
            aux.cross_es_links[current_left] = high;
            while current_left != aux.left_block_mid
                invariant
                    aux.wf(n),
                    node_count == n,
                    aux.same_indices(old(aux)),
                    aux.sorted_next@ == old(aux).sorted_next@,
                    aux.sorted_prev@ == old(aux).sorted_prev@,
                    aux.sorted_roots@ == old(aux).sorted_roots@,
                    aux.accum_parents@ == old(aux).accum_parents@,
                    aux.accum_children@ == old(aux).accum_children@,
                    parents == old(aux).accum_parents@,
                    children == old(aux).accum_children@,
                    down == old(aux).down_walk(),
                    up == old(aux).up_walk(),
                    wn0 == old(aux).cross_wn_links@,
                    es0 == old(aux).cross_es_links@,
                    down_stop == old(aux).right_block_mid as nat,
                    up_stop == old(aux).left_block_mid as nat,
                    children.len() == n,
                    down.1,
                    aux.cross_wn_links@ == marked(wn0, down.0, old(aux).left_block_low),
                    current_left < node_count,
                    high == aux.right_block_high,
                    up_stop == aux.left_block_mid,
                    up == (
                        done + child_walk(children, current_left as nat, up_stop).0,
                        child_walk(children, current_left as nat, up_stop).1,
                    ),
                    aux.cross_es_links@ == marked(es0, done.push(current_left), high),
                decreases node_count - current_left,
            {
                let count = aux.accum_children[current_left].len();
                if count == 0 {
                    proof {
                        assert(child_walk(children, current_left as nat, up_stop) == (seq![current_left], false));
                        assert(up.0 =~= done.push(current_left));
                    }
                    return false;
                }
                let child = aux.accum_children[current_left][count - 1];
                if child <= current_left {
                    proof {
                        assert(child_walk(children, current_left as nat, up_stop) == (seq![current_left], false));
                        assert(up.0 =~= done.push(current_left));
                    }
                    return false;
                }
                proof {
                    let rest = child_walk(children, child as nat, up_stop);
                    assert(done + (seq![current_left] + rest.0) =~= done.push(current_left)
                        + rest.0);
                    lemma_marked_push(es0, done.push(current_left), child, high);
                    done = done.push(current_left);
                }
                current_left = child;
                aux.cross_es_links[current_left] = high;
            }
            proof {
                assert(done + seq![current_left] =~= done.push(current_left));
            }
        }
        true
    }

    /// The obverse rank of the latest child of `parent`, or `i32::MAX` when it
    /// has none.
    fn latest_child_rank(&self, aux: &AuxData, parent: IndexType) -> (r: RankType)
        requires
            aux.wf(self.nodes@.len() as nat),
            parent < self.nodes@.len(),
        ensures
            r == if aux.accum_children@[parent as int]@.len() == 0 {
                i32::MAX
            } else {
                self.nodes@[aux.accum_children@[parent as int]@.last() as int].obverse_rank
            },
    {
        let count = aux.accum_children[parent].len();
        if count == 0 {
            RankType::MAX
        } else {
            let child = aux.accum_children[parent][count - 1];
            self.nodes[child].obverse_rank
        }
    }

    /// Appends the edges from the latest lower run up to the latest upper run,
    /// the upper run lying above the lower one in obverse order.  The stack of
    /// candidate parents, from the lower run's last node along east-south
    /// links to its greatest index, is built in `sorted_roots` from `lower`
    /// up; the stack of candidate children, from the upper run's first node
    /// along west-north links while they rank below the latest child of the
    /// lower run's greatest index, is built in `sorted_roots` from `upper`
    /// down.  Each parent, from the top of its stack, gains the children of
    /// the stack that rank below its own latest child.  A walk that does not
    /// move strictly in index, or a stack that would leave `[lower, upper)`,
    /// abandons the block merge: the result is `false`.  Only `sorted_roots`
    /// within `[lower, upper)` and the accumulated lists change, as
    /// `appending_outcome` says.
    fn apply_upwards_appending(&self, aux: &mut AuxData, merge_step: &MergeStep) -> (ok: bool)
        requires
            old(aux).wf(self.nodes@.len() as nat),
            merge_step.lower < merge_step.upper <= self.nodes@.len(),
        ensures
            final(aux).wf(self.nodes@.len() as nat),
            final(aux).same_indices(old(aux)),
            final(aux).sorted_next@ == old(aux).sorted_next@,
            final(aux).sorted_prev@ == old(aux).sorted_prev@,
            final(aux).cross_wn_links@ == old(aux).cross_wn_links@,
            final(aux).cross_es_links@ == old(aux).cross_es_links@,
            forall|i: int|
                0 <= i < self.nodes@.len() && !(merge_step.lower <= i < merge_step.upper)
                    ==> #[trigger] final(aux).sorted_roots@[i] == old(aux).sorted_roots@[i],
            final(aux).sorted_roots@ == appending_outcome(
                obverse_ranks(self.nodes@),
                *old(aux),
                merge_step.lower as int,
                merge_step.upper as int,
            ).0,
            lists(final(aux).accum_children@) == appending_outcome(
                obverse_ranks(self.nodes@),
                *old(aux),
                merge_step.lower as int,
                merge_step.upper as int,
            ).1,
            lists(final(aux).accum_parents@) == appending_outcome(
                obverse_ranks(self.nodes@),
                *old(aux),
                merge_step.lower as int,
                merge_step.upper as int,
            ).2,
            ok == appending_outcome(
                obverse_ranks(self.nodes@),
                *old(aux),
                merge_step.lower as int,
                merge_step.upper as int,
            ).3,
    {
        let lower = merge_step.lower;
        let upper = merge_step.upper;
        let ghost n = self.nodes@.len() as nat;
        let node_count = self.nodes.len();
        let ghost ranks = obverse_ranks(self.nodes@);
        let ghost a0 = *aux;
        let ghost ch0 = lists(a0.accum_children@);
        let ghost pa0 = lists(a0.accum_parents@);
        let ghost lw = es_walk(
            a0.cross_es_links@,
            a0.left_block_high as nat,
            a0.left_block_mid as nat,
            (upper - lower - 1) as nat,
        );
        let ghost out = appending_outcome(ranks, a0, lower as int, upper as int);

        // The stack of parents on the lower run, in sorted_roots from lower up.
        let mut left_topmost = lower;
        let mut current_left = aux.left_block_high;
        let ghost mut done: Seq<usize> = Seq::empty();
        proof {
            lemma_place_up_push(a0.sorted_roots@, lower as int, done, current_left);
            assert(place_up(a0.sorted_roots@, lower as int, done) =~= a0.sorted_roots@);
            assert(done + lw.0 =~= lw.0);
        }
        aux.sorted_roots[left_topmost] = current_left;
        left_topmost += 1;
        while current_left != aux.left_block_mid
            invariant
                aux.wf(n),
                node_count == n,
                n == self.nodes@.len(),
                lower == merge_step.lower,
                upper == merge_step.upper,
                a0 == *old(aux),
                ranks == obverse_ranks(self.nodes@),
                ch0 == lists(a0.accum_children@),
                pa0 == lists(a0.accum_parents@),
                out == appending_outcome(ranks, a0, lower as int, upper as int),
                lw == es_walk(
                    a0.cross_es_links@,
                    a0.left_block_high as nat,
                    a0.left_block_mid as nat,
                    (upper - lower - 1) as nat,
                ),
                aux.same_indices(old(aux)),
                aux.sorted_next@ == old(aux).sorted_next@,
                aux.sorted_prev@ == old(aux).sorted_prev@,
                aux.cross_wn_links@ == old(aux).cross_wn_links@,
                aux.cross_es_links@ == old(aux).cross_es_links@,
                aux.accum_parents@ == old(aux).accum_parents@,
                aux.accum_children@ == old(aux).accum_children@,
                forall|i: int|
                    0 <= i < n && !(lower <= i < upper) ==> #[trigger] aux.sorted_roots@[i]
                        == old(aux).sorted_roots@[i],
                lower < left_topmost <= upper,
                upper <= node_count,
                current_left < node_count,
                left_topmost == lower + done.len() + 1,
                lw == (
                    done + es_walk(
                        a0.cross_es_links@,
                        current_left as nat,
                        a0.left_block_mid as nat,
                        (upper - left_topmost) as nat,
                    ).0,
                    es_walk(
                        a0.cross_es_links@,
                        current_left as nat,
                        a0.left_block_mid as nat,
                        (upper - left_topmost) as nat,
                    ).1,
                ),
                aux.sorted_roots@ == place_up(a0.sorted_roots@, lower as int, done.push(current_left)),
            decreases node_count - current_left,
        {
            let next_left = aux.cross_es_links[current_left];
            if next_left >= node_count || next_left <= current_left || left_topmost >= upper {
                proof {
                    assert(lw.0 =~= done.push(current_left));
                }
                return false;
            }
            proof {
                let rest = es_walk(
                    a0.cross_es_links@,
                    next_left as nat,
                    a0.left_block_mid as nat,
                    (upper - left_topmost - 1) as nat,
                );
                assert(done + (seq![current_left] + rest.0) =~= done.push(current_left) + rest.0);
                lemma_place_up_push(
                    a0.sorted_roots@,
                    lower as int,
                    done.push(current_left),
                    next_left,
                );
                done = done.push(current_left);
            }
            current_left = next_left;
            aux.sorted_roots[left_topmost] = current_left;
            left_topmost += 1;
        }
        proof {
            assert(lw.0 =~= done.push(current_left));
        }
        let ghost roots1 = aux.sorted_roots@;

        // The stack of children on the upper run, in sorted_roots from upper down.  It holds the
        // most that is needed, which is what the lower run's greatest index needs.
        let mut right_bottom = upper;
        let obverse_limit = self.latest_child_rank(aux, aux.left_block_mid);
        let ghost rw = wn_walk(
            a0.cross_wn_links@,
            ranks,
            a0.right_block_low as nat,
            obverse_limit,
            (upper - 1 - lower) as nat,
        );
        proof {
            assert(obverse_limit == latest_rank(ranks, ch0[a0.left_block_mid as int]));
        }
        let mut current_right = aux.right_block_low;
        right_bottom -= 1;
        let ghost mut done2: Seq<usize> = Seq::empty();
        proof {
            lemma_place_down_push(roots1, upper as int, done2, current_right);
            assert(place_down(roots1, upper as int, done2) =~= roots1);
            assert(done2 + rw.0 =~= rw.0);
        }
        aux.sorted_roots[right_bottom] = current_right;
        while (aux.cross_wn_links[current_right] != IndexType::MAX) && (
        self.nodes[current_right].obverse_rank < obverse_limit)
            invariant
                aux.wf(n),
                node_count == n,
                n == self.nodes@.len(),
                lower == merge_step.lower,
                upper == merge_step.upper,
                a0 == *old(aux),
                ranks == obverse_ranks(self.nodes@),
                ch0 == lists(a0.accum_children@),
                pa0 == lists(a0.accum_parents@),
                out == appending_outcome(ranks, a0, lower as int, upper as int),
                lw.1,
                lw == es_walk(
                    a0.cross_es_links@,
                    a0.left_block_high as nat,
                    a0.left_block_mid as nat,
                    (upper - lower - 1) as nat,
                ),
                roots1 == place_up(a0.sorted_roots@, lower as int, lw.0),
                left_topmost == lower + lw.0.len(),
                obverse_limit == latest_rank(ranks, ch0[a0.left_block_mid as int]),
                rw == wn_walk(
                    a0.cross_wn_links@,
                    ranks,
                    a0.right_block_low as nat,
                    obverse_limit,
                    (upper - 1 - lower) as nat,
                ),
                aux.same_indices(old(aux)),
                aux.sorted_next@ == old(aux).sorted_next@,
                aux.sorted_prev@ == old(aux).sorted_prev@,
                aux.cross_wn_links@ == old(aux).cross_wn_links@,
                aux.cross_es_links@ == old(aux).cross_es_links@,
                aux.accum_parents@ == old(aux).accum_parents@,
                aux.accum_children@ == old(aux).accum_children@,
                forall|i: int|
                    0 <= i < n && !(lower <= i < upper) ==> #[trigger] aux.sorted_roots@[i]
                        == old(aux).sorted_roots@[i],
                lower < left_topmost <= upper,
                lower <= right_bottom < upper,
                upper <= node_count,
                current_right < node_count,
                right_bottom == upper - 1 - done2.len(),
                rw == (
                    done2 + wn_walk(
                        a0.cross_wn_links@,
                        ranks,
                        current_right as nat,
                        obverse_limit,
                        (right_bottom - lower) as nat,
                    ).0,
                    wn_walk(
                        a0.cross_wn_links@,
                        ranks,
                        current_right as nat,
                        obverse_limit,
                        (right_bottom - lower) as nat,
                    ).1,
                ),
                aux.sorted_roots@ == place_down(roots1, upper as int, done2.push(current_right)),
            decreases current_right,
        {
            let next_right = aux.cross_wn_links[current_right];
            if next_right >= current_right || right_bottom <= lower {
                proof {
                    assert(rw.0 =~= done2.push(current_right));
                }
                return false;
            }
            proof {
                let rest = wn_walk(
                    a0.cross_wn_links@,
                    ranks,
                    next_right as nat,
                    obverse_limit,
                    (right_bottom - lower - 1) as nat,
                );
                assert(done2 + (seq![current_right] + rest.0) =~= done2.push(current_right)
                    + rest.0);
                lemma_place_down_push(roots1, upper as int, done2.push(current_right), next_right);
                done2 = done2.push(current_right);
            }
            current_right = next_right;
            right_bottom -= 1;
            aux.sorted_roots[right_bottom] = current_right;
        }
        proof {
            assert(rw.0 =~= done2.push(current_right));
        }
        let ghost roots2 = aux.sorted_roots@;
        let ghost target = append_from(
            ranks,
            roots2,
            lower as int,
            upper as int,
            left_topmost as int,
            right_bottom as int,
            ch0,
            pa0,
        );

        // Each parent, from the top of its stack down, gains the children it still needs.
        let mut i = left_topmost;
        while i > lower
            invariant
                aux.wf(n),
                node_count == n,
                n == self.nodes@.len(),
                lower == merge_step.lower,
                upper == merge_step.upper,
                a0 == *old(aux),
                ranks == obverse_ranks(self.nodes@),
                out == appending_outcome(ranks, a0, lower as int, upper as int),
                out == (roots2, target.0, target.1, target.2),
                aux.same_indices(old(aux)),
                aux.sorted_next@ == old(aux).sorted_next@,
                aux.sorted_prev@ == old(aux).sorted_prev@,
                aux.cross_wn_links@ == old(aux).cross_wn_links@,
                aux.cross_es_links@ == old(aux).cross_es_links@,
                aux.sorted_roots@ == roots2,
                forall|k: int|
                    0 <= k < n && !(lower <= k < upper) ==> #[trigger] aux.sorted_roots@[k]
                        == old(aux).sorted_roots@[k],
                lower <= i <= upper,
                lower <= right_bottom < upper,
                upper <= node_count,
                append_from(
                    ranks,
                    roots2,
                    lower as int,
                    upper as int,
                    i as int,
                    right_bottom as int,
                    lists(aux.accum_children@),
                    lists(aux.accum_parents@),
                ) == target,
            decreases i,
        {
            i -= 1;
            let parent_i = aux.sorted_roots[i];
            let obverse_limit = self.latest_child_rank(aux, parent_i);
            let ghost ch_at = lists(aux.accum_children@);
            let ghost pa_at = lists(aux.accum_parents@);
            let ghost found = first_below(ranks, roots2, right_bottom as int, upper as int, obverse_limit);
            let ghost rb_start = right_bottom as int;
            proof {
                assert(obverse_limit == latest_rank(ranks, ch_at[parent_i as int]));
            }
            // First drop the children that the parent no longer needs: those at or above its
            // latest child.
            while self.nodes[aux.sorted_roots[right_bottom]].obverse_rank >= obverse_limit
                invariant
                    aux.wf(n),
                    node_count == n,
                    n == self.nodes@.len(),
                    lower == merge_step.lower,
                    upper == merge_step.upper,
                    ranks == obverse_ranks(self.nodes@),
                    out == appending_outcome(ranks, a0, lower as int, upper as int),
                    out == (roots2, target.0, target.1, target.2),
                    a0 == *old(aux),
                    aux.same_indices(old(aux)),
                    aux.sorted_next@ == old(aux).sorted_next@,
                    aux.sorted_prev@ == old(aux).sorted_prev@,
                    aux.cross_wn_links@ == old(aux).cross_wn_links@,
                    aux.cross_es_links@ == old(aux).cross_es_links@,
                    forall|k: int|
                        0 <= k < n && !(lower <= k < upper) ==> #[trigger] aux.sorted_roots@[k]
                            == old(aux).sorted_roots@[k],
                    lists(aux.accum_children@) == ch_at,
                    lists(aux.accum_parents@) == pa_at,
                    lower <= i < upper,
                    parent_i == roots2[i as int],
                    obverse_limit == latest_rank(ranks, ch_at[parent_i as int]),
                    append_from(
                        ranks,
                        roots2,
                        lower as int,
                        upper as int,
                        i + 1,
                        rb_start,
                        ch_at,
                        pa_at,
                    ) == target,
                    found == first_below(ranks, roots2, rb_start, upper as int, obverse_limit),
                    aux.sorted_roots@ == roots2,
                    lower <= right_bottom < upper,
                    upper <= node_count,
                    found == first_below(ranks, roots2, right_bottom as int, upper as int, obverse_limit),
                decreases upper - right_bottom,
            {
                right_bottom += 1;
                if right_bottom >= upper {
                    return false;
                }
            }
            assert(found == Some(right_bottom as int));
            let ghost target_pa = push_parent_all(pa_at, roots2, right_bottom as int, upper as int, parent_i);
            let mut j = right_bottom;
            while j < upper
                invariant
                    aux.wf(n),
                    node_count == n,
                    n == self.nodes@.len(),
                    lower == merge_step.lower,
                    upper == merge_step.upper,
                    aux.same_indices(old(aux)),
                    aux.sorted_next@ == old(aux).sorted_next@,
                    aux.sorted_prev@ == old(aux).sorted_prev@,
                    aux.cross_wn_links@ == old(aux).cross_wn_links@,
                    aux.cross_es_links@ == old(aux).cross_es_links@,
                    aux.sorted_roots@ == roots2,
                    forall|k: int|
                        0 <= k < n && !(lower <= k < upper) ==> #[trigger] aux.sorted_roots@[k]
                            == old(aux).sorted_roots@[k],
                    lower <= right_bottom <= j <= upper,
                    lower <= i < upper,
                    upper <= node_count,
                    parent_i < node_count,
                    ch_at.len() == n,
                    pa_at.len() == n,
                    lists(aux.accum_children@) == ch_at.update(
                        parent_i as int,
                        ch_at[parent_i as int] + roots2.subrange(right_bottom as int, j as int),
                    ),
                    push_parent_all(lists(aux.accum_parents@), roots2, j as int, upper as int, parent_i)
                        == target_pa,
                decreases upper - j,
            {
                let child_j = aux.sorted_roots[j];
                let ghost before_ch = aux.accum_children@;
                let ghost before_pa = aux.accum_parents@;
                aux.accum_children[parent_i].push(child_j);
                aux.accum_parents[child_j].push(parent_i);
                proof {
                    let listed = aux.accum_children@[parent_i as int];
                    lemma_lists_update(before_ch, parent_i as int, listed);
                    lemma_lists_update(before_pa, child_j as int, aux.accum_parents@[child_j as int]);
                    assert(aux.accum_children@ == before_ch.update(parent_i as int, listed));
                    assert(aux.accum_parents@ == before_pa.update(
                        child_j as int,
                        aux.accum_parents@[child_j as int],
                    ));
                    let x = ch_at[parent_i as int] + roots2.subrange(right_bottom as int, j as int);
                    assert(lists(before_ch)[parent_i as int] == x);
                    assert(listed@ == before_ch[parent_i as int]@.push(child_j));
                    assert(ch_at[parent_i as int] + roots2.subrange(right_bottom as int, j + 1)
                        =~= x.push(child_j));
                    assert(lists(aux.accum_children@) =~= ch_at.update(
                        parent_i as int,
                        x.push(child_j),
                    ));
                }
                j += 1;
            }
            proof {
                assert(roots2.subrange(right_bottom as int, upper as int) =~= roots2.subrange(
                    right_bottom as int,
                    j as int,
                ));
            }
        }
        true
    }

    /// One merge step of two blocks that are not both single nodes.  The two
    /// sorted chains are interleaved run by run into the sorted chain of the
    /// merged block; after each lower run the cross links are updated, and
    /// after each upper run the crossing edges are appended.  The result says
    /// whether that edge work went through; the merged chain comes back as a
    /// ghost value.
    #[verifier::rlimit(100)]
    #[verifier::spinoff_prover]
    fn merge_runs(
        &self,
        aux: &mut AuxData,
        merge_step: &MergeStep,
        Ghost(lch): Ghost<Seq<usize>>,
        Ghost(rch): Ghost<Seq<usize>>,
    ) -> (r: (bool, Ghost<Seq<usize>>))
        requires
            old(aux).wf(self.nodes@.len() as nat),
            step_chains(
                obverse_ranks(self.nodes@),
                lch,
                rch,
                merge_step.lower as int,
                merge_step.middle as int,
                merge_step.upper as int,
            ),
            block_chain(
                obverse_ranks(self.nodes@),
                old(aux).sorted_next@,
                old(aux).sorted_prev@,
                old(aux).sorted_roots@,
                merge_step.lower as int,
                merge_step.middle as int,
                lch,
            ),
            block_chain(
                obverse_ranks(self.nodes@),
                old(aux).sorted_next@,
                old(aux).sorted_prev@,
                old(aux).sorted_roots@,
                merge_step.middle as int,
                merge_step.upper as int,
                rch,
            ),
        ensures
            final(aux).wf(self.nodes@.len() as nat),
            block_chain(
                obverse_ranks(self.nodes@),
                final(aux).sorted_next@,
                final(aux).sorted_prev@,
                final(aux).sorted_roots@,
                merge_step.lower as int,
                merge_step.upper as int,
                r.1@,
            ),
            same_outside(
                final(aux).sorted_next@,
                old(aux).sorted_next@,
                merge_step.lower as int,
                merge_step.upper as int,
            ),
            same_outside(
                final(aux).sorted_prev@,
                old(aux).sorted_prev@,
                merge_step.lower as int,
                merge_step.upper as int,
            ),
            same_outside(
                final(aux).sorted_roots@,
                old(aux).sorted_roots@,
                merge_step.lower as int,
                merge_step.upper as int,
            ),
    {
        let lower = merge_step.lower;
        let middle = merge_step.middle;
        let upper = merge_step.upper;
        let ghost ranks = obverse_ranks(self.nodes@);
        let ghost n = self.nodes@.len() as nat;
        let ghost (lo, mi, up) = (lower as int, middle as int, upper as int);
        let mut ok = true;
        aux.left_root = aux.sorted_roots[lower];
        aux.right_root = aux.sorted_roots[middle];
        aux.left_terminal = aux.sorted_roots[middle - 1];
        aux.right_terminal = aux.sorted_roots[upper - 1];
        let mut left_tracer = aux.left_root;
        let mut right_tracer = aux.right_root;
        let left_root_rank = self.nodes[aux.left_root].obverse_rank;
        let right_root_rank = self.nodes[aux.right_root].obverse_rank;
        if left_root_rank > right_root_rank {
            aux.final_root = aux.right_root;
        } else {
            aux.final_root = aux.left_root;
        }
        if self.nodes[aux.left_terminal].obverse_rank > self.nodes[aux.right_terminal].obverse_rank {
            aux.final_terminal = aux.left_terminal;
        } else {
            aux.final_terminal = aux.right_terminal;
        }
        let ghost fr = aux.final_root;
        let ghost ft = aux.final_terminal;
        let ghost lterm = lch[lch.len() - 1];
        let ghost rterm = rch[rch.len() - 1];
        let ghost mut pl: int = 0;
        let ghost mut pr: int = 0;
        let ghost mut merged: Seq<usize> = Seq::empty();
        assert(merge_progress(
            ranks,
            aux.sorted_next@,
            aux.sorted_prev@,
            lch,
            rch,
            pl,
            pr,
            merged,
            lo,
            up,
        ));
        let mut finished = false;
        if left_root_rank > right_root_rank {
            // The upper block starts the merged chain.
            let left_rank = self.nodes[left_tracer].obverse_rank;
            let Ghost(end) = self.build_right_block(
                aux,
                left_rank,
                &mut right_tracer,
                Ghost(rch),
                Ghost(0),
            );
            proof {
                lemma_take_upper(
                    ranks,
                    aux.sorted_next@,
                    aux.sorted_prev@,
                    lch,
                    rch,
                    pl,
                    pr,
                    end,
                    merged,
                    lo,
                    mi,
                    up,
                );
                merged = merged + rch.subrange(pr, end + 1);
                pr = end + 1;
                lemma_stitch_after_upper(
                    ranks,
                    aux.sorted_next@,
                    aux.sorted_prev@,
                    lch,
                    rch,
                    pl,
                    pr,
                    merged,
                    lo,
                    mi,
                    up,
                );
            }
            Self::stitch_right_below_left(aux, &mut right_tracer, left_tracer);
            if aux.right_block_high == aux.right_terminal {
                proof {
                    if pr < rch.len() {
                        assert(key_before(ranks, rch[pr - 1], rterm));
                    }
                }
                proof {
                    lemma_sorted_chain_distinct(obverse_ranks(self.nodes@), lch);
                }
                self.build_left_block_terminal(aux, &mut left_tracer, Ghost(lch), Ghost(0));
                proof {
                    lemma_take_lower(
                        ranks,
                        aux.sorted_next@,
                        aux.sorted_prev@,
                        lch,
                        rch,
                        pl,
                        pr,
                        lch.len() - 1,
                        merged,
                        lo,
                        mi,
                        up,
                    );
                    merged = merged + lch.subrange(pl, lch.len() as int);
                    pl = lch.len() as int;
                }
                ok = Self::apply_downwards_updates(aux);
                finished = true;
            } else {
                proof {
                    assert(pr < rch.len());
                }
                let right_rank = self.nodes[right_tracer].obverse_rank;
                let Ghost(end) = self.build_left_block(
                    aux,
                    right_rank,
                    &mut left_tracer,
                    Ghost(lch),
                    Ghost(0),
                );
                proof {
                    lemma_take_lower(
                        ranks,
                        aux.sorted_next@,
                        aux.sorted_prev@,
                        lch,
                        rch,
                        pl,
                        pr,
                        end,
                        merged,
                        lo,
                        mi,
                        up,
                    );
                    merged = merged + lch.subrange(pl, end + 1);
                    pl = end + 1;
                }
                ok = Self::apply_downwards_updates(aux);
                proof {
                    lemma_stitch_after_lower(
                        ranks,
                        aux.sorted_next@,
                        aux.sorted_prev@,
                        lch,
                        rch,
                        pl,
                        pr,
                        merged,
                        lo,
                        mi,
                        up,
                    );
                }
                Self::stitch_left_between_right(aux, &mut left_tracer, right_tracer);
            }
        } else {
            // The lower block starts the merged chain.
            let right_rank = self.nodes[right_tracer].obverse_rank;
            let Ghost(end) = self.build_left_block(
                aux,
                right_rank,
                &mut left_tracer,
                Ghost(lch),
                Ghost(0),
            );
            proof {
                lemma_take_lower(
                    ranks,
                    aux.sorted_next@,
                    aux.sorted_prev@,
                    lch,
                    rch,
                    pl,
                    pr,
                    end,
                    merged,
                    lo,
                    mi,
                    up,
                );
                merged = merged + lch.subrange(pl, end + 1);
                pl = end + 1;
                lemma_stitch_after_lower(
                    ranks,
                    aux.sorted_next@,
                    aux.sorted_prev@,
                    lch,
                    rch,
                    pl,
                    pr,
                    merged,
                    lo,
                    mi,
                    up,
                );
            }
            Self::stitch_left_below_right(aux, &mut left_tracer, right_tracer);
        }
        if !finished {
            loop
                invariant_except_break
                    pr < rch.len(),
                    merged[merged.len() - 1] == lch[pl - 1],
                    aux.left_block_high == lch[pl - 1],
                    pending_link(aux.sorted_next@, aux.sorted_prev@, merged, rch[pr]),
                    right_tracer == rch[pr],
                    pl < lch.len() ==> left_tracer == lch[pl] && ranks[rch[pr] as int]
                        < ranks[lch[pl] as int],
                invariant
                    aux.wf(n),
                    n == self.nodes@.len(),
                    ranks == obverse_ranks(self.nodes@),
                    step_chains(ranks, lch, rch, lo, mi, up),
                    lo == lower,
                    mi == middle,
                    up == upper,
                    lower == merge_step.lower,
                    middle == merge_step.middle,
                    upper == merge_step.upper,
                    lterm == lch[lch.len() - 1],
                    rterm == rch[rch.len() - 1],
                    aux.left_terminal == lterm,
                    aux.right_terminal == rterm,
                    aux.final_root == fr,
                    aux.final_terminal == ft,
                    merge_progress(
                        ranks,
                        aux.sorted_next@,
                        aux.sorted_prev@,
                        lch,
                        rch,
                        pl,
                        pr,
                        merged,
                        lo,
                        up,
                    ),
                    1 <= pl,
                    merged.len() > 0,
                    merged[0] == fr,
                    same_outside(aux.sorted_next@, old(aux).sorted_next@, lo, up),
                    same_outside(aux.sorted_prev@, old(aux).sorted_prev@, lo, up),
                    same_outside(aux.sorted_roots@, old(aux).sorted_roots@, lo, up),
                ensures
                    aux.wf(n),
                    aux.final_root == fr,
                    aux.final_terminal == ft,
                    merge_progress(
                        ranks,
                        aux.sorted_next@,
                        aux.sorted_prev@,
                        lch,
                        rch,
                        lch.len() as int,
                        rch.len() as int,
                        merged,
                        lo,
                        up,
                    ),
                    merged.len() > 0,
                    merged[0] == fr,
                    merged[merged.len() - 1] == lterm || merged[merged.len() - 1] == rterm,
                    same_outside(aux.sorted_next@, old(aux).sorted_next@, lo, up),
                    same_outside(aux.sorted_prev@, old(aux).sorted_prev@, lo, up),
                    same_outside(aux.sorted_roots@, old(aux).sorted_roots@, lo, up),
                decreases (lch.len() - pl) + (rch.len() - pr),
            {
                if aux.left_block_high == aux.left_terminal {
                    // The lower block is used up: the rest of the upper block ends the chain.
                    proof {
                        if pl < lch.len() {
                            assert(key_before(ranks, lch[pl - 1], lterm));
                        }
                    }
                    proof {
                        lemma_sorted_chain_distinct(obverse_ranks(self.nodes@), rch);
                    }
                    self.build_right_block_terminal(aux, &mut right_tracer, Ghost(rch), Ghost(pr));
                    proof {
                        lemma_take_upper(
                            ranks,
                            aux.sorted_next@,
                            aux.sorted_prev@,
                            lch,
                            rch,
                            pl,
                            pr,
                            rch.len() - 1,
                            merged,
                            lo,
                            mi,
                            up,
                        );
                        merged = merged + rch.subrange(pr, rch.len() as int);
                        pr = rch.len() as int;
                    }
                    let appended = self.apply_upwards_appending(aux, merge_step);
                    ok = ok && appended;
                    break ;
                }
                proof {
                    if pl == lch.len() {
                        assert(aux.left_block_high == aux.left_terminal);
                    }
                }
                let left_rank = self.nodes[left_tracer].obverse_rank;
                let Ghost(end) = self.build_right_block(
                    aux,
                    left_rank,
                    &mut right_tracer,
                    Ghost(rch),
                    Ghost(pr),
                );
                proof {
                    lemma_take_upper(
                        ranks,
                        aux.sorted_next@,
                        aux.sorted_prev@,
                        lch,
                        rch,
                        pl,
                        pr,
                        end,
                        merged,
                        lo,
                        mi,
                        up,
                    );
                    merged = merged + rch.subrange(pr, end + 1);
                    pr = end + 1;
                }
                let appended = self.apply_upwards_appending(aux, merge_step);
                ok = ok && appended;
                proof {
                    lemma_stitch_after_upper(
                        ranks,
                        aux.sorted_next@,
                        aux.sorted_prev@,
                        lch,
                        rch,
                        pl,
                        pr,
                        merged,
                        lo,
                        mi,
                        up,
                    );
                }
                Self::stitch_right_between_left(aux, &mut right_tracer, left_tracer);
                if aux.right_block_high == aux.right_terminal {
                    // The upper block is used up: the rest of the lower block ends the chain.
                    proof {
                        if pr < rch.len() {
                            assert(key_before(ranks, rch[pr - 1], rterm));
                        }
                    }
                    proof {
                        lemma_sorted_chain_distinct(obverse_ranks(self.nodes@), lch);
                    }
                    self.build_left_block_terminal(aux, &mut left_tracer, Ghost(lch), Ghost(pl));
                    proof {
                        lemma_take_lower(
                            ranks,
                            aux.sorted_next@,
                            aux.sorted_prev@,
                            lch,
                            rch,
                            pl,
                            pr,
                            lch.len() - 1,
                            merged,
                            lo,
                            mi,
                            up,
                        );
                        merged = merged + lch.subrange(pl, lch.len() as int);
                        pl = lch.len() as int;
                    }
                    let updated = Self::apply_downwards_updates(aux);
                    ok = ok && updated;
                    break ;
                }
                proof {
                    if pr == rch.len() {
                        assert(aux.right_block_high == aux.right_terminal);
                    }
                }
                let right_rank = self.nodes[right_tracer].obverse_rank;
                let Ghost(end) = self.build_left_block(
                    aux,
                    right_rank,
                    &mut left_tracer,
                    Ghost(lch),
                    Ghost(pl),
                );
                proof {
                    lemma_take_lower(
                        ranks,
                        aux.sorted_next@,
                        aux.sorted_prev@,
                        lch,
                        rch,
                        pl,
                        pr,
                        end,
                        merged,
                        lo,
                        mi,
                        up,
                    );
                    merged = merged + lch.subrange(pl, end + 1);
                    pl = end + 1;
                }
                let updated = Self::apply_downwards_updates(aux);
                ok = ok && updated;
                proof {
                    lemma_stitch_after_lower(
                        ranks,
                        aux.sorted_next@,
                        aux.sorted_prev@,
                        lch,
                        rch,
                        pl,
                        pr,
                        merged,
                        lo,
                        mi,
                        up,
                    );
                }
                Self::stitch_left_between_right(aux, &mut left_tracer, right_tracer);
            }
        }
        aux.sorted_roots[lower] = aux.final_root;
        aux.sorted_roots[upper - 1] = aux.final_terminal;
        proof {
            lemma_last_of_merge(ranks, merged, lterm, rterm);
        }
        (ok, Ghost(merged))
    }

    /// One merge step of two single nodes `lower` and `middle == lower + 1`:
    /// they are chained in obverse order, and either the lower node becomes
    /// the upper one's parent or, when it ranks above it, the two are cross
    /// linked.
    fn merge_singles(&self, aux: &mut AuxData, lower: usize, middle: usize) -> (r: Ghost<Seq<usize>>)
        requires
            old(aux).wf(self.nodes@.len() as nat),
            middle == lower + 1,
            middle < self.nodes@.len(),
        ensures
            final(aux).wf(self.nodes@.len() as nat),
            block_chain(
                obverse_ranks(self.nodes@),
                final(aux).sorted_next@,
                final(aux).sorted_prev@,
                final(aux).sorted_roots@,
                lower as int,
                middle + 1,
                r@,
            ),
            same_outside(final(aux).sorted_next@, old(aux).sorted_next@, lower as int, middle + 1),
            same_outside(final(aux).sorted_prev@, old(aux).sorted_prev@, lower as int, middle + 1),
            same_outside(final(aux).sorted_roots@, old(aux).sorted_roots@, lower as int, middle + 1),
    {
        let ghost ranks = obverse_ranks(self.nodes@);
        if self.nodes[lower].obverse_rank > self.nodes[middle].obverse_rank {
            aux.sorted_roots[lower] = middle;
            aux.sorted_roots[middle] = lower;
            aux.sorted_next[middle] = lower;
            aux.sorted_prev[lower] = middle;
            aux.cross_wn_links[middle] = lower;
            aux.cross_es_links[lower] = middle;
            let ghost ch = seq![middle, lower];
            assert(key_before(ranks, ch[0], ch[1]));
            Ghost(ch)
        } else {
            aux.sorted_roots[lower] = lower;
            aux.sorted_roots[middle] = middle;
            aux.sorted_next[lower] = middle;
            aux.sorted_prev[middle] = lower;
            aux.accum_children[lower].push(middle);
            aux.accum_parents[middle].push(lower);
            let ghost ch = seq![lower, middle];
            assert(key_before(ranks, ch[0], ch[1]));
            Ghost(ch)
        }
    }

    /// The edges found by the block merge, as `(parents, children)` lists, or
    /// `None` where the block merge abandoned its edge work.  Along the way,
    /// every merge step leaves the merged block's nodes chained in obverse
    /// order.
    pub(crate) fn block_merge_links(&self) -> (r: Option<(Vec<Vec<IndexType>>, Vec<Vec<IndexType>>)>)
        requires
            2 <= self.nodes@.len() < usize::MAX,
        ensures
            r matches Some(lists) ==> lists.0@.len() == self.nodes@.len() && lists.1@.len()
                == self.nodes@.len(),
    {
        let node_count = self.nodes.len();
        let ghost n = node_count as int;
        let ghost ranks = obverse_ranks(self.nodes@);
        let mut aux = AuxData::new(node_count);
        let mut ok = true;
        let mut iter = MinusPlusShift::new(node_count);
        let ghost mut chains: Seq<Seq<usize>> = Seq::new(node_count as nat, |i: int| seq![i as usize]);
        proof {
            assert forall|x: int| 0 <= x < n implies block_chain(
                ranks,
                aux.sorted_next@,
                aux.sorted_prev@,
                aux.sorted_roots@,
                (#[trigger] iter.block_of(x)).0,
                iter.block_of(x).1,
                chains[iter.block_of(x).0],
            ) by {
                assert(iter.block_of(x) == (x, x + 1));
                assert(chains[x] =~= seq![x as usize]);
            }
            assert forall|x: int| 0 <= x < n implies {
                &&& 0 <= (#[trigger] iter.block_of(x)).0 <= x < iter.block_of(x).1 <= n
                &&& forall|y: int|
                    iter.block_of(x).0 <= y < iter.block_of(x).1 ==> #[trigger] iter.block_of(y)
                        == iter.block_of(x)
            } by {
                assert(iter.block_of(x) == (x, x + 1));
                assert forall|y: int|
                    iter.block_of(x).0 <= y < iter.block_of(x).1 implies #[trigger] iter.block_of(y)
                        == iter.block_of(x) by {
                    assert(y == x);
                }
            }
        }
        loop
            invariant
                iter.wf(),
                iter.spec_size() == node_count,
                node_count == self.nodes@.len(),
                n == node_count,
                2 <= node_count < usize::MAX,
                ranks == obverse_ranks(self.nodes@),
                aux.wf(node_count as nat),
                chains.len() == n,
                blocks_partition(iter, n),
                blocks_chained(
                    iter,
                    n,
                    ranks,
                    aux.sorted_next@,
                    aux.sorted_prev@,
                    aux.sorted_roots@,
                    chains,
                ),
            ensures
                aux.wf(node_count as nat),
            decreases iter.remaining(),
        {
            let ghost before = iter;
            let ghost aux0 = aux;
            let step = match iter.next() {
                Some(step) => step,
                None => {
                    break ;
                },
            };
            let lower = step.lower;
            let middle = step.middle;
            let upper = step.upper;
            proof {
                assert(before.block_of(lower as int) == (lower as int, middle as int));
                assert(before.block_of(middle as int) == (middle as int, upper as int));
            }
            let ghost merged: Seq<usize>;
            if step.singles_to_add == 2 {
                let Ghost(m) = self.merge_singles(&mut aux, lower, middle);
                proof {
                    merged = m;
                }
            } else {
                let (step_ok, Ghost(m)) = self.merge_runs(
                    &mut aux,
                    &step,
                    Ghost(chains[lower as int]),
                    Ghost(chains[middle as int]),
                );
                ok = ok && step_ok;
                proof {
                    merged = m;
                }
            }
            proof {
                let chains0 = chains;
                chains = chains.update(lower as int, merged);
                assert forall|x: int| 0 <= x < n implies {
                    &&& 0 <= (#[trigger] iter.block_of(x)).0 <= x < iter.block_of(x).1 <= n
                    &&& forall|y: int|
                        iter.block_of(x).0 <= y < iter.block_of(x).1 ==> #[trigger] iter.block_of(
                            y,
                        ) == iter.block_of(x)
                } by {
                    if lower <= x < upper {
                        assert(iter.block_of(x) == (lower as int, upper as int));
                        assert forall|y: int|
                            iter.block_of(x).0 <= y < iter.block_of(x).1 implies #[trigger] iter.block_of(
                                y,
                            ) == iter.block_of(x) by {
                            assert(iter.block_of(y) == (lower as int, upper as int));
                        }
                    } else {
                        assert(iter.block_of(x) == before.block_of(x));
                        let (bs, be) = before.block_of(x);
                        assert forall|y: int| bs <= y < be implies #[trigger] iter.block_of(y)
                            == iter.block_of(x) by {
                            assert(before.block_of(y) == before.block_of(x));
                            if lower <= y < middle {
                                assert(before.block_of(y) == (lower as int, middle as int));
                            } else if middle <= y < upper {
                                assert(before.block_of(y) == (middle as int, upper as int));
                            }
                        }
                    }
                }
                assert forall|x: int| 0 <= x < n implies block_chain(
                    ranks,
                    aux.sorted_next@,
                    aux.sorted_prev@,
                    aux.sorted_roots@,
                    (#[trigger] iter.block_of(x)).0,
                    iter.block_of(x).1,
                    chains[iter.block_of(x).0],
                ) by {
                    if lower <= x < upper {
                        assert(iter.block_of(x) == (lower as int, upper as int));
                    } else {
                        assert(iter.block_of(x) == before.block_of(x));
                        let (bs, be) = before.block_of(x);
                        assert(block_chain(
                            ranks,
                            aux0.sorted_next@,
                            aux0.sorted_prev@,
                            aux0.sorted_roots@,
                            bs,
                            be,
                            chains0[bs],
                        ));
                        assert(be <= lower || bs >= upper) by {
                            if !(be <= lower || bs >= upper) {
                                let i: int = if bs > lower {
                                    bs
                                } else {
                                    lower as int
                                };
                                assert(before.block_of(i) == before.block_of(x));
                                if i < middle {
                                    assert(before.block_of(i) == (lower as int, middle as int));
                                } else {
                                    assert(before.block_of(i) == (middle as int, upper as int));
                                }
                            }
                        }
                        assert(bs != lower);
                        lemma_block_chain_frame(
                            ranks,
                            aux0.sorted_next@,
                            aux0.sorted_prev@,
                            aux0.sorted_roots@,
                            aux.sorted_next@,
                            aux.sorted_prev@,
                            aux.sorted_roots@,
                            bs,
                            be,
                            chains0[bs],
                        );
                    }
                }
            }
        }
        if ok {
            Some((aux.accum_parents, aux.accum_children))
        } else {
            None
        }
    }
}

} // verus!
