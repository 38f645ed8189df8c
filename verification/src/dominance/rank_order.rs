//! The rank order of dominance nodes (prime rank, then obverse rank) and the
//! sort that puts a node list into that order.

use vstd::prelude::*;
use std::cmp::Ordering;
use vstd::multiset::Multiset;
use crate::dominance::dominance_graph::DominanceNode;
use crate::dominance::dominance_graph::obverse_ranks;

verus! {

broadcast use vstd::seq_lib::group_to_multiset_ensures;

/// `a` comes no later than `b`: lower prime rank, or equal prime rank and no
/// greater obverse rank.
pub open spec fn rank_le(a: DominanceNode, b: DominanceNode) -> bool {
    a.prime_rank < b.prime_rank || (a.prime_rank == b.prime_rank && a.obverse_rank <= b.obverse_rank)
}

/// `s` is in non-decreasing rank order.
pub open spec fn rank_sorted(s: Seq<DominanceNode>) -> bool {
    forall|i: int, j: int| 0 <= i < j < s.len() ==> rank_le(#[trigger] s[i], #[trigger] s[j])
}

/// The prime ranks of a node list, by index.
pub open spec fn prime_ranks(nodes: Seq<DominanceNode>) -> Seq<i32> {
    nodes.map_values(|n: DominanceNode| n.prime_rank)
}

/// The least value of `xs`, or `i32::MAX` when it is empty.
pub open spec fn seq_min(xs: Seq<i32>) -> i32
    decreases xs.len(),
{
    if xs.len() == 0 {
        i32::MAX
    } else {
        let m = seq_min(xs.drop_last());
        if xs.last() < m {
            xs.last()
        } else {
            m
        }
    }
}

/// The greatest value of `xs`, or `i32::MIN` when it is empty.
pub open spec fn seq_max(xs: Seq<i32>) -> i32
    decreases xs.len(),
{
    if xs.len() == 0 {
        i32::MIN
    } else {
        let m = seq_max(xs.drop_last());
        if xs.last() > m {
            xs.last()
        } else {
            m
        }
    }
}

/// The least value of a non-empty sequence is one of its values and bounds
/// all of them.
pub proof fn lemma_seq_min(xs: Seq<i32>)
    requires
        xs.len() > 0,
    ensures
        exists|i: int| 0 <= i < xs.len() && xs[i] == seq_min(xs),
        forall|i: int| 0 <= i < xs.len() ==> seq_min(xs) <= #[trigger] xs[i],
    decreases xs.len(),
{
    let ys = xs.drop_last();
    if ys.len() > 0 {
        lemma_seq_min(ys);
        assert forall|i: int| 0 <= i < xs.len() implies seq_min(xs) <= #[trigger] xs[i] by {
            if i < ys.len() {
                assert(ys[i] == xs[i]);
            }
        }
        if xs.last() >= seq_min(ys) {
            let k = choose|k: int| 0 <= k < ys.len() && ys[k] == seq_min(ys);
            assert(xs[k] == seq_min(xs));
        } else {
            assert(xs[xs.len() - 1] == seq_min(xs));
        }
    } else {
        assert(seq_min(ys) == i32::MAX);
        assert(xs.last() == xs[0]);
        assert(xs[0] == seq_min(xs));
    }
}

/// The greatest value of a non-empty sequence is one of its values and
/// bounds all of them.
pub proof fn lemma_seq_max(xs: Seq<i32>)
    requires
        xs.len() > 0,
    ensures
        exists|i: int| 0 <= i < xs.len() && xs[i] == seq_max(xs),
        forall|i: int| 0 <= i < xs.len() ==> seq_max(xs) >= #[trigger] xs[i],
    decreases xs.len(),
{
    let ys = xs.drop_last();
    if ys.len() > 0 {
        lemma_seq_max(ys);
        assert forall|i: int| 0 <= i < xs.len() implies seq_max(xs) >= #[trigger] xs[i] by {
            if i < ys.len() {
                assert(ys[i] == xs[i]);
            }
        }
        if xs.last() <= seq_max(ys) {
            let k = choose|k: int| 0 <= k < ys.len() && ys[k] == seq_max(ys);
            assert(xs[k] == seq_max(xs));
        } else {
            assert(xs[xs.len() - 1] == seq_max(xs));
        }
    } else {
        assert(seq_max(ys) == i32::MIN);
        assert(xs.last() == xs[0]);
        assert(xs[0] == seq_max(xs));
    }
}

/// Inserting a node after every node no later than it, and before a node no
/// earlier than it, keeps a list in rank order.
pub proof fn lemma_insert_sorted(s: Seq<DominanceNode>, k: usize, node: DominanceNode)
    requires
        rank_sorted(s),
        k <= s.len(),
        forall|i: int| 0 <= i < k ==> rank_le(#[trigger] s[i], node),
        k < s.len() ==> rank_le(node, s[k as int]),
    ensures
        rank_sorted(s.insert(k as int, node)),
{
    let t = s.insert(k as int, node);
    assert forall|i: int, j: int| 0 <= i < j < t.len() implies rank_le(
        #[trigger] t[i],
        #[trigger] t[j],
    ) by {
        if j < k {
            assert(rank_le(s[i], s[j]));
        } else if i < k && j == k {
        } else if i < k && j > k {
            assert(rank_le(s[i], s[j - 1]));
        } else if i == k {
            if j - 1 > k {
                assert(rank_le(s[k as int], s[j - 1]));
            }
        } else {
            assert(rank_le(s[i - 1], s[j - 1]));
        }
    }
}

/// Three-way comparison in rank order.
pub fn rank_cmp(i: &DominanceNode, j: &DominanceNode) -> (r: Ordering)
    ensures
        (r == Ordering::Less) == (i.prime_rank < j.prime_rank || (i.prime_rank == j.prime_rank
            && i.obverse_rank < j.obverse_rank)),
        (r == Ordering::Equal) == (i.prime_rank == j.prime_rank && i.obverse_rank
            == j.obverse_rank),
        (r == Ordering::Greater) == (i.prime_rank > j.prime_rank || (i.prime_rank == j.prime_rank
            && i.obverse_rank > j.obverse_rank)),
{
    if i.prime_rank < j.prime_rank {
        Ordering::Less
    } else if i.prime_rank > j.prime_rank {
        Ordering::Greater
    } else if i.obverse_rank < j.obverse_rank {
        Ordering::Less
    } else if i.obverse_rank > j.obverse_rank {
        Ordering::Greater
    } else {
        Ordering::Equal
    }
}

/// Some node has both the least prime rank and the least obverse rank.
pub open spec fn has_natural_source(s: Seq<DominanceNode>) -> bool {
    exists|i: int|
        0 <= i < s.len() && #[trigger] s[i].prime_rank == seq_min(prime_ranks(s))
            && s[i].obverse_rank == seq_min(obverse_ranks(s))
}

/// Some node has both the greatest prime rank and the greatest obverse rank.
pub open spec fn has_natural_sink(s: Seq<DominanceNode>) -> bool {
    exists|i: int|
        0 <= i < s.len() && #[trigger] s[i].prime_rank == seq_max(prime_ranks(s))
            && s[i].obverse_rank == seq_max(obverse_ranks(s))
}

/// The greatest prime rank equals the greatest obverse rank.  Unless a sink is
/// asked for, fleshing out imputes one exactly when this fails: when the last
/// node in rank order, which has the greatest prime rank, has a prime rank
/// other than the greatest obverse rank.
pub open spec fn top_ranks_agree(s: Seq<DominanceNode>) -> bool {
    seq_max(prime_ranks(s)) == seq_max(obverse_ranks(s))
}

/// The greatest prime and obverse ranks agree exactly when they are equal:
/// where the greatest prime rank is above or below the greatest obverse rank,
/// fleshing out imputes a sink.
pub proof fn lemma_top_ranks_agree(s: Seq<DominanceNode>)
    ensures
        top_ranks_agree(s) <==> seq_max(prime_ranks(s)) == seq_max(obverse_ranks(s)),
        seq_max(prime_ranks(s)) < seq_max(obverse_ranks(s)) ==> !top_ranks_agree(s),
        seq_max(prime_ranks(s)) > seq_max(obverse_ranks(s)) ==> !top_ranks_agree(s),
{
}

/// The ends of a rank-sorted rearrangement of `s`: the first node has the
/// least prime rank, and also the least obverse rank exactly when `s` has a
/// natural source; the last node likewise with the greatest ranks and a
/// natural sink.
pub proof fn lemma_sorted_ends(s: Seq<DominanceNode>, t: Seq<DominanceNode>)
    requires
        s.len() > 0,
        t.to_multiset() == s.to_multiset(),
        rank_sorted(t),
    ensures
        t.len() == s.len(),
        t[0].prime_rank == seq_min(prime_ranks(s)),
        t[t.len() - 1].prime_rank == seq_max(prime_ranks(s)),
        (t[0].obverse_rank == seq_min(obverse_ranks(s))) == has_natural_source(s),
        (t[t.len() - 1].obverse_rank == seq_max(obverse_ranks(s))) == has_natural_sink(s),
{
    let ps = prime_ranks(s);
    let os = obverse_ranks(s);
    assert(t.len() == s.len()) by {
        vstd::seq_lib::to_multiset_len(t);
        vstd::seq_lib::to_multiset_len(s);
    }
    let last = t.len() - 1;
    assert forall|i: int| 0 <= i < s.len() implies t.contains(#[trigger] s[i]) by {
        vstd::seq_lib::to_multiset_contains(s, s[i]);
        vstd::seq_lib::to_multiset_contains(t, s[i]);
    }
    assert(s.contains(t[0])) by {
        vstd::seq_lib::to_multiset_contains(s, t[0]);
        vstd::seq_lib::to_multiset_contains(t, t[0]);
    }
    assert(s.contains(t[last])) by {
        vstd::seq_lib::to_multiset_contains(s, t[last]);
        vstd::seq_lib::to_multiset_contains(t, t[last]);
    }
    lemma_seq_min(ps);
    lemma_seq_max(ps);
    lemma_seq_min(os);
    lemma_seq_max(os);
    let k0 = choose|k: int| 0 <= k < s.len() && s[k] == t[0];
    let kl = choose|k: int| 0 <= k < s.len() && s[k] == t[last];
    assert(ps[k0] == t[0].prime_rank);
    assert(ps[kl] == t[last].prime_rank);
    assert(os[k0] == t[0].obverse_rank);
    assert(os[kl] == t[last].obverse_rank);
    let i0 = choose|i: int| 0 <= i < ps.len() && ps[i] == seq_min(ps);
    let j0 = choose|j: int| 0 <= j < t.len() && t[j] == s[i0];
    if j0 > 0 {
        assert(rank_le(t[0], t[j0]));
    }
    let i1 = choose|i: int| 0 <= i < ps.len() && ps[i] == seq_max(ps);
    let j1 = choose|j: int| 0 <= j < t.len() && t[j] == s[i1];
    if j1 < last {
        assert(rank_le(t[j1], t[last]));
    }
    assert(t[0].prime_rank == seq_min(ps));
    assert(t[last].prime_rank == seq_max(ps));
    if has_natural_source(s) {
        let i = choose|i: int|
            0 <= i < s.len() && #[trigger] s[i].prime_rank == seq_min(ps) && s[i].obverse_rank
                == seq_min(os);
        let j = choose|j: int| 0 <= j < t.len() && t[j] == s[i];
        if j > 0 {
            assert(rank_le(t[0], t[j]));
        }
        assert(os[i] == s[i].obverse_rank);
    }
    if t[0].obverse_rank == seq_min(os) {
        assert(s[k0].prime_rank == seq_min(ps));
    }
    if has_natural_sink(s) {
        let i = choose|i: int|
            0 <= i < s.len() && #[trigger] s[i].prime_rank == seq_max(ps) && s[i].obverse_rank
                == seq_max(os);
        let j = choose|j: int| 0 <= j < t.len() && t[j] == s[i];
        if j < last {
            assert(rank_le(t[j], t[last]));
        }
        assert(os[i] == s[i].obverse_rank);
    }
    if t[last].obverse_rank == seq_max(os) {
        assert(s[kl].prime_rank == seq_max(ps));
    }
}

/// `a` comes strictly after `b` in rank order.
fn is_ranked_after(a: &DominanceNode, b: &DominanceNode) -> (r: bool)
    ensures
        r == !rank_le(*a, *b),
{
    match rank_cmp(a, b) {
        Ordering::Greater => true,
        _ => false,
    }
}

/// Sorts `nodes` into rank order.  Nodes of equal rank may come out in any
/// order.
pub fn sort_by_rank(nodes: Vec<DominanceNode>) -> (sorted: Vec<DominanceNode>)
    ensures
        sorted@.to_multiset() == nodes@.to_multiset(),
        rank_sorted(sorted@),
{
    let ghost all = nodes@;
    let mut rest = nodes;
    let mut sorted: Vec<DominanceNode> = Vec::new();
    while rest.len() > 0
        invariant
            sorted@.to_multiset().add(rest@.to_multiset()) == all.to_multiset(),
            rank_sorted(sorted@),
        decreases rest@.len(),
    {
        let ghost rest_before = rest@;
        let node = rest.pop().unwrap();
        proof {
            assert(rest_before == rest@.push(node));
        }
        let mut k: usize = 0;
        while k < sorted.len() && !is_ranked_after(&sorted[k], &node)
            invariant
                k <= sorted@.len(),
                forall|i: int| 0 <= i < k ==> rank_le(#[trigger] sorted@[i], node),
            decreases sorted@.len() - k,
        {
            k += 1;
        }
        let ghost sorted_before = sorted@;
        sorted.insert(k, node);
        proof {
            lemma_insert_sorted(sorted_before, k, node);
            assert(sorted@.to_multiset() == sorted_before.to_multiset().insert(node));
            assert(rest_before.to_multiset() == rest@.to_multiset().insert(node));
            assert(sorted@.to_multiset().add(rest@.to_multiset()) =~= sorted_before.to_multiset().add(
                rest_before.to_multiset(),
            ));
        }
    }
    proof {
        assert(rest@.to_multiset() =~= Multiset::empty());
        assert(sorted@.to_multiset().add(Multiset::empty()) =~= sorted@.to_multiset());
    }
    sorted
}

} // verus!
