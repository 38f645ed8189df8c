//! Properties of dominance graphs that span the graph-building functions.

use vstd::prelude::*;
use crate::dominance::dominance_graph::DominanceNode;
use crate::dominance::dominance_graph::links_installed;
use crate::dominance::dominance_graph::link_within;
use crate::dominance::dominance_graph::fleshed_out;
use crate::dominance::dominance_graph::with_import_indices;
use crate::dominance::dominance_graph::obverse_ranks;
use crate::dominance::links::covers;
use crate::dominance::links::cover_link;
use crate::dominance::links::lemma_links_down;
use crate::dominance::links::lemma_links_up;
use crate::dominance::links::lemma_cover_below;
use crate::dominance::rank_order::prime_ranks;
use crate::dominance::rank_order::seq_min;
use crate::dominance::rank_order::seq_max;
use crate::dominance::rank_order::has_natural_source;
use crate::dominance::rank_order::has_natural_sink;
use crate::dominance::rank_order::lemma_seq_min;
use crate::dominance::rank_order::lemma_seq_max;
use crate::dominance::rank_order::lemma_sorted_ends;

verus! {

/// Links only join a node to a later node of the graph.
pub proof fn law_links_go_forward(ranks: Seq<i32>)
    ensures
        link_within(cover_link(ranks), ranks.len() as int),
{
}

/// Every element of `s` is above `p`, and `s` is strictly increasing.
pub open spec fn rising_after(s: Seq<usize>, p: int) -> bool {
    &&& forall|i: int| 0 <= i < s.len() ==> p < #[trigger] s[i]
    &&& forall|i: int, j: int| 0 <= i < j < s.len() ==> #[trigger] s[i] < #[trigger] s[j]
}

/// Every element of `s` is below `c`, and `s` is strictly decreasing.
pub open spec fn falling_before(s: Seq<usize>, c: int) -> bool {
    &&& forall|i: int| 0 <= i < s.len() ==> #[trigger] s[i] < c
    &&& forall|i: int, j: int| 0 <= i < j < s.len() ==> #[trigger] s[i] > #[trigger] s[j]
}

/// In a connected graph, `c` is a child of `p` exactly when `p` is a parent of
/// `c`; children lists increase and parents lists decrease.
pub proof fn law_children_mirror_parents(
    nodes: Seq<DominanceNode>,
    before: Seq<DominanceNode>,
    link: spec_fn(int, int) -> bool,
)
    requires
        links_installed(nodes, before, link),
        link_within(link, nodes.len() as int),
        nodes.len() <= usize::MAX,
    ensures
        forall|p: int, c: int|
            0 <= p < nodes.len() && 0 <= c < nodes.len() ==> (
            #[trigger] nodes[p].children@.contains(c as usize)
                <==> #[trigger] nodes[c].parents@.contains(p as usize)),
        forall|p: int| 0 <= p < nodes.len() ==> rising_after(#[trigger] nodes[p].children@, p),
        forall|c: int| 0 <= c < nodes.len() ==> falling_before(#[trigger] nodes[c].parents@, c),
{
    let n = nodes.len() as int;
    assert forall|p: int, c: int| 0 <= p < n && 0 <= c < n implies (
    #[trigger] nodes[p].children@.contains(c as usize)
        <==> #[trigger] nodes[c].parents@.contains(p as usize)) by {
        lemma_links_down(link, p, n);
        lemma_links_up(link, c, 0);
        if nodes[p].children@.contains(c as usize) {
            let k = choose|k: int|
                0 <= k < nodes[p].children@.len() && nodes[p].children@[k] == c as usize;
            assert(link(p, nodes[p].children@[k] as int));
        }
        if nodes[c].parents@.contains(p as usize) {
            let k = choose|k: int|
                0 <= k < nodes[c].parents@.len() && nodes[c].parents@[k] == p as usize;
            assert(link(nodes[c].parents@[k] as int, c));
        }
    }
    assert forall|p: int| 0 <= p < nodes.len() implies rising_after(
        #[trigger] nodes[p].children@,
        p,
    ) by {
        lemma_links_down(link, p, n);
    }
    assert forall|c: int| 0 <= c < nodes.len() implies falling_before(
        #[trigger] nodes[c].parents@,
        c,
    ) by {
        lemma_links_up(link, c, 0);
    }
}

/// The constructions of the edges agree: `connect_graph`,
/// `reference_forewards_connect_graph` and `reference_backwards_connect_graph`
/// all install the covering pairs, so any two of them, run on the same nodes,
/// give the same nodes with the same edges.
pub proof fn law_connectors_agree(
    before: Seq<DominanceNode>,
    a: Seq<DominanceNode>,
    b: Seq<DominanceNode>,
)
    requires
        links_installed(a, before, cover_link(obverse_ranks(before))),
        links_installed(b, before, cover_link(obverse_ranks(before))),
    ensures
        a.len() == b.len(),
        forall|i: int|
            0 <= i < a.len() ==> {
                &&& (#[trigger] a[i]).prime_rank == b[i].prime_rank
                &&& a[i].obverse_rank == b[i].obverse_rank
                &&& a[i].import_index == b[i].import_index
                &&& a[i].children@ == b[i].children@
                &&& a[i].parents@ == b[i].parents@
            },
        forall|p: int, c: int| #[trigger] cover_link(obverse_ranks(before))(p, c) == covers(
            obverse_ranks(before),
            p,
            c,
        ),
{
    assert forall|i: int| 0 <= i < a.len() implies {
        &&& (#[trigger] a[i]).prime_rank == b[i].prime_rank
        &&& a[i].obverse_rank == b[i].obverse_rank
        &&& a[i].import_index == b[i].import_index
        &&& a[i].children@ == b[i].children@
        &&& a[i].parents@ == b[i].parents@
    } by {
        assert(b[i].prime_rank == before[i].prime_rank);
    }
}

/// There is a chain of at most `fuel` links from `p` to `c`.
pub open spec fn reaches(link: spec_fn(int, int) -> bool, p: int, c: int, fuel: nat) -> bool
    decreases fuel,
{
    p == c || (fuel > 0 && exists|e: int| #[trigger] link(p, e) && reaches(link, e, c, (fuel - 1) as nat))
}

/// The links are a transitive reduction of the dominance order: a chain of
/// links leads from `p` to `c` exactly when `p` comes no later than `c` in
/// index and no later in obverse rank.
pub proof fn law_links_reach_dominated(ranks: Seq<i32>, p: int, c: int)
    requires
        0 <= p <= c < ranks.len(),
    ensures
        reaches(cover_link(ranks), p, c, (c - p) as nat) <==> ranks[p] <= ranks[c],
    decreases c - p,
{
    let link = cover_link(ranks);
    if p < c {
        if ranks[p] <= ranks[c] {
            lemma_cover_below(ranks, p, c);
            let e = choose|e: int| p < e <= c && covers(ranks, p, e) && ranks[e] <= ranks[c];
            law_links_reach_dominated(ranks, e, c);
            lemma_reaches_more_fuel(link, e, c, (c - e) as nat, (c - p - 1) as nat);
            assert(link(p, e));
        }
        if reaches(link, p, c, (c - p) as nat) {
            let e = choose|e: int| #[trigger] link(p, e) && reaches(link, e, c, (c - p - 1) as nat);
            lemma_reaches_forward(link, ranks, e, c, (c - p - 1) as nat);
        }
    }
}

/// More fuel never hurts.
proof fn lemma_reaches_more_fuel(link: spec_fn(int, int) -> bool, p: int, c: int, f: nat, g: nat)
    requires
        reaches(link, p, c, f),
        f <= g,
    ensures
        reaches(link, p, c, g),
    decreases f,
{
    if p != c {
        let e = choose|e: int| #[trigger] link(p, e) && reaches(link, e, c, (f - 1) as nat);
        lemma_reaches_more_fuel(link, e, c, (f - 1) as nat, (g - 1) as nat);
    }
}

/// Links only ever lead forwards in index and upwards in obverse rank.
proof fn lemma_reaches_forward(link: spec_fn(int, int) -> bool, ranks: Seq<i32>, p: int, c: int, f: nat)
    requires
        link == cover_link(ranks),
        0 <= p < ranks.len(),
        reaches(link, p, c, f),
    ensures
        p <= c,
        ranks[p] <= ranks[c],
    decreases f,
{
    if p != c {
        let e = choose|e: int| #[trigger] link(p, e) && reaches(link, e, c, (f - 1) as nat);
        lemma_reaches_forward(link, ranks, e, c, (f - 1) as nat);
    }
}

/// After fleshing out, the first node comes no later than any node in both
/// ranks (it is the source) and the last node no earlier than any (it is the
/// sink).  Where no source was imputed this needs a node least in both ranks,
/// and where no sink was imputed a node greatest in both ranks: fleshing out
/// leaves the sink out whenever the greatest prime and obverse ranks are
/// equal, even where no node has both.
pub proof fn law_fleshed_out_has_source_and_sink(
    nodes: Seq<DominanceNode>,
    input: Seq<DominanceNode>,
    source: bool,
    sink: bool,
)
    requires
        input.len() > 0,
        fleshed_out(nodes, input, source, sink),
        !source ==> has_natural_source(input),
        !sink ==> has_natural_sink(input),
    ensures
        forall|i: int|
            0 <= i < nodes.len() ==> nodes[0].prime_rank <= (#[trigger] nodes[i]).prime_rank
                && nodes[0].obverse_rank <= nodes[i].obverse_rank,
        forall|i: int|
            0 <= i < nodes.len() ==> nodes[nodes.len() - 1].prime_rank >= (
            #[trigger] nodes[i]).prime_rank && nodes[nodes.len() - 1].obverse_rank
                >= nodes[i].obverse_rank,
{
    let n = input.len() as int;
    let start: int = if source {
        1
    } else {
        0
    };
    let core = nodes.subrange(start, start + n);
    let marked = with_import_indices(input);
    let ps = prime_ranks(input);
    let os = obverse_ranks(input);
    assert(prime_ranks(marked) =~= ps);
    assert(obverse_ranks(marked) =~= os);
    lemma_sorted_ends(marked, core);
    lemma_seq_min(ps);
    lemma_seq_max(ps);
    lemma_seq_min(os);
    lemma_seq_max(os);
    // Every node of the core is a node of the input, so its ranks lie within the input's.
    assert forall|k: int| 0 <= k < n implies seq_min(ps) <= (#[trigger] core[k]).prime_rank
        <= seq_max(ps) && seq_min(os) <= core[k].obverse_rank <= seq_max(os) by {
        vstd::seq_lib::to_multiset_contains(core, core[k]);
        vstd::seq_lib::to_multiset_contains(marked, core[k]);
        let m = choose|m: int| 0 <= m < marked.len() && marked[m] == core[k];
        assert(ps[m] == input[m].prime_rank);
        assert(os[m] == input[m].obverse_rank);
    }
    if has_natural_source(marked) {
        assert(has_natural_source(input)) by {
            let k = choose|k: int|
                0 <= k < marked.len() && #[trigger] marked[k].prime_rank == seq_min(
                    prime_ranks(marked),
                ) && marked[k].obverse_rank == seq_min(obverse_ranks(marked));
            assert(input[k].prime_rank == marked[k].prime_rank);
        }
    }
    if has_natural_source(input) {
        assert(has_natural_source(marked)) by {
            let k = choose|k: int|
                0 <= k < input.len() && #[trigger] input[k].prime_rank == seq_min(ps)
                    && input[k].obverse_rank == seq_min(os);
            assert(input[k].prime_rank == marked[k].prime_rank);
        }
    }
    if has_natural_sink(input) {
        assert(has_natural_sink(marked)) by {
            let k = choose|k: int|
                0 <= k < input.len() && #[trigger] input[k].prime_rank == seq_max(ps)
                    && input[k].obverse_rank == seq_max(os);
            assert(input[k].prime_rank == marked[k].prime_rank);
        }
    }
    let last = nodes.len() - 1;
    assert forall|i: int| 0 <= i < nodes.len() implies nodes[0].prime_rank <= (
    #[trigger] nodes[i]).prime_rank && nodes[0].obverse_rank <= nodes[i].obverse_rank by {
        if start <= i < start + n {
            assert(nodes[i] == core[i - start]);
        }
        if !source {
            assert(nodes[0] == core[0]);
        }
    }
    assert forall|i: int| 0 <= i < nodes.len() implies nodes[last].prime_rank >= (
    #[trigger] nodes[i]).prime_rank && nodes[last].obverse_rank >= nodes[i].obverse_rank by {
        if start <= i < start + n {
            assert(nodes[i] == core[i - start]);
        }
        if !sink {
            assert(nodes[last] == core[n - 1]);
        }
    }
}


/// `rotated` is `ranks` turned through 180 degrees: the index order reversed
/// and the obverse ranks negated.
pub open spec fn rotated_ranks(ranks: Seq<i32>, rotated: Seq<i32>) -> bool {
    &&& rotated.len() == ranks.len()
    &&& forall|i: int|
        0 <= i < ranks.len() ==> #[trigger] rotated[i] == -ranks[ranks.len() - 1 - i]
}

/// The index of node `i` after turning `n` nodes through 180 degrees.
pub open spec fn turn(n: int, i: usize) -> usize {
    (n - 1 - i) as usize
}

/// Turning a graph through 180 degrees swaps the roles of links: `p` covers
/// `c` exactly when, turned, `c` covers `p`.
pub proof fn lemma_covers_rotate(ranks: Seq<i32>, rotated: Seq<i32>, p: int, c: int)
    requires
        rotated_ranks(ranks, rotated),
        0 <= p < ranks.len(),
        0 <= c < ranks.len(),
    ensures
        covers(ranks, p, c) == covers(rotated, ranks.len() - 1 - c, ranks.len() - 1 - p),
{
    let n = ranks.len() as int;
    let p2 = n - 1 - c;
    let c2 = n - 1 - p;
    assert(rotated[p2] == -ranks[c]);
    assert(rotated[c2] == -ranks[p]);
    if covers(ranks, p, c) {
        assert forall|d: int| p2 < d < c2 implies !(rotated[p2] <= #[trigger] rotated[d]
            && rotated[d] <= rotated[c2]) by {
            assert(rotated[d] == -ranks[n - 1 - d]);
            assert(p < n - 1 - d < c);
        }
    }
    if covers(rotated, p2, c2) {
        assert forall|d: int| p < d < c implies !(ranks[p] <= #[trigger] ranks[d] && ranks[d]
            <= ranks[c]) by {
            assert(rotated[n - 1 - d] == -ranks[d]);
            assert(p2 < n - 1 - d < c2);
        }
    }
}

proof fn lemma_links_rotate(ranks: Seq<i32>, rotated: Seq<i32>, c: int, start: int)
    requires
        rotated_ranks(ranks, rotated),
        ranks.len() <= usize::MAX,
        0 <= c < ranks.len(),
        0 <= start <= c,
    ensures
        crate::dominance::links::links_down(
            cover_link(rotated),
            ranks.len() - 1 - c,
            ranks.len() - start,
        ) == crate::dominance::links::links_up(cover_link(ranks), c, start).map_values(
            |x: usize| turn(ranks.len() as int, x),
        ),
    decreases c - start,
{
    let n = ranks.len() as int;
    if start < c {
        lemma_links_rotate(ranks, rotated, c, start + 1);
        lemma_covers_rotate(ranks, rotated, start, c);
        assert(rotated[n - 1 - start] == -ranks[start]);
        let up = crate::dominance::links::links_up(cover_link(ranks), c, start + 1);
        let f = |x: usize| turn(n, x);
        assert(up.push(start as usize).map_values(f) =~= up.map_values(f).push(
            (n - 1 - start) as usize,
        ));
    } else {
        assert(crate::dominance::links::links_up(cover_link(ranks), c, start).map_values(
            |x: usize| turn(n, x),
        ) =~= Seq::<usize>::empty());
    }
}

/// Connecting a graph turned through 180 degrees gives the graph
/// turned: the children of a turned node are the turned parents of the
/// unturned node, in the same list order, and likewise the parents are the
/// turned children.  (Turning negates the obverse ranks, so no rank is
/// `i32::MIN`.)
pub proof fn law_connection_is_rotation_symmetric(
    nodes: Seq<DominanceNode>,
    before: Seq<DominanceNode>,
    turned_nodes: Seq<DominanceNode>,
    turned_before: Seq<DominanceNode>,
)
    requires
        links_installed(nodes, before, cover_link(obverse_ranks(before))),
        links_installed(turned_nodes, turned_before, cover_link(obverse_ranks(turned_before))),
        rotated_ranks(obverse_ranks(before), obverse_ranks(turned_before)),
        before.len() <= usize::MAX,
    ensures
        forall|i: int|
            0 <= i < nodes.len() ==> {
                &&& #[trigger] turned_nodes[nodes.len() - 1 - i].children@ == nodes[i].parents@.map_values(
                    |x: usize| turn(nodes.len() as int, x),
                )
                &&& turned_nodes[nodes.len() - 1 - i].parents@ == nodes[i].children@.map_values(
                    |x: usize| turn(nodes.len() as int, x),
                )
            },
{
    let ranks = obverse_ranks(before);
    let rotated = obverse_ranks(turned_before);
    let n = before.len() as int;
    assert forall|i: int|
        0 <= i < nodes.len() implies {
        &&& #[trigger] turned_nodes[nodes.len() - 1 - i].children@ == nodes[i].parents@.map_values(
            |x: usize| turn(nodes.len() as int, x),
        )
        &&& turned_nodes[nodes.len() - 1 - i].parents@ == nodes[i].children@.map_values(
            |x: usize| turn(nodes.len() as int, x),
        )
    } by {
        lemma_links_rotate(ranks, rotated, i, 0);
        let j = n - 1 - i;
        assert(rotated_ranks(rotated, ranks)) by {
            assert forall|k: int| 0 <= k < rotated.len() implies #[trigger] ranks[k] == -rotated[
            rotated.len() - 1 - k] by {
                assert(rotated[n - 1 - k] == -ranks[k]);
            }
        }
        lemma_links_rotate(rotated, ranks, j, 0);
        // The second application gives the turned node's parents in terms of the unturned
        // children, turned back: apply `turn` once more on both sides.
        let f = |x: usize| turn(n, x);
        let kids = crate::dominance::links::links_down(cover_link(ranks), i, n);
        let ups = crate::dominance::links::links_up(cover_link(rotated), j, 0);
        assert(kids == ups.map_values(f));
        crate::dominance::links::lemma_links_up(cover_link(rotated), j, 0);
        assert(ups.map_values(f).map_values(f) =~= ups);
        assert(turned_nodes[j].parents@ == ups);
    }
}

} // verus!
