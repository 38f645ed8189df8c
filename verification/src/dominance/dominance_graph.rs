//! Dominance graphs: nodes with a prime and an obverse rank, connected by the
//! covering relation of the order in which one node precedes another in both
//! ranks.
//!
//! Memory and intermediate storage are not a key concern: dominance graphs are
//! not meant to have large numbers of nodes.

use vstd::prelude::*;
use crate::dominance::conquer_iterator::MinusPlusShift;
use crate::dominance::links::cover_link;
use crate::dominance::links::links_down;
use crate::dominance::links::links_up;
use crate::dominance::links::lemma_links_down;
use crate::dominance::links::lemma_links_up;
use crate::dominance::links::lemma_child_scan;
use crate::dominance::links::lemma_parent_scan;
use crate::dominance::rank_order::rank_sorted;
use crate::dominance::rank_order::prime_ranks;
use crate::dominance::rank_order::seq_min;
use crate::dominance::rank_order::seq_max;
use crate::dominance::rank_order::has_natural_source;
use crate::dominance::rank_order::top_ranks_agree;
use crate::dominance::rank_order::sort_by_rank;
use crate::dominance::rank_order::lemma_sorted_ends;

verus! {

pub type IndexType = usize;

pub type RankType = i32;

/// Import index of an imputed sink: an index that no input list can have.
pub const SINK_IMPORT_PSEUDO_INDEX: IndexType = usize::MAX - 1;

/// Import index of an imputed source: an index that no input list can have.
pub const SOURCE_IMPORT_PSEUDO_INDEX: IndexType = usize::MAX - 2;

/// A node of a dominance graph.  `parents` and `children` hold indices into the
/// graph's node list.  `import_index` is the node's position in the input, or
/// a pseudo index for an imputed source or sink.
#[derive(Debug, PartialEq, Eq, Clone)]
pub struct DominanceNode {
    pub prime_rank: RankType,
    pub obverse_rank: RankType,
    pub import_index: IndexType,
    pub parents: Vec<IndexType>,
    pub children: Vec<IndexType>,
}

impl DominanceNode {
    /// The import index of a node that has none.
    pub fn default_index() -> (r: IndexType)
        ensures
            r == usize::MAX,
    {
        IndexType::MAX
    }

    /// Whether `v` is the default import index.
    pub fn is_default_index(v: &IndexType) -> (r: bool)
        ensures
            r == (*v == usize::MAX),
    {
        *v == Self::default_index()
    }

    /// The rank of a node that has none.
    pub fn default_rank() -> (r: RankType)
        ensures
            r == i32::MIN,
    {
        RankType::MIN
    }

    /// Whether `v` is the default rank.
    pub fn is_default_rank(v: &RankType) -> (r: bool)
        ensures
            r == (*v == i32::MIN),
    {
        *v == Self::default_rank()
    }
}

impl Default for DominanceNode {
    fn default() -> (r: Self)
        ensures
            r.prime_rank == i32::MIN,
            r.obverse_rank == i32::MIN,
            r.import_index == usize::MAX,
            r.parents@ == Seq::<usize>::empty(),
            r.children@ == Seq::<usize>::empty(),
    {
        DominanceNode {
            prime_rank: Self::default_rank(),
            obverse_rank: Self::default_rank(),
            import_index: Self::default_index(),
            parents: Vec::new(),
            children: Vec::new(),
        }
    }
}

/// A dominance graph.  Sources and sinks are only imputed if there is not
/// already one.
#[derive(Debug, PartialEq, Eq, Clone)]
pub struct DominanceGraph {
    pub source_index: IndexType,
    pub imputed_source: bool,
    pub sink_index: IndexType,
    pub imputed_sink: bool,
    pub nodes: Vec<DominanceNode>,
}

impl Default for DominanceGraph {
    fn default() -> (r: Self)
        ensures
            r.source_index == 0,
            r.imputed_source,
            r.sink_index == 0,
            r.imputed_sink,
            r.nodes@ == Seq::<DominanceNode>::empty(),
    {
        Self {
            source_index: 0,
            imputed_source: true,
            sink_index: 0,
            imputed_sink: true,
            nodes: Vec::<DominanceNode>::new(),
        }
    }
}

/// The obverse ranks of a node list, by index.
pub open spec fn obverse_ranks(nodes: Seq<DominanceNode>) -> Seq<RankType> {
    nodes.map_values(|n: DominanceNode| n.obverse_rank)
}

/// `nodes` is `before` with every node's children set to its `link`
/// successors in increasing index and its parents to its `link`
/// predecessors in decreasing index; everything else is unchanged.
pub open spec fn links_installed(
    nodes: Seq<DominanceNode>,
    before: Seq<DominanceNode>,
    link: spec_fn(int, int) -> bool,
) -> bool {
    &&& nodes.len() == before.len()
    &&& forall|i: int|
        0 <= i < nodes.len() ==> {
            &&& (#[trigger] nodes[i]).prime_rank == before[i].prime_rank
            &&& nodes[i].obverse_rank == before[i].obverse_rank
            &&& nodes[i].import_index == before[i].import_index
            &&& nodes[i].children@ == links_down(link, i, nodes.len() as int)
            &&& nodes[i].parents@ == links_up(link, i, 0)
        }
}

/// `s` with every node's import index set to its position.
pub open spec fn with_import_indices(s: Seq<DominanceNode>) -> Seq<DominanceNode> {
    Seq::new(
        s.len(),
        |i: int|
            DominanceNode {
                prime_rank: s[i].prime_rank,
                obverse_rank: s[i].obverse_rank,
                import_index: i as usize,
                parents: s[i].parents,
                children: s[i].children,
            },
    )
}

/// `node` is an imputed node with the given ranks and import index, and no
/// edges.
pub open spec fn is_imputed_node(node: DominanceNode, prime: int, obverse: int, index: usize) -> bool {
    &&& node.prime_rank == prime
    &&& node.obverse_rank == obverse
    &&& node.import_index == index
    &&& node.parents@ == Seq::<usize>::empty()
    &&& node.children@ == Seq::<usize>::empty()
}

/// `nodes` is `input`, each node marked with its input position and the whole
/// put into rank order, preceded by an imputed source when `source` holds and
/// followed by an imputed sink when `sink` holds.  The source sits one below
/// the least prime and obverse ranks of the input, the sink one above the
/// greatest.
pub open spec fn fleshed_out(
    nodes: Seq<DominanceNode>,
    input: Seq<DominanceNode>,
    source: bool,
    sink: bool,
) -> bool {
    let n = input.len() as int;
    let start: int = if source {
        1
    } else {
        0
    };
    let core = nodes.subrange(start, start + n);
    &&& nodes.len() == n + start + (if sink {
        1int
    } else {
        0int
    })
    &&& core.to_multiset() == with_import_indices(input).to_multiset()
    &&& rank_sorted(core)
    &&& source ==> is_imputed_node(
        nodes[0],
        seq_min(prime_ranks(input)) - 1,
        seq_min(obverse_ranks(input)) - 1,
        SOURCE_IMPORT_PSEUDO_INDEX,
    )
    &&& sink ==> is_imputed_node(
        nodes[nodes.len() - 1],
        seq_max(prime_ranks(input)) + 1,
        seq_max(obverse_ranks(input)) + 1,
        SINK_IMPORT_PSEUDO_INDEX,
    )
}

/// Every link joins two nodes in increasing index order.
pub open spec fn link_within(link: spec_fn(int, int) -> bool, n: int) -> bool {
    forall|p: int, c: int| #[trigger] link(p, c) ==> 0 <= p < c < n
}

/// `n` empty lists.
fn empty_lists(n: usize) -> (r: Vec<Vec<IndexType>>)
    ensures
        r@.len() == n,
        forall|i: int| 0 <= i < n ==> (#[trigger] r@[i])@ == Seq::<usize>::empty(),
{
    let mut r: Vec<Vec<IndexType>> = Vec::new();
    let mut k: usize = 0;
    while k < n
        invariant
            k <= n,
            r@.len() == k,
            forall|i: int| 0 <= i < k ==> (#[trigger] r@[i])@ == Seq::<usize>::empty(),
        decreases n - k,
    {
        r.push(Vec::new());
        k += 1;
    }
    r
}

/// Parents from children: each child list is in increasing order, and the
/// parent lists come out in decreasing order.
fn parents_from_children(
    children: &Vec<Vec<IndexType>>,
    Ghost(link): Ghost<spec_fn(int, int) -> bool>,
) -> (parents: Vec<Vec<IndexType>>)
    requires
        children@.len() < usize::MAX,
        link_within(link, children@.len() as int),
        forall|i: int|
            0 <= i < children@.len() ==> (#[trigger] children@[i])@ == links_down(
                link,
                i,
                children@.len() as int,
            ),
    ensures
        parents@.len() == children@.len(),
        forall|i: int|
            0 <= i < parents@.len() ==> (#[trigger] parents@[i])@ == links_up(link, i, 0),
{
    let n = children.len();
    let mut parents = empty_lists(n);
    let mut p = n;
    while p > 0
        invariant
            p <= n,
            n == children@.len(),
            parents@.len() == n,
            link_within(link, n as int),
            forall|i: int|
                0 <= i < n ==> (#[trigger] children@[i])@ == links_down(link, i, n as int),
            forall|c: int| 0 <= c < n ==> (#[trigger] parents@[c])@ == links_up(link, c, p as int),
        decreases p,
    {
        p -= 1;
        let kids = &children[p];
        let ghost l = kids@;
        proof {
            lemma_links_down(link, p as int, n as int);
        }
        let mut j: usize = 0;
        while j < kids.len()
            invariant
                p < n,
                j <= kids@.len(),
                l == kids@,
                l == links_down(link, p as int, n as int),
                parents@.len() == n,
                forall|k: int| 0 <= k < l.len() ==> p < #[trigger] l[k] < n,
                forall|a: int, b: int| 0 <= a < b < l.len() ==> l[a] < l[b],
                forall|c: int|
                    0 <= c < n ==> (#[trigger] parents@[c])@ == if l.subrange(0, j as int).contains(
                        c as usize,
                    ) {
                        links_up(link, c, p + 1).push(p as usize)
                    } else {
                        links_up(link, c, p + 1)
                    },
            decreases kids@.len() - j,
        {
            let c = kids[j];
            proof {
                let pre = l.subrange(0, j as int);
                let post = l.subrange(0, j + 1);
                assert(!pre.contains(c)) by {
                    if pre.contains(c) {
                        let k = choose|k: int| 0 <= k < j && #[trigger] pre[k] == c;
                        assert(l[k] < l[j as int]);
                    }
                }
                assert forall|x: usize| #[trigger]
                    post.contains(x) <==> (pre.contains(x) || x == c) by {
                    if post.contains(x) {
                        let k = choose|k: int| 0 <= k < j + 1 && #[trigger] post[k] == x;
                        if k < j {
                            assert(pre[k] == x);
                        }
                    }
                    if pre.contains(x) {
                        let k = choose|k: int| 0 <= k < j && #[trigger] pre[k] == x;
                        assert(post[k] == x);
                    }
                    if x == c {
                        assert(post[j as int] == x);
                    }
                }
            }
            parents[c].push(p);
            j += 1;
        }
        proof {
            assert(l.subrange(0, l.len() as int) == l);
            assert forall|c: int| 0 <= c < n implies (#[trigger] parents@[c])@ == links_up(
                link,
                c,
                p as int,
            ) by {
                if l.contains(c as usize) {
                    let k = choose|k: int| 0 <= k < l.len() && l[k] == c as usize;
                    assert(link(p as int, l[k] as int));
                } else if link(p as int, c) {
                    assert(l.contains(c as usize));
                }
            }
        }
    }
    parents
}

/// Children from parents: each parent list is in decreasing order, and the
/// child lists come out in increasing order.
fn children_from_parents(
    parents: &Vec<Vec<IndexType>>,
    Ghost(link): Ghost<spec_fn(int, int) -> bool>,
) -> (children: Vec<Vec<IndexType>>)
    requires
        parents@.len() < usize::MAX,
        link_within(link, parents@.len() as int),
        forall|i: int|
            0 <= i < parents@.len() ==> (#[trigger] parents@[i])@ == links_up(link, i, 0),
    ensures
        children@.len() == parents@.len(),
        forall|i: int|
            0 <= i < children@.len() ==> (#[trigger] children@[i])@ == links_down(
                link,
                i,
                children@.len() as int,
            ),
{
    let n = parents.len();
    let mut children = empty_lists(n);
    let mut c: usize = 0;
    while c < n
        invariant
            c <= n,
            n == parents@.len(),
            children@.len() == n,
            link_within(link, n as int),
            forall|i: int| 0 <= i < n ==> (#[trigger] parents@[i])@ == links_up(link, i, 0),
            forall|p: int| 0 <= p < n ==> (#[trigger] children@[p])@ == links_down(link, p, c as int),
        decreases n - c,
    {
        let elders = &parents[c];
        let ghost l = elders@;
        proof {
            lemma_links_up(link, c as int, 0);
        }
        let mut j: usize = 0;
        while j < elders.len()
            invariant
                c < n,
                j <= elders@.len(),
                l == elders@,
                l == links_up(link, c as int, 0),
                children@.len() == n,
                forall|k: int| 0 <= k < l.len() ==> 0 <= #[trigger] l[k] < c,
                forall|a: int, b: int| 0 <= a < b < l.len() ==> l[a] > l[b],
                forall|p: int|
                    0 <= p < n ==> (#[trigger] children@[p])@ == if l.subrange(0, j as int).contains(
                        p as usize,
                    ) {
                        links_down(link, p, c as int).push(c as usize)
                    } else {
                        links_down(link, p, c as int)
                    },
            decreases elders@.len() - j,
        {
            let p = elders[j];
            proof {
                let pre = l.subrange(0, j as int);
                let post = l.subrange(0, j + 1);
                assert(!pre.contains(p)) by {
                    if pre.contains(p) {
                        let k = choose|k: int| 0 <= k < j && #[trigger] pre[k] == p;
                        assert(l[k] > l[j as int]);
                    }
                }
                assert forall|x: usize| #[trigger]
                    post.contains(x) <==> (pre.contains(x) || x == p) by {
                    if post.contains(x) {
                        let k = choose|k: int| 0 <= k < j + 1 && #[trigger] post[k] == x;
                        if k < j {
                            assert(pre[k] == x);
                        }
                    }
                    if pre.contains(x) {
                        let k = choose|k: int| 0 <= k < j && #[trigger] pre[k] == x;
                        assert(post[k] == x);
                    }
                    if x == p {
                        assert(post[j as int] == x);
                    }
                }
            }
            children[p].push(c);
            j += 1;
        }
        proof {
            assert(l.subrange(0, l.len() as int) == l);
            assert forall|p: int| 0 <= p < n implies (#[trigger] children@[p])@ == links_down(
                link,
                p,
                c + 1,
            ) by {
                if l.contains(p as usize) {
                    let k = choose|k: int| 0 <= k < l.len() && l[k] == p as usize;
                    assert(link(l[k] as int, c as int));
                } else if link(p, c as int) {
                    assert(l.contains(p as usize));
                }
            }
        }
        c += 1;
    }
    children
}

/// Whether two lists of lists hold the same entries.
fn same_lists(a: &Vec<Vec<IndexType>>, b: &Vec<Vec<IndexType>>) -> (r: bool)
    ensures
        r == (a@.len() == b@.len() && forall|i: int| 0 <= i < a@.len() ==> (#[trigger] a@[i])@ == b@[i]@),
{
    if a.len() != b.len() {
        return false;
    }
    let mut i: usize = 0;
    while i < a.len()
        invariant
            a@.len() == b@.len(),
            i <= a@.len(),
            forall|k: int| 0 <= k < i ==> (#[trigger] a@[k])@ == b@[k]@,
        decreases a@.len() - i,
    {
        let x = &a[i];
        let y = &b[i];
        if x.len() != y.len() {
            assert(a@[i as int]@.len() != b@[i as int]@.len());
            return false;
        }
        let mut j: usize = 0;
        while j < x.len()
            invariant
                i < a@.len(),
                a@.len() == b@.len(),
                x@ == a@[i as int]@,
                y@ == b@[i as int]@,
                x@.len() == y@.len(),
                j <= x@.len(),
                forall|k: int| 0 <= k < j ==> x@[k] == y@[k],
            decreases x@.len() - j,
        {
            if x[j] != y[j] {
                assert(a@[i as int]@[j as int] != b@[i as int]@[j as int]);
                return false;
            }
            j += 1;
        }
        assert(x@ =~= y@);
        i += 1;
    }
    true
}

impl DominanceGraph {
    /// A graph of unconnected nodes with the given (prime, obverse) ranks, in
    /// the given order, with no import indices yet.
    pub fn new_from_pairs(
        pairs: &[(RankType, RankType)],
        imputed_source: bool,
        imputed_sink: bool,
    ) -> (r: Self)
        ensures
            r.nodes@.len() == pairs@.len(),
            forall|i: int|
                0 <= i < pairs@.len() ==> {
                    &&& (#[trigger] r.nodes@[i]).prime_rank == pairs@[i].0
                    &&& r.nodes@[i].obverse_rank == pairs@[i].1
                    &&& r.nodes@[i].import_index == usize::MAX
                    &&& r.nodes@[i].parents@ == Seq::<usize>::empty()
                    &&& r.nodes@[i].children@ == Seq::<usize>::empty()
                },
            r.imputed_source == imputed_source,
            r.imputed_sink == imputed_sink,
            r.source_index == 0,
            r.sink_index == 0,
    {
        let mut node_vec = Vec::<DominanceNode>::with_capacity(pairs.len());
        let mut i: usize = 0;
        while i < pairs.len()
            invariant
                i <= pairs@.len(),
                node_vec@.len() == i,
                forall|k: int|
                    0 <= k < i ==> {
                        &&& (#[trigger] node_vec@[k]).prime_rank == pairs@[k].0
                        &&& node_vec@[k].obverse_rank == pairs@[k].1
                        &&& node_vec@[k].import_index == usize::MAX
                        &&& node_vec@[k].parents@ == Seq::<usize>::empty()
                        &&& node_vec@[k].children@ == Seq::<usize>::empty()
                    },
            decreases pairs@.len() - i,
        {
            let pair = pairs[i];
            let node = DominanceNode {
                prime_rank: pair.0,
                obverse_rank: pair.1,
                import_index: DominanceNode::default_index(),
                parents: Vec::new(),
                children: Vec::new(),
            };
            node_vec.push(node);
            i += 1;
        }
        let base = Self::default();
        Self {
            source_index: base.source_index,
            imputed_source,
            sink_index: base.sink_index,
            imputed_sink,
            nodes: node_vec,
        }
    }

    /// Marks each node with its input position, sorts the nodes into
    /// increasing prime rank (then obverse rank), and imputes a source and a
    /// sink where asked.  A source is also imputed where the first node is not
    /// the least in obverse rank (no node is least in both ranks).  A sink is
    /// also imputed where the last node's prime rank, the greatest prime rank,
    /// differs from the greatest obverse rank.
    ///
    /// It needs at least two nodes, and room below or above the ranks for the
    /// imputed nodes.
    pub fn flesh_out_graph_nodes(&mut self) -> (r: Result<(), &'static str>)
        requires
            old(self).nodes@.len() >= 2,
            old(self).imputed_source || !has_natural_source(old(self).nodes@) ==> {
                &&& seq_min(prime_ranks(old(self).nodes@)) > i32::MIN
                &&& seq_min(obverse_ranks(old(self).nodes@)) > i32::MIN
            },
            old(self).imputed_sink || !top_ranks_agree(old(self).nodes@) ==> {
                &&& seq_max(prime_ranks(old(self).nodes@)) < i32::MAX
                &&& seq_max(obverse_ranks(old(self).nodes@)) < i32::MAX
            },
        ensures
            r is Ok,
            final(self).imputed_source == (old(self).imputed_source || !has_natural_source(
                old(self).nodes@,
            )),
            final(self).imputed_sink == (old(self).imputed_sink || !top_ranks_agree(
                old(self).nodes@,
            )),
            final(self).imputed_sink == (old(self).imputed_sink || seq_max(
                prime_ranks(old(self).nodes@),
            ) != seq_max(obverse_ranks(old(self).nodes@))),
            final(self).imputed_source == (old(self).imputed_source || !(exists|i: int|
                0 <= i < old(self).nodes@.len() && #[trigger] old(self).nodes@[i].prime_rank
                    == seq_min(prime_ranks(old(self).nodes@)) && old(self).nodes@[i].obverse_rank
                    == seq_min(obverse_ranks(old(self).nodes@)))),
            fleshed_out(
                final(self).nodes@,
                old(self).nodes@,
                final(self).imputed_source,
                final(self).imputed_sink,
            ),
            final(self).source_index == 0,
            final(self).sink_index == final(self).nodes@.len() - 1,
    {
        let ghost input = self.nodes@;
        let ghost obverse = obverse_ranks(input);
        let ghost marked = with_import_indices(input);
        let node_count = self.nodes.len();
        let mut min_obverse = RankType::MAX;
        let mut max_obverse = RankType::MIN;
        let mut i: usize = 0;
        while i < node_count
            invariant
                i <= node_count,
                node_count == input.len(),
                self.nodes@.len() == node_count,
                obverse == obverse_ranks(input),
                marked == with_import_indices(input),
                forall|k: int| 0 <= k < i ==> #[trigger] self.nodes@[k] == marked[k],
                forall|k: int| i <= k < node_count ==> #[trigger] self.nodes@[k] == input[k],
                min_obverse == seq_min(obverse.take(i as int)),
                max_obverse == seq_max(obverse.take(i as int)),
                self.imputed_source == old(self).imputed_source,
                self.imputed_sink == old(self).imputed_sink,
            decreases node_count - i,
        {
            proof {
                assert(obverse.take(i + 1).drop_last() =~= obverse.take(i as int));
                assert(obverse.take(i + 1).last() == input[i as int].obverse_rank);
            }
            self.nodes[i].import_index = i;
            let rank = self.nodes[i].obverse_rank;
            if rank < min_obverse {
                min_obverse = rank;
            }
            if rank > max_obverse {
                max_obverse = rank;
            }
            i += 1;
        }
        proof {
            assert(self.nodes@ =~= marked);
            assert(obverse.take(node_count as int) =~= obverse);
            assert(prime_ranks(marked) =~= prime_ranks(input));
            assert(obverse_ranks(marked) =~= obverse_ranks(input));
            assert(has_natural_source(marked) == has_natural_source(input)) by {
                if has_natural_source(input) {
                    let k = choose|k: int|
                        0 <= k < input.len() && #[trigger] input[k].prime_rank == seq_min(
                            prime_ranks(input),
                        ) && input[k].obverse_rank == seq_min(obverse_ranks(input));
                    assert(marked[k].prime_rank == input[k].prime_rank);
                }
                if has_natural_source(marked) {
                    let k = choose|k: int|
                        0 <= k < marked.len() && #[trigger] marked[k].prime_rank == seq_min(
                            prime_ranks(marked),
                        ) && marked[k].obverse_rank == seq_min(obverse_ranks(marked));
                    assert(marked[k].prime_rank == input[k].prime_rank);
                }
            }
        }
        let mut taken: Vec<DominanceNode> = Vec::new();
        std::mem::swap(&mut taken, &mut self.nodes);
        self.nodes = sort_by_rank(taken);
        let ghost sorted = self.nodes@;
        proof {
            lemma_sorted_ends(marked, sorted);
        }
        let last = self.nodes.len() - 1;
        let min_prime = self.nodes[0].prime_rank;
        let max_prime = self.nodes[last].prime_rank;

        // A first node that is not least in obverse rank gets a source before it; a last node whose
        // prime rank is not the greatest obverse rank gets a sink after it.
        self.imputed_source = self.imputed_source || self.nodes[0].obverse_rank != min_obverse;
        self.imputed_sink = self.imputed_sink || self.nodes[last].prime_rank != max_obverse;

        proof {
            assert(min_obverse == seq_min(obverse_ranks(input)));
            assert(max_obverse == seq_max(obverse_ranks(input)));
            assert(min_prime == seq_min(prime_ranks(input)));
            assert(max_prime == seq_max(prime_ranks(input)));
            assert(self.imputed_source == (old(self).imputed_source || !has_natural_source(input)));
            assert(self.imputed_sink == (old(self).imputed_sink || !top_ranks_agree(input)));
        }
        if self.imputed_source {
            self.nodes.insert(
                0,
                DominanceNode {
                    prime_rank: min_prime - 1,
                    obverse_rank: min_obverse - 1,
                    import_index: SOURCE_IMPORT_PSEUDO_INDEX,
                    parents: Vec::new(),
                    children: Vec::new(),
                },
            );
            proof {
                assert(self.nodes@.subrange(1, 1 + node_count) =~= sorted);
            }
        } else {
            proof {
                assert(self.nodes@.subrange(0, node_count as int) =~= sorted);
            }
        }
        let ghost before_sink = self.nodes@;
        if self.imputed_sink {
            self.nodes.push(
                DominanceNode {
                    prime_rank: max_prime + 1,
                    obverse_rank: max_obverse + 1,
                    import_index: SINK_IMPORT_PSEUDO_INDEX,
                    parents: Vec::new(),
                    children: Vec::new(),
                },
            );
            proof {
                let start: int = if self.imputed_source {
                    1
                } else {
                    0
                };
                assert(self.nodes@.subrange(start, start + node_count) =~= before_sink.subrange(
                    start,
                    start + node_count,
                ));
            }
        }
        self.source_index = 0;
        self.sink_index = self.nodes.len() - 1;

        // Coincident nodes could be reported as an error here.
        Ok(())
    }

    /// The children lists of a forward scan over the merge steps: for each
    /// parent in the lower block, the upper block is scanned upwards, keeping
    /// the latest (and least) child rank so far, if there is a child yet.
    fn scan_children_forward(&self) -> (children: Vec<Vec<IndexType>>)
        requires
            2 <= self.nodes@.len() < usize::MAX,
        ensures
            children@.len() == self.nodes@.len(),
            forall|i: int|
                0 <= i < children@.len() ==> (#[trigger] children@[i])@ == links_down(
                    cover_link(obverse_ranks(self.nodes@)),
                    i,
                    self.nodes@.len() as int,
                ),
    {
        let node_count = self.nodes.len();
        let ghost ranks = obverse_ranks(self.nodes@);
        let ghost link = cover_link(ranks);
        let mut scratch_children = empty_lists(node_count);
        let mut iter = MinusPlusShift::new(node_count);
        loop
            invariant
                iter.wf(),
                iter.spec_size() == node_count,
                node_count == self.nodes@.len(),
                2 <= node_count < usize::MAX,
                ranks == obverse_ranks(self.nodes@),
                link == cover_link(ranks),
                scratch_children@.len() == node_count,
                forall|i: int|
                    0 <= i < node_count ==> (#[trigger] scratch_children@[i])@ == links_down(
                        link,
                        i,
                        iter.block_of(i).1,
                    ),
            ensures
                scratch_children@.len() == node_count,
                forall|i: int|
                    0 <= i < node_count ==> (#[trigger] scratch_children@[i])@ == links_down(
                        link,
                        i,
                        node_count as int,
                    ),
            decreases iter.remaining(),
        {
            let ghost before = iter;
            let step = match iter.next() {
                Some(step) => step,
                None => {
                    break ;
                },
            };
            let lower = step.lower;
            let middle = step.middle;
            let upper = step.upper;
            let mut p = lower;
            while p < middle
                invariant
                    lower <= p <= middle < upper <= node_count,
                    node_count == self.nodes@.len(),
                    node_count < usize::MAX,
                    ranks == obverse_ranks(self.nodes@),
                    link == cover_link(ranks),
                    scratch_children@.len() == node_count,
                    forall|x: int|
                        lower <= x < middle ==> #[trigger] before.block_of(x) == (
                            lower as int,
                            middle as int,
                        ),
                    forall|i: int|
                        0 <= i < node_count ==> (#[trigger] scratch_children@[i])@ == links_down(
                            link,
                            i,
                            if lower <= i < p {
                                upper as int
                            } else {
                                before.block_of(i).1
                            },
                        ),
                decreases middle - p,
            {
                assert(before.block_of(p as int) == (lower as int, middle as int));
                proof {
                    lemma_links_down(link, p as int, middle as int);
                }
                let parent_obverse = self.nodes[p].obverse_rank;
                // The rank of the latest child so far, if there is one.
                let mut min_child_obverse: Option<RankType> = if scratch_children[p].len() == 0 {
                    None
                } else {
                    let last = scratch_children[p][scratch_children[p].len() - 1];
                    Some(self.nodes[last].obverse_rank)
                };
                let mut c = middle;
                while c < upper
                    invariant
                        lower <= p < middle <= c <= upper <= node_count,
                        node_count == self.nodes@.len(),
                        node_count < usize::MAX,
                        ranks == obverse_ranks(self.nodes@),
                        link == cover_link(ranks),
                        parent_obverse == ranks[p as int],
                        scratch_children@.len() == node_count,
                        scratch_children@[p as int]@ == links_down(link, p as int, c as int),
                        min_child_obverse == (if links_down(link, p as int, c as int).len() == 0 {
                            None
                        } else {
                            Some(ranks[links_down(link, p as int, c as int).last() as int])
                        }),
                        forall|i: int|
                            0 <= i < node_count && i != p ==> (#[trigger] scratch_children@[i])@
                                == links_down(
                                link,
                                i,
                                if lower <= i < p {
                                    upper as int
                                } else {
                                    before.block_of(i).1
                                },
                            ),
                    decreases upper - c,
                {
                    let child_obverse = self.nodes[c].obverse_rank;
                    proof {
                        lemma_child_scan(ranks, p as int, c as int);
                    }
                    let below_latest = match min_child_obverse {
                        None => true,
                        Some(least) => child_obverse < least,
                    };
                    if (child_obverse >= parent_obverse) && below_latest {
                        min_child_obverse = Some(child_obverse);
                        scratch_children[p].push(c);
                    }
                    c += 1;
                }
                p += 1;
            }
        }
        scratch_children
    }

    /// The parent lists of a backward scan over the merge steps: for each
    /// child in the upper block, the lower block is scanned downwards, keeping
    /// the latest (and greatest) parent rank so far, if there is a parent yet.
    fn scan_parents_backward(&self) -> (parents: Vec<Vec<IndexType>>)
        requires
            2 <= self.nodes@.len() < usize::MAX,
        ensures
            parents@.len() == self.nodes@.len(),
            forall|i: int|
                0 <= i < parents@.len() ==> (#[trigger] parents@[i])@ == links_up(
                    cover_link(obverse_ranks(self.nodes@)),
                    i,
                    0,
                ),
    {
        let node_count = self.nodes.len();
        let ghost ranks = obverse_ranks(self.nodes@);
        let ghost link = cover_link(ranks);
        let mut scratch_parents = empty_lists(node_count);
        let mut iter = MinusPlusShift::new(node_count);
        loop
            invariant
                iter.wf(),
                iter.spec_size() == node_count,
                node_count == self.nodes@.len(),
                2 <= node_count < usize::MAX,
                ranks == obverse_ranks(self.nodes@),
                link == cover_link(ranks),
                scratch_parents@.len() == node_count,
                forall|i: int|
                    0 <= i < node_count ==> (#[trigger] scratch_parents@[i])@ == links_up(
                        link,
                        i,
                        iter.block_of(i).0,
                    ),
            ensures
                scratch_parents@.len() == node_count,
                forall|i: int|
                    0 <= i < node_count ==> (#[trigger] scratch_parents@[i])@ == links_up(
                        link,
                        i,
                        0,
                    ),
            decreases iter.remaining(),
        {
            let ghost before = iter;
            let step = match iter.next() {
                Some(step) => step,
                None => {
                    break ;
                },
            };
            let lower = step.lower;
            let middle = step.middle;
            let upper = step.upper;
            let mut c = upper;
            while c > middle
                invariant
                    lower < middle <= c <= upper <= node_count,
                    node_count == self.nodes@.len(),
                    node_count < usize::MAX,
                    ranks == obverse_ranks(self.nodes@),
                    link == cover_link(ranks),
                    scratch_parents@.len() == node_count,
                    forall|x: int|
                        middle <= x < upper ==> #[trigger] before.block_of(x) == (
                            middle as int,
                            upper as int,
                        ),
                    forall|i: int|
                        0 <= i < node_count ==> (#[trigger] scratch_parents@[i])@ == links_up(
                            link,
                            i,
                            if c <= i < upper {
                                lower as int
                            } else {
                                before.block_of(i).0
                            },
                        ),
                decreases c,
            {
                c -= 1;
                assert(before.block_of(c as int) == (middle as int, upper as int));
                proof {
                    lemma_links_up(link, c as int, middle as int);
                }
                let child_obverse = self.nodes[c].obverse_rank;
                // The rank of the latest parent so far, if there is one.
                let mut max_parent_obverse: Option<RankType> = if scratch_parents[c].len() == 0 {
                    None
                } else {
                    let last = scratch_parents[c][scratch_parents[c].len() - 1];
                    Some(self.nodes[last].obverse_rank)
                };
                let mut p = middle;
                while p > lower
                    invariant
                        lower <= p <= middle <= c < upper <= node_count,
                        node_count == self.nodes@.len(),
                        node_count < usize::MAX,
                        ranks == obverse_ranks(self.nodes@),
                        link == cover_link(ranks),
                        child_obverse == ranks[c as int],
                        scratch_parents@.len() == node_count,
                        scratch_parents@[c as int]@ == links_up(link, c as int, p as int),
                        max_parent_obverse == (if links_up(link, c as int, p as int).len() == 0 {
                            None
                        } else {
                            Some(ranks[links_up(link, c as int, p as int).last() as int])
                        }),
                        forall|i: int|
                            0 <= i < node_count && i != c ==> (#[trigger] scratch_parents@[i])@
                                == links_up(
                                link,
                                i,
                                if c < i < upper {
                                    lower as int
                                } else {
                                    before.block_of(i).0
                                },
                            ),
                    decreases p,
                {
                    p -= 1;
                    let parent_obverse = self.nodes[p].obverse_rank;
                    proof {
                        lemma_parent_scan(ranks, p as int, c as int);
                    }
                    let above_latest = match max_parent_obverse {
                        None => true,
                        Some(greatest) => parent_obverse > greatest,
                    };
                    if (parent_obverse <= child_obverse) && above_latest {
                        max_parent_obverse = Some(parent_obverse);
                        scratch_parents[c].push(p);
                    }
                }
            }
        }
        scratch_parents
    }

    /// Replaces every node's parents and children with the given lists.
    fn install_links(
        &mut self,
        parents: Vec<Vec<IndexType>>,
        children: Vec<Vec<IndexType>>,
        Ghost(link): Ghost<spec_fn(int, int) -> bool>,
    )
        requires
            parents@.len() == old(self).nodes@.len(),
            children@.len() == old(self).nodes@.len(),
            forall|i: int|
                0 <= i < children@.len() ==> (#[trigger] children@[i])@ == links_down(
                    link,
                    i,
                    children@.len() as int,
                ),
            forall|i: int|
                0 <= i < parents@.len() ==> (#[trigger] parents@[i])@ == links_up(link, i, 0),
        ensures
            links_installed(final(self).nodes@, old(self).nodes@, link),
            final(self).source_index == old(self).source_index,
            final(self).sink_index == old(self).sink_index,
            final(self).imputed_source == old(self).imputed_source,
            final(self).imputed_sink == old(self).imputed_sink,
    {
        let ghost before = self.nodes@;
        let ghost all_parents = parents@;
        let ghost all_children = children@;
        let node_count = self.nodes.len();
        let mut parents = parents;
        let mut children = children;
        let mut i = node_count;
        while i > 0
            invariant
                i <= node_count,
                node_count == before.len(),
                self.nodes@.len() == node_count,
                parents@ == all_parents.subrange(0, i as int),
                children@ == all_children.subrange(0, i as int),
                all_parents.len() == node_count,
                all_children.len() == node_count,
                self.source_index == old(self).source_index,
                self.sink_index == old(self).sink_index,
                self.imputed_source == old(self).imputed_source,
                self.imputed_sink == old(self).imputed_sink,
                forall|k: int|
                    0 <= k < node_count ==> {
                        &&& (#[trigger] self.nodes@[k]).prime_rank == before[k].prime_rank
                        &&& self.nodes@[k].obverse_rank == before[k].obverse_rank
                        &&& self.nodes@[k].import_index == before[k].import_index
                        &&& i <= k ==> self.nodes@[k].children@ == all_children[k]@
                        &&& i <= k ==> self.nodes@[k].parents@ == all_parents[k]@
                    },
            decreases i,
        {
            i -= 1;
            self.nodes[i].parents = parents.pop().unwrap();
            self.nodes[i].children = children.pop().unwrap();
        }
    }

    /// Applies the order-dimension-2 properties to construct the graph's edges:
    /// each node's children become the nodes it covers, in increasing index,
    /// and its parents the nodes that cover it, in decreasing index.  The
    /// edges are found twice over the merge steps: by a forward scan, and by
    /// the block merge, whose lists
    /// are checked against the scan's.  The block merge's lists are installed
    /// when they agree; the scan's are installed where the block merge gave up
    /// or disagreed, so the edges are the scan's either way.
    ///
    /// It needs at least two nodes.
    pub fn connect_graph(&mut self) -> (r: Result<(), &'static str>)
        requires
            2 <= old(self).nodes@.len() < usize::MAX,
        ensures
            r is Ok,
            links_installed(
                final(self).nodes@,
                old(self).nodes@,
                cover_link(obverse_ranks(old(self).nodes@)),
            ),
            final(self).source_index == old(self).source_index,
            final(self).sink_index == old(self).sink_index,
            final(self).imputed_source == old(self).imputed_source,
            final(self).imputed_sink == old(self).imputed_sink,
    {
        let ghost link = cover_link(obverse_ranks(self.nodes@));
        let scratch_children = self.scan_children_forward();
        let scratch_parents = parents_from_children(&scratch_children, Ghost(link));
        match self.block_merge_links() {
            Some((accum_parents, accum_children)) => {
                if same_lists(&accum_children, &scratch_children) && same_lists(
                    &accum_parents,
                    &scratch_parents,
                ) {
                    self.install_links(accum_parents, accum_children, Ghost(link));
                } else {
                    self.install_links(scratch_parents, scratch_children, Ghost(link));
                }
            },
            None => {
                self.install_links(scratch_parents, scratch_children, Ghost(link));
            },
        }
        Ok(())
    }

    /// Constructs the graph's edges as `connect_graph` does, by the same
    /// forward scan over the merge steps.
    ///
    /// It needs at least two nodes.
    pub fn reference_forewards_connect_graph(&mut self) -> (r: Result<(), &'static str>)
        requires
            2 <= old(self).nodes@.len() < usize::MAX,
        ensures
            r is Ok,
            links_installed(
                final(self).nodes@,
                old(self).nodes@,
                cover_link(obverse_ranks(old(self).nodes@)),
            ),
            final(self).source_index == old(self).source_index,
            final(self).sink_index == old(self).sink_index,
            final(self).imputed_source == old(self).imputed_source,
            final(self).imputed_sink == old(self).imputed_sink,
    {
        let ghost link = cover_link(obverse_ranks(self.nodes@));
        let scratch_children = self.scan_children_forward();
        let scratch_parents = parents_from_children(&scratch_children, Ghost(link));
        self.install_links(scratch_parents, scratch_children, Ghost(link));
        Ok(())
    }

    /// Constructs the graph's edges by a backward scan over the merge steps,
    /// which looks for parents: each node's parents become the nodes that cover it, in decreasing index,
    /// and its children the nodes it covers, in increasing index.
    ///
    /// It needs at least two nodes.
    pub fn reference_backwards_connect_graph(&mut self) -> (r: Result<(), &'static str>)
        requires
            2 <= old(self).nodes@.len() < usize::MAX,
        ensures
            r is Ok,
            links_installed(
                final(self).nodes@,
                old(self).nodes@,
                cover_link(obverse_ranks(old(self).nodes@)),
            ),
            final(self).source_index == old(self).source_index,
            final(self).sink_index == old(self).sink_index,
            final(self).imputed_source == old(self).imputed_source,
            final(self).imputed_sink == old(self).imputed_sink,
    {
        let ghost link = cover_link(obverse_ranks(self.nodes@));
        let scratch_parents = self.scan_parents_backward();
        let scratch_children = children_from_parents(&scratch_parents, Ghost(link));
        self.install_links(scratch_parents, scratch_children, Ghost(link));
        Ok(())
    }
}

} // verus!
