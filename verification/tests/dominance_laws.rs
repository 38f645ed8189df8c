//! Tests of the properties that relate the graph-building functions.

use zebraix::dominance::dominance_graph::{
   DominanceGraph, DominanceNode, RankType, SINK_IMPORT_PSEUDO_INDEX, SOURCE_IMPORT_PSEUDO_INDEX,
};

fn connected(pairs: &[(RankType, RankType)]) -> DominanceGraph {
   let mut graph = DominanceGraph::new_from_pairs(pairs, false, false);
   assert!(graph.connect_graph().is_ok());
   graph
}

fn links(graph: &DominanceGraph) -> Vec<(Vec<usize>, Vec<usize>)> {
   graph.nodes.iter().map(|n| (n.children.clone(), n.parents.clone())).collect()
}

fn permutations(n: i32) -> Vec<Vec<i32>> {
   if n == 0 {
      return vec![vec![]];
   }
   let mut out = Vec::new();
   for smaller in permutations(n - 1) {
      for k in 0..=smaller.len() {
         let mut p = smaller.clone();
         p.insert(k, n - 1);
         out.push(p);
      }
   }
   out
}

fn reachable(graph: &DominanceGraph, from: usize) -> Vec<bool> {
   let mut seen = vec![false; graph.nodes.len()];
   let mut stack = vec![from];
   while let Some(i) = stack.pop() {
      if !seen[i] {
         seen[i] = true;
         stack.extend(graph.nodes[i].children.iter().copied());
      }
   }
   seen
}

#[test]
fn new_from_pairs_keeps_pairs_in_order() {
   let graph = DominanceGraph::new_from_pairs(&[(3, 1), (1, 2)], false, true);
   assert_eq!(graph.nodes.len(), 2);
   assert_eq!((graph.nodes[0].prime_rank, graph.nodes[0].obverse_rank), (3, 1));
   assert_eq!((graph.nodes[1].prime_rank, graph.nodes[1].obverse_rank), (1, 2));
   assert_eq!(graph.nodes[0].import_index, usize::MAX);
   assert!(graph.nodes[1].children.is_empty() && graph.nodes[1].parents.is_empty());
   assert!(!graph.imputed_source);
   assert!(graph.imputed_sink);
   assert_eq!((graph.source_index, graph.sink_index), (0, 0));
}

#[test]
fn node_and_graph_defaults() {
   let node = DominanceNode::default();
   assert_eq!(node.prime_rank, i32::MIN);
   assert_eq!(node.obverse_rank, i32::MIN);
   assert_eq!(node.import_index, usize::MAX);
   assert!(DominanceNode::is_default_index(&DominanceNode::default_index()));
   assert!(!DominanceNode::is_default_index(&3));
   assert!(DominanceNode::is_default_rank(&DominanceNode::default_rank()));
   assert!(!DominanceNode::is_default_rank(&0));
   let graph = DominanceGraph::default();
   assert!(graph.imputed_source && graph.imputed_sink);
   assert!(graph.nodes.is_empty());
   assert_eq!(SINK_IMPORT_PSEUDO_INDEX, usize::MAX - 1);
   assert_eq!(SOURCE_IMPORT_PSEUDO_INDEX, usize::MAX - 2);
}

#[test]
fn flesh_out_sorts_marks_and_imputes() {
   let mut graph = DominanceGraph::new_from_pairs(&[(2, 1), (0, 3), (1, 5)], false, false);
   assert!(graph.flesh_out_graph_nodes().is_ok());
   // No node is least in both ranks, nor greatest in both: both ends are imputed.
   assert!(graph.imputed_source && graph.imputed_sink);
   let ranks: Vec<(i32, i32, usize)> =
      graph.nodes.iter().map(|n| (n.prime_rank, n.obverse_rank, n.import_index)).collect();
   assert_eq!(
      ranks,
      vec![
         (-1, 0, SOURCE_IMPORT_PSEUDO_INDEX),
         (0, 3, 1),
         (1, 5, 2),
         (2, 1, 0),
         (3, 6, SINK_IMPORT_PSEUDO_INDEX),
      ]
   );
   assert_eq!((graph.source_index, graph.sink_index), (0, 4));
}

#[test]
fn flesh_out_keeps_natural_ends() {
   let mut graph = DominanceGraph::new_from_pairs(&[(4, 4), (0, 0), (2, 2)], false, false);
   assert!(graph.flesh_out_graph_nodes().is_ok());
   assert!(!graph.imputed_source && !graph.imputed_sink);
   let primes: Vec<i32> = graph.nodes.iter().map(|n| n.prime_rank).collect();
   assert_eq!(primes, vec![0, 2, 4]);
   assert_eq!((graph.source_index, graph.sink_index), (0, 2));
}

#[test]
fn flesh_out_imputes_when_asked() {
   let mut graph = DominanceGraph::new_from_pairs(&[(0, 0), (1, 1)], true, false);
   assert!(graph.flesh_out_graph_nodes().is_ok());
   assert!(graph.imputed_source && !graph.imputed_sink);
   assert_eq!(graph.nodes.len(), 3);
   assert_eq!((graph.nodes[0].prime_rank, graph.nodes[0].obverse_rank), (-1, -1));
}

#[test]
fn flesh_out_sink_follows_the_greatest_ranks() {
   // The greatest prime rank (4) is the greatest obverse rank: no sink is imputed, though the
   // last node (4, 3) is not greatest in obverse rank.
   let mut graph =
      DominanceGraph::new_from_pairs(&[(0, 0), (1, 1), (2, 2), (3, 4), (4, 3)], false, false);
   assert!(graph.flesh_out_graph_nodes().is_ok());
   assert!(!graph.imputed_source && !graph.imputed_sink);
   assert_eq!(graph.nodes.len(), 5);
   assert_eq!(graph.sink_index, 4);

   // The greatest prime rank (4) differs from the greatest obverse rank (9): a sink is imputed.
   let mut graph = DominanceGraph::new_from_pairs(&[(0, 0), (4, 4), (2, 9)], false, false);
   assert!(graph.flesh_out_graph_nodes().is_ok());
   assert!(!graph.imputed_source && graph.imputed_sink);
   let last = &graph.nodes[graph.nodes.len() - 1];
   assert_eq!((last.prime_rank, last.obverse_rank), (5, 10));
}

#[test]
fn fleshed_out_graph_has_source_and_sink() {
   for obverse in permutations(5) {
      let pairs: Vec<(i32, i32)> = (0..5).zip(obverse).collect();
      let mut graph = DominanceGraph::new_from_pairs(&pairs, false, false);
      assert!(graph.flesh_out_graph_nodes().is_ok());
      // Without an imputed sink, the last node is the sink only where some node is greatest in
      // both ranks.
      let natural_sink = pairs.contains(&(4, 4));
      let first = &graph.nodes[0];
      let last = &graph.nodes[graph.nodes.len() - 1];
      for node in &graph.nodes {
         assert!(first.prime_rank <= node.prime_rank && first.obverse_rank <= node.obverse_rank);
         if graph.imputed_sink || natural_sink {
            assert!(last.prime_rank >= node.prime_rank && last.obverse_rank >= node.obverse_rank);
         }
      }
   }
}

#[test]
fn scans_agree_on_all_small_orders() {
   for obverse in permutations(6) {
      let pairs: Vec<(i32, i32)> = (0..6).zip(obverse).collect();
      let forward = connected(&pairs);
      let mut foreward_reference = DominanceGraph::new_from_pairs(&pairs, false, false);
      assert!(foreward_reference.reference_forewards_connect_graph().is_ok());
      let mut backward_reference = DominanceGraph::new_from_pairs(&pairs, false, false);
      assert!(backward_reference.reference_backwards_connect_graph().is_ok());
      assert_eq!(forward, foreward_reference);
      assert_eq!(forward, backward_reference);
   }
}

#[test]
fn children_mirror_parents() {
   let graph = connected(&[(0, 3), (1, 0), (2, 4), (3, 1), (4, 2), (5, 5)]);
   for (p, node) in graph.nodes.iter().enumerate() {
      assert!(node.children.windows(2).all(|w| w[0] < w[1]));
      assert!(node.parents.windows(2).all(|w| w[0] > w[1]));
      for &c in &node.children {
         assert!(graph.nodes[c].parents.contains(&p));
      }
      for &q in &node.parents {
         assert!(graph.nodes[q].children.contains(&p));
      }
   }
}

#[test]
fn links_reach_exactly_the_dominated_nodes() {
   for obverse in permutations(5) {
      let pairs: Vec<(i32, i32)> = (0..5).zip(obverse.clone()).collect();
      let graph = connected(&pairs);
      for p in 0..5 {
         let seen = reachable(&graph, p);
         for c in 0..5 {
            assert_eq!(seen[c], p <= c && obverse[p] <= obverse[c]);
         }
      }
   }
}

fn all_connectors(pairs: &[(RankType, RankType)]) -> [DominanceGraph; 3] {
   let mut a = DominanceGraph::new_from_pairs(pairs, false, false);
   let mut b = DominanceGraph::new_from_pairs(pairs, false, false);
   let mut c = DominanceGraph::new_from_pairs(pairs, false, false);
   assert!(a.connect_graph().is_ok());
   assert!(b.reference_forewards_connect_graph().is_ok());
   assert!(c.reference_backwards_connect_graph().is_ok());
   [a, b, c]
}

#[test]
fn child_of_greatest_rank_is_linked() {
   for graph in all_connectors(&[(0, 0), (1, i32::MAX)]) {
      assert_eq!(graph.nodes[0].children, vec![1]);
      assert_eq!(graph.nodes[1].parents, vec![0]);
   }
}

#[test]
fn parent_of_least_rank_is_linked() {
   for graph in all_connectors(&[(0, i32::MIN), (1, 0)]) {
      assert_eq!(graph.nodes[0].children, vec![1]);
      assert_eq!(graph.nodes[1].parents, vec![0]);
   }
}

#[test]
fn extreme_ranks_give_the_covering_pairs() {
   let pairs = [(0, i32::MIN), (1, i32::MAX), (2, i32::MIN), (3, 0), (4, i32::MAX), (5, i32::MIN)];
   let [a, b, c] = all_connectors(&pairs);
   assert_eq!(a, b);
   assert_eq!(a, c);
   assert_eq!(links(&a), {
      let mut expected = Vec::new();
      for p in 0..pairs.len() {
         let mut kids = Vec::new();
         for q in p + 1..pairs.len() {
            let (rp, rq) = (pairs[p].1, pairs[q].1);
            if rp <= rq && !(p + 1..q).any(|d| rp <= pairs[d].1 && pairs[d].1 <= rq) {
               kids.push(q);
            }
         }
         expected.push(kids);
      }
      let mut ups = vec![Vec::new(); pairs.len()];
      for p in (0..pairs.len()).rev() {
         for &q in &expected[p] {
            ups[q].push(p);
         }
      }
      expected.into_iter().zip(ups).collect::<Vec<_>>()
   });
}

#[test]
fn equal_obverse_ranks_link_only_the_nearest() {
   let graph = connected(&[(0, 1), (1, 1), (2, 1)]);
   assert_eq!(graph.nodes[0].children, vec![1]);
   assert_eq!(graph.nodes[1].children, vec![2]);
   assert_eq!(graph.nodes[2].parents, vec![1]);
}

#[test]
fn connect_keeps_ranks_and_indices() {
   let mut graph = DominanceGraph::new_from_pairs(&[(0, 2), (1, 0), (2, 1)], true, false);
   assert!(graph.flesh_out_graph_nodes().is_ok());
   let before: Vec<(i32, i32, usize)> =
      graph.nodes.iter().map(|n| (n.prime_rank, n.obverse_rank, n.import_index)).collect();
   assert!(graph.connect_graph().is_ok());
   let after: Vec<(i32, i32, usize)> =
      graph.nodes.iter().map(|n| (n.prime_rank, n.obverse_rank, n.import_index)).collect();
   assert_eq!(before, after);
   assert!(graph.imputed_source);
   assert_eq!(links(&graph)[0].0, vec![1, 2]);
}

#[test]
fn connection_is_rotation_symmetric() {
   for obverse in permutations(5) {
      let pairs: Vec<(i32, i32)> = (0..5).zip(obverse.clone()).collect();
      let turned_pairs: Vec<(i32, i32)> =
         (0..5).map(|i| (i as i32, -obverse[4 - i as usize])).collect();
      let graph = connected(&pairs);
      let turned = connected(&turned_pairs);
      for i in 0..5 {
         let turn = |v: &Vec<usize>| v.iter().map(|x| 4 - x).collect::<Vec<usize>>();
         assert_eq!(turned.nodes[4 - i].children, turn(&graph.nodes[i].parents));
         assert_eq!(turned.nodes[4 - i].parents, turn(&graph.nodes[i].children));
      }
   }
}

#[test]
fn natural_ends_allow_extreme_ranks() {
   let mut graph =
      DominanceGraph::new_from_pairs(&[(i32::MAX, i32::MAX), (i32::MIN, i32::MIN)], false, false);
   assert!(graph.flesh_out_graph_nodes().is_ok());
   assert!(!graph.imputed_source && !graph.imputed_sink);
   assert_eq!(graph.nodes[0].prime_rank, i32::MIN);
   assert_eq!(graph.nodes[1].import_index, 0);
}
