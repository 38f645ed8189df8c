# zebraix

Dominance graphs of two-dimensional rank orders, with machine-checked
contracts, and the plain choices that describe how diagrams are drawn.

Each node has a prime rank and an obverse rank.  Once the nodes are fleshed
out (marked with their input positions, sorted by rank, and given a source and
a sink where needed), `connect_graph` links every node to the nodes that cover
it in the order "no later in both ranks": the Hasse diagram of that order.
The links are found by scanning the blocks of a bottom-up merge, in the order
that `MinusPlusShift` yields its merge steps, and a second time by a block
merge that keeps each block's nodes chained in obverse order; the second
result is checked against the first.

Layout:

- `src/dominance/conquer_iterator.rs`: the merge-step traversal.
- `src/dominance/dominance_graph.rs`: nodes, graphs, fleshing out and connecting.
- `src/dominance/block_merge.rs`: the block merge and its sorted chains.
- `src/dominance/links.rs`: the covering relation and the link lists it defines.
- `src/dominance/rank_order.rs`: rank order and the sort into it.
- `src/dominance/binary.rs`: powers of two and lowest set bits.
- `src/dominance/laws.rs`: properties that span the graph functions.
- `src/choices.rs`, `src/layout.rs`, `src/curves.rs`: drawing, layout and curve choices.
- `src/draw_order.rs`: the order in which drawables are rendered (a stable sort by layer).
- `src/base.rs`: `is_default`.
- `src/golden_text.rs`: text filters for output compared with stored copies.
- `app/lib.rs`: JSON forms of graph nodes.
- `app/diagram.rs`: diagrams, drawn with floating-point geometry through cairo
  and pango, sample curves, and golden-file checks.
- `app/reduced_json.rs`: JSON with floating-point values at reduced precision.
- `tests/`: scenario tests, including comparisons with a direct quadratic construction.
