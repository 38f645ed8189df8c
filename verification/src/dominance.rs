//! Dominance graphs: nodes ranked in two orders (prime and obverse), connected
//! by the covering relation of the product order.

pub mod binary;
pub mod conquer_iterator;
pub mod links;
pub mod block_merge;
pub mod dominance_graph;
pub mod rank_order;
pub mod laws;
