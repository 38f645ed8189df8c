//! Zebraix: dominance graphs of two-dimensional rank orders, and the plain
//! choices that describe how diagrams are drawn.

pub mod base;
pub mod choices;
pub mod curves;
pub mod dominance;
pub mod draw_order;
pub mod layout;
pub mod golden_text;
