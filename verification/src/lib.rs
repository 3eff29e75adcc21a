//! Result-representation and navigation layer of a parsing-expression-grammar
//! engine: a flat, bracket-matched token queue encodes a parse tree, and the
//! iterator types here walk it as nested pairs, flattened preorder pairs, or
//! location-decorated pairs, with lazy line/column lookup over a shared line
//! index.

pub mod flat_pairs;
pub mod laws;
pub mod line_index;
pub mod locate_pairs;
pub mod pair;
pub mod pairs;
pub mod queueable_token;
