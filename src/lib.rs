//! Maximum-cardinality matching in bipartite graphs by the Hopcroft–Karp method.
pub mod layers;
pub mod matcher;
pub mod matching;
pub mod search;

pub use matcher::{HopcroftKarp, MatchError};
