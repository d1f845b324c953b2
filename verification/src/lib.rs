//! Exact scoring and combinatorics for throws of six (possibly weighted) dice,
//! in the rules of the medieval dice game played in Kingdom Come: Deliverance II.

pub mod scoring;
pub mod bust_states;
pub mod text;
pub mod histogram;
pub mod dice;
pub mod search;
pub mod straights;
pub mod render;
pub mod weights;
