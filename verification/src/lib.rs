pub mod keyseq;
pub mod node;
mod rebalance;
pub mod tree;
