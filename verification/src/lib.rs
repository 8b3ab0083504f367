//! Size-ranked directory trees: the scan engine that builds them, the progress
//! it streams, and the session that receives what it produces.

pub mod chart;
pub mod disk;
pub mod node;
pub mod order;
pub mod progress;
pub mod session;
pub mod survey;
pub mod tree;
pub mod walk;
pub mod walk_proofs;
pub mod walker;
