pub mod key;
mod node;
pub mod rbtree;
pub mod iter;
pub mod laws;
pub mod metrics;
