pub mod keys;
pub mod vecmap;
pub mod arena;
pub mod graph;
pub mod iters;
pub mod traits;
