pub mod graph;
pub mod layouting;
pub mod text;
