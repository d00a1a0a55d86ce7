pub mod fixed;
pub mod laws;
pub mod matrix;
pub mod retriever;
pub mod select;
pub mod stats;
pub mod tok;
