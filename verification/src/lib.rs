pub mod arena;
pub mod block;
pub mod builder;
pub mod concat;
pub mod infix;
pub mod laws;
pub mod nesting;
pub mod text;
