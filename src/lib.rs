//! In-memory stores behind three small HTML services: two fixed read-only
//! lists (posts and foods) and a mutable to-do list.
pub mod catalog;
pub mod todo;
