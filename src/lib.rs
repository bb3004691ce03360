//! Aliasing-control primitives: a token that owns every cell of its brand and
//! hands out shared or exclusive access to them, and a doubly-linked list built
//! on top of it.

pub mod token;
pub mod dlist;
pub mod deque;
pub mod list_wrapper;
pub mod client;
pub mod ownership;
