//! A fully persistent first-in-first-out queue whose every operation does a
//! bounded amount of work.
//!
//! Nodes live in a [`store::Store`], an append-mostly arena addressed by
//! integer handles; a [`rtqueue::Queue`] is three such handles and is freely
//! copyable. Operations take the store by `&mut`, return a new queue and leave
//! every queue made earlier valid, with the contents it had.

pub mod store;
pub mod rtqueue;
pub mod laws;
