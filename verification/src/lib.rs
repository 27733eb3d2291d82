//! A small content-addressed version store in the style of Git: object
//! framing and hashing, the binary index, tree and commit objects, refs,
//! and the history and status reports built on them.

pub mod clock;
pub mod codec;
pub mod digest;
pub mod storage;
pub mod index;
pub mod refs;
pub mod object;
pub mod tree;
pub mod listing;
pub mod tree_id;
pub mod commands;
