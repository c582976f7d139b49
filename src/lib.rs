//! A small in-memory key-value server core: a length-prefixed frame codec,
//! a command model over frames, a key-value store, and the per-connection
//! serving logic that ties them together.
pub mod codec;
pub mod command;
pub mod connection;
pub mod frame;
pub mod store;
