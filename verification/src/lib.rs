//! Compiles a tree of game-data definitions into registry and tag packets.
//!
//! The crate is a pure library: callers hand it relative paths and file
//! contents as plain values and receive the encoded packet bodies back.

pub mod json;
pub mod names;
pub mod paths;
pub mod registry;
pub mod tags;
pub mod wire;
