//! Structures of the game's `CS` namespace.

pub mod file;
pub mod msg;
pub mod remo;
