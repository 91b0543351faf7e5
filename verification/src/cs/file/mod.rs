//! Structures of the game's file loading.

pub mod tpf;
