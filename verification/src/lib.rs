//! Incremental directory accounting engine.
//!
//! The library maintains an in-memory index of files and directories that it
//! has observed, keyed by a 64-bit digest of each canonical absolute path,
//! together with aggregate statistics (byte size, recursive file count,
//! recursive directory count) for every indexed directory.  The filesystem
//! itself is handed in as an explicit snapshot value ([`fs::Fs`]), so every
//! decision the engine makes is a function of plain values.

pub mod action;
pub mod codec;
pub mod digest;
pub mod errors;
pub mod fs;
pub mod laws;
pub mod manager;
pub mod node;
pub mod paths;
pub mod serialize;
pub mod strutil;
pub mod table;
