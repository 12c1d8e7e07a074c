//! A directory-bookmarking library: an ordered store of named filesystem
//! paths, together with the encoding and decoding of its JSON config file.

pub mod cli;
pub mod config;
pub mod dirmark;
