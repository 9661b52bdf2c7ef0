//! The core of a small git client: SHA-1 hashing, zlib compression, the
//! index file, blob, tree and commit objects, the command line, wildcard
//! path patterns and the configuration format.
pub mod actions;
pub mod args;
pub mod cli;
pub mod glob;
pub mod indx;
pub mod objects;
pub mod os;
pub mod search;
pub mod sha1;
pub mod strmap;
pub mod text;
pub mod toml;
pub mod tree;
pub mod zlib;
