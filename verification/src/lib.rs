//! A content-addressable store of loose objects: blobs, trees and commits,
//! their binary encoding, their hashes, and the store that keys them.

pub mod bytes;
pub mod cli_commands;
pub mod commands;
pub mod compressor;
pub mod error;
pub mod fs_utils;
pub mod git_object;
pub mod hasher;
pub mod text;
pub mod tree_walk;
pub mod work_tree;
