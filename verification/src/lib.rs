//! A content-addressable object store: immutable, compressed, hash-identified
//! objects (blobs, trees, commits) and the canonical encoding of directory trees.

pub mod commands;
pub mod decimal;
pub mod error;
pub mod hash;
pub mod object_laws;
pub mod objects;
pub mod store;
pub mod tree;
pub mod tree_order;
pub mod tree_sort;
pub mod zlib;
