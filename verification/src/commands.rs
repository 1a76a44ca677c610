//! What each command computes, apart from reading and writing files.

pub mod cat_file;
pub mod commit_tree;
pub mod hash_object;
pub mod ls_tree;
pub mod write_tree;
