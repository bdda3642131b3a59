//! A verified local version-control core: a content-addressed object store
//! (blobs, trees, commits), a binary staging index with an integrity checksum,
//! a tree builder that folds index entries into nested tree objects, and a
//! three-way status reconciler comparing commit, index and working tree.

pub mod add;
pub mod blob;
pub mod bytesio;
pub mod commands;
pub mod commit;
pub mod constants;
pub mod display;
pub mod error;
pub mod hashing;
pub mod index;
pub mod index_entry;
pub mod numbers;
pub mod paths;
pub mod object;
pub mod status;
pub mod store;
pub mod tree_builder;
pub mod tree;
