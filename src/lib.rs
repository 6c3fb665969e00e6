//! A Merkle-style digest of a file-system subtree.
//!
//! A file's digest is the BLAKE3 hash of its path bytes followed by its
//! content; a directory's digest is the BLAKE3 hash of its path bytes followed
//! by its children's digests, the children taken in byte-wise order of path.
pub mod digest;
pub mod order;
pub mod node;
pub mod tree;
pub mod laws;
pub mod walk;
