//! A hashed entry: the path it was reached by and its digest.
use vstd::prelude::*;
use crate::digest::{hex_encode, hex_lower};
use crate::order::NodeView;

verus! {

/// An entry of the tree once hashed.
#[derive(Debug)]
pub struct Node {
    /// The path string exactly as the traversal reached the entry.
    pub path: String,
    /// The entry's 256-bit digest.
    pub hash: [u8; 32],
}

impl View for Node {
    type V = NodeView;

    open spec fn view(&self) -> NodeView {
        (self.path@, self.hash@)
    }
}

impl Node {
    /// Pairs a path with its digest.
    pub fn new(path: String, hash: [u8; 32]) -> (r: Node)
        ensures
            r.path@ == path@,
            r.hash@ == hash@,
    {
        Node { path, hash }
    }

    /// The digest as 64 lowercase hexadecimal digits.
    pub fn digest_hex(&self) -> (r: String)
        ensures
            r@ == hex_lower(self.hash@),
            r@.len() == 64,
    {
        let r = hex_encode(self.hash.as_slice());
        proof {
            lemma_hex_lower_len(self.hash@);
        }
        r
    }
}

proof fn lemma_hex_lower_len(b: Seq<u8>)
    ensures
        hex_lower(b).len() == 2 * b.len(),
    decreases b.len(),
{
    if b.len() > 0 {
        lemma_hex_lower_len(b.drop_first());
    }
}

} // verus!
