//! Byte-wise ordering of paths and digests.
use vstd::prelude::*;
use std::cmp::Ordering;
use vstd::relations::total_ordering;
use vstd::utf8::{encode_utf8, encode_utf8_decode_utf8};

verus! {

/// Lexicographic comparison of two byte strings; a proper prefix comes first.
pub open spec fn bytes_cmp(a: Seq<u8>, b: Seq<u8>) -> Ordering
    decreases a.len(),
{
    if a.len() == 0 {
        if b.len() == 0 {
            Ordering::Equal
        } else {
            Ordering::Less
        }
    } else if b.len() == 0 {
        Ordering::Greater
    } else if a[0] < b[0] {
        Ordering::Less
    } else if a[0] > b[0] {
        Ordering::Greater
    } else {
        bytes_cmp(a.drop_first(), b.drop_first())
    }
}

/// Compares two byte strings lexicographically.
pub fn compare_bytes(a: &[u8], b: &[u8]) -> (r: Ordering)
    ensures
        r == bytes_cmp(a@, b@),
{
    let mut i: usize = 0;
    assert(a@.skip(0) =~= a@);
    assert(b@.skip(0) =~= b@);
    while i < a.len() && i < b.len()
        invariant
            i <= a@.len(),
            i <= b@.len(),
            bytes_cmp(a@, b@) == bytes_cmp(a@.skip(i as int), b@.skip(i as int)),
        decreases a@.len() - i,
    {
        if a[i] < b[i] {
            return Ordering::Less;
        } else if a[i] > b[i] {
            return Ordering::Greater;
        }
        assert(a@.skip(i as int).drop_first() =~= a@.skip(i + 1));
        assert(b@.skip(i as int).drop_first() =~= b@.skip(i + 1));
        i = i + 1;
    }
    if i < b.len() {
        Ordering::Less
    } else if i < a.len() {
        Ordering::Greater
    } else {
        Ordering::Equal
    }
}

/// Orders two path strings by plain byte-wise comparison of their UTF-8
/// encodings: no locale, no case folding, no numeric runs.
pub fn alphanum_sort(a: &str, b: &str) -> (r: Ordering)
    ensures
        r == bytes_cmp(encode_utf8(a@), encode_utf8(b@)),
{
    compare_bytes(a.as_bytes(), b.as_bytes())
}

/// The order with the two sides swapped.
pub open spec fn flip(o: Ordering) -> Ordering {
    match o {
        Ordering::Less => Ordering::Greater,
        Ordering::Equal => Ordering::Equal,
        Ordering::Greater => Ordering::Less,
    }
}

/// Byte strings compare equal exactly when they are equal, and swapping the
/// operands flips the result.
pub proof fn lemma_bytes_cmp_antisymmetric(a: Seq<u8>, b: Seq<u8>)
    ensures
        (bytes_cmp(a, b) == Ordering::Equal) == (a == b),
        bytes_cmp(b, a) == flip(bytes_cmp(a, b)),
    decreases a.len(),
{
    if a.len() > 0 && b.len() > 0 && a[0] == b[0] {
        lemma_bytes_cmp_antisymmetric(a.drop_first(), b.drop_first());
        if a.drop_first() == b.drop_first() {
            assert(a =~= seq![a[0]] + a.drop_first());
            assert(b =~= seq![b[0]] + b.drop_first());
        }
    } else if a.len() > 0 && b.len() > 0 {
        assert(a != b);
    } else if a.len() != b.len() {
        assert(a != b);
    } else {
        assert(a =~= b);
    }
}

/// Byte-wise order is transitive.
pub proof fn lemma_bytes_cmp_transitive(a: Seq<u8>, b: Seq<u8>, c: Seq<u8>)
    requires
        bytes_cmp(a, b) != Ordering::Greater,
        bytes_cmp(b, c) != Ordering::Greater,
    ensures
        bytes_cmp(a, c) != Ordering::Greater,
        bytes_cmp(a, b) == Ordering::Less || bytes_cmp(b, c) == Ordering::Less ==> bytes_cmp(a, c)
            == Ordering::Less,
    decreases a.len(),
{
    lemma_bytes_cmp_antisymmetric(a, b);
    lemma_bytes_cmp_antisymmetric(b, c);
    lemma_bytes_cmp_antisymmetric(a, c);
    if a.len() > 0 && b.len() > 0 && c.len() > 0 && a[0] == b[0] && b[0] == c[0] {
        lemma_bytes_cmp_transitive(a.drop_first(), b.drop_first(), c.drop_first());
    }
}

/// The model of a child of a directory: its path and its digest.
pub type NodeView = (Seq<char>, Seq<u8>);

/// The canonical order of children: by the UTF-8 bytes of the path; equal
/// paths, which one directory listing never holds, by the digest bytes.
pub open spec fn node_le(x: NodeView, y: NodeView) -> bool {
    let c = bytes_cmp(encode_utf8(x.0), encode_utf8(y.0));
    c == Ordering::Less || (c == Ordering::Equal && bytes_cmp(x.1, y.1) != Ordering::Greater)
}

/// `node_le` as a relation.
pub open spec fn node_order() -> spec_fn(NodeView, NodeView) -> bool {
    |x: NodeView, y: NodeView| node_le(x, y)
}

proof fn lemma_utf8_injective(p: Seq<char>, q: Seq<char>)
    requires
        encode_utf8(p) == encode_utf8(q),
    ensures
        p == q,
{
    encode_utf8_decode_utf8(p);
    encode_utf8_decode_utf8(q);
}

/// The canonical order of children is a total order.
pub proof fn lemma_node_order_total()
    ensures
        total_ordering(node_order()),
{
    assert forall|x: NodeView, y: NodeView| #[trigger]
        node_order()(x, y) && #[trigger] node_order()(y, x) implies x == y by {
        lemma_bytes_cmp_antisymmetric(encode_utf8(x.0), encode_utf8(y.0));
        lemma_bytes_cmp_antisymmetric(x.1, y.1);
        if encode_utf8(x.0) == encode_utf8(y.0) {
            lemma_utf8_injective(x.0, y.0);
        }
    }
    assert forall|x: NodeView, y: NodeView| #[trigger]
        node_order()(x, y) || #[trigger] node_order()(y, x) by {
        lemma_bytes_cmp_antisymmetric(encode_utf8(x.0), encode_utf8(y.0));
        lemma_bytes_cmp_antisymmetric(x.1, y.1);
    }
    assert forall|x: NodeView| #[trigger] node_order()(x, x) by {
        lemma_bytes_cmp_antisymmetric(encode_utf8(x.0), encode_utf8(x.0));
        lemma_bytes_cmp_antisymmetric(x.1, x.1);
    }
    assert forall|x: NodeView, y: NodeView, z: NodeView| #[trigger]
        node_order()(x, y) && #[trigger] node_order()(y, z) implies node_order()(x, z) by {
        let (px, py, pz) = (encode_utf8(x.0), encode_utf8(y.0), encode_utf8(z.0));
        lemma_bytes_cmp_antisymmetric(px, py);
        lemma_bytes_cmp_antisymmetric(py, pz);
        lemma_bytes_cmp_transitive(px, py, pz);
        if px == py && py == pz {
            lemma_bytes_cmp_antisymmetric(x.1, y.1);
            lemma_bytes_cmp_transitive(x.1, y.1, z.1);
        }
    }
}

} // verus!
