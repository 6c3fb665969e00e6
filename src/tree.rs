//! The digest of a file and of a directory.
use vstd::prelude::*;
use vstd::multiset::Multiset;
use vstd::relations::sorted_by;
use vstd::seq_lib::{group_to_multiset_ensures, lemma_sorted_unique};
use vstd::utf8::encode_utf8;
use crate::digest::{blake3_of, blake3_of_parts};
use crate::node::Node;
use crate::order::{
    alphanum_sort, compare_bytes, lemma_node_order_total,
    node_le, node_order, NodeView,
};
use std::cmp::Ordering;

verus! {

broadcast use group_to_multiset_ensures;

/// A file's digest: the hash of its path bytes directly followed by its
/// content, with no separator.
pub open spec fn file_digest(path: Seq<char>, content: Seq<u8>) -> Seq<u8> {
    blake3_of(encode_utf8(path) + content)
}

/// The children's digests one after the other, in the order given.
pub open spec fn digests_concat(kids: Seq<NodeView>) -> Seq<u8>
    decreases kids.len(),
{
    if kids.len() == 0 {
        Seq::empty()
    } else {
        digests_concat(kids.drop_last()) + kids.last().1
    }
}

/// The children in canonical order.
pub open spec fn canonical(kids: Seq<NodeView>) -> Seq<NodeView> {
    kids.sort_by(node_order())
}

/// A directory's digest: the hash of its path bytes directly followed by its
/// children's digests in canonical order.
pub open spec fn dir_digest(path: Seq<char>, kids: Seq<NodeView>) -> Seq<u8> {
    blake3_of(encode_utf8(path) + digests_concat(canonical(kids)))
}

/// The models of a sequence of nodes.
pub open spec fn views(v: Seq<Node>) -> Seq<NodeView> {
    v.map_values(|n: Node| n@)
}

/// Hashes a file from its path string and its content.
pub fn compute_file_hash(path: &str, content: &[u8]) -> (r: [u8; 32])
    ensures
        r@ == file_digest(path@, content@),
{
    blake3_of_parts(path.as_bytes(), content)
}

/// The node of a file, from its path string and its content.
pub fn hash_file(path: String, content: &[u8]) -> (r: Node)
    ensures
        r@ == (path@, file_digest(path@, content@)),
{
    let hash = compute_file_hash(path.as_str(), content);
    Node::new(path, hash)
}

/// Whether `a` comes no later than `b` in canonical order.
pub fn node_precedes(a: &Node, b: &Node) -> (r: bool)
    ensures
        r == node_le(a@, b@),
{
    match alphanum_sort(a.path.as_str(), b.path.as_str()) {
        Ordering::Less => true,
        Ordering::Greater => false,
        Ordering::Equal => match compare_bytes(a.hash.as_slice(), b.hash.as_slice()) {
            Ordering::Greater => false,
            _ => true,
        },
    }
}

fn insert_sorted(sorted: &mut Vec<Node>, x: Node)
    requires
        sorted_by(views(old(sorted)@), node_order()),
    ensures
        sorted_by(views(final(sorted)@), node_order()),
        views(final(sorted)@).to_multiset() == views(old(sorted)@).to_multiset().insert(x@),
{
    proof {
        lemma_node_order_total();
    }
    let ghost s = views(sorted@);
    let mut i: usize = 0;
    while i < sorted.len() && node_precedes(&sorted[i], &x)
        invariant
            i <= sorted@.len(),
            s == views(sorted@),
            sorted_by(s, node_order()),
            vstd::relations::total_ordering(node_order()),
            forall|j: int| 0 <= j < i ==> #[trigger] node_order()(s[j], x@),
        decreases sorted@.len() - i,
    {
        i = i + 1;
    }
    proof {
        if i < s.len() {
            assert(s[i as int] == sorted@[i as int]@);
            assert(!node_le(s[i as int], x@));
            assert(node_order()(s[i as int], x@) || node_order()(x@, s[i as int]));
            assert(node_order()(x@, s[i as int]));
            assert forall|j: int| i <= j < s.len() implies #[trigger] node_order()(x@, s[j]) by {
                if j > i {
                    assert(node_order()(s[i as int], s[j]));
                }
            }
        }
    }
    sorted.insert(i, x);
    proof {
        let t = views(sorted@);
        assert(t =~= s.insert(i as int, x@));
        assert forall|p: int, q: int| 0 <= p < q < t.len() implies #[trigger] node_order()(
            t[p],
            t[q],
        ) by {
            if p < i && q > i {
                assert(node_order()(s[p], s[q - 1]));
            } else if p < i && q == i {
            } else if p == i {
            } else if p < i {
                assert(node_order()(s[p], s[q]));
            } else {
                assert(node_order()(s[p - 1], s[q - 1]));
            }
        }
    }
}

/// The children in canonical order.
pub fn sort_children(children: Vec<Node>) -> (r: Vec<Node>)
    ensures
        views(r@) == canonical(views(children@)),
{
    let ghost all = views(children@);
    let mut rest = children;
    let mut sorted: Vec<Node> = Vec::new();
    proof {
        assert(views(sorted@) =~= Seq::<NodeView>::empty());
    }
    while rest.len() > 0
        invariant
            sorted_by(views(sorted@), node_order()),
            views(sorted@).to_multiset().add(views(rest@).to_multiset()) == all.to_multiset(),
        decreases rest@.len(),
    {
        let ghost before = views(rest@);
        let x = rest.pop().unwrap();
        proof {
            assert(before =~= views(rest@).push(x@));
        }
        insert_sorted(&mut sorted, x);
    }
    proof {
        assert(views(rest@) =~= Seq::<NodeView>::empty());
        assert(views(rest@).to_multiset() =~= Multiset::empty());
        assert(views(sorted@).to_multiset() =~= all.to_multiset());
        lemma_node_order_total();
        all.lemma_sort_by_ensures(node_order());
        lemma_sorted_unique(views(sorted@), canonical(all), node_order());
    }
    sorted
}

/// The node of a directory, from its path string and its children's nodes in
/// any order.
pub fn compute_dir_hash(path: String, children: Vec<Node>) -> (r: Node)
    ensures
        r@ == (path@, dir_digest(path@, views(children@))),
{
    let sorted = sort_children(children);
    let ghost s = views(sorted@);
    let mut buf: Vec<u8> = Vec::new();
    let mut i: usize = 0;
    while i < sorted.len()
        invariant
            i <= sorted@.len(),
            s == views(sorted@),
            buf@ == digests_concat(s.take(i as int)),
        decreases sorted@.len() - i,
    {
        let ghost before = buf@;
        let mut k: usize = 0;
        while k < 32
            invariant
                i < sorted@.len(),
                k <= 32,
                buf@ == before + sorted@[i as int].hash@.take(k as int),
            decreases 32 - k,
        {
            buf.push(sorted[i].hash[k]);
            proof {
                assert(buf@ =~= before + sorted@[i as int].hash@.take(k + 1));
            }
            k = k + 1;
        }
        proof {
            assert(s.take(i + 1).drop_last() =~= s.take(i as int));
            assert(sorted@[i as int].hash@.take(32) =~= sorted@[i as int].hash@);
        }
        i = i + 1;
    }
    proof {
        assert(s.take(i as int) =~= s);
    }
    let hash = blake3_of_parts(path.as_str().as_bytes(), buf.as_slice());
    Node::new(path, hash)
}

} // verus!
