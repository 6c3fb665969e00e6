//! What holds of the digests of all trees.
//!
//! BLAKE3 is a function, so equal inputs give equal digests. That different
//! inputs give different digests is the hash's collision resistance, which
//! no proof can supply; the laws of sensitivity below therefore state that
//! the bytes fed to the hash differ.
use vstd::prelude::*;
use vstd::multiset::Multiset;
use vstd::seq_lib::{group_to_multiset_ensures, lemma_sorted_unique};
use vstd::utf8::{encode_utf8, encode_utf8_decode_utf8};
use crate::digest::blake3_of;
use crate::order::{lemma_node_order_total, node_order, NodeView};
use crate::tree::{canonical, digests_concat, dir_digest, file_digest};

verus! {

broadcast use group_to_multiset_ensures;

/// The bytes hashed for a file.
pub open spec fn file_input(path: Seq<char>, content: Seq<u8>) -> Seq<u8> {
    encode_utf8(path) + content
}

/// The bytes hashed for a directory.
pub open spec fn dir_input(path: Seq<char>, kids: Seq<NodeView>) -> Seq<u8> {
    encode_utf8(path) + digests_concat(canonical(kids))
}

/// Every child digest is 32 bytes long, as every digest computed is.
pub open spec fn digests_sized(kids: Seq<NodeView>) -> bool {
    forall|i: int| 0 <= i < kids.len() ==> (#[trigger] kids[i]).1.len() == 32
}

/// Each digest is the hash of the bytes stated above.
pub proof fn lemma_digests_hash_inputs(path: Seq<char>, content: Seq<u8>, kids: Seq<NodeView>)
    ensures
        file_digest(path, content) == blake3_of(file_input(path, content)),
        dir_digest(path, kids) == blake3_of(dir_input(path, kids)),
{
}

/// The order in which a directory's children are listed does not matter: any
/// two listings of the same children give the same directory digest.
pub proof fn lemma_order_independent(path: Seq<char>, a: Seq<NodeView>, b: Seq<NodeView>)
    requires
        a.to_multiset() == b.to_multiset(),
    ensures
        canonical(a) == canonical(b),
        dir_digest(path, a) == dir_digest(path, b),
{
    lemma_node_order_total();
    a.lemma_sort_by_ensures(node_order());
    b.lemma_sort_by_ensures(node_order());
    lemma_sorted_unique(canonical(a), canonical(b), node_order());
}

/// A directory without children hashes its path bytes alone.
pub proof fn lemma_empty_directory(path: Seq<char>)
    ensures
        dir_digest(path, Seq::empty()) == blake3_of(encode_utf8(path)),
{
    let e = Seq::<NodeView>::empty();
    lemma_node_order_total();
    e.lemma_sort_by_ensures(node_order());
    assert(canonical(e).to_multiset().len() == 0);
    assert(canonical(e) =~= e);
    assert(encode_utf8(path) + Seq::<u8>::empty() =~= encode_utf8(path));
}

proof fn lemma_prefix_differs(e1: Seq<u8>, e2: Seq<u8>, t: Seq<u8>)
    requires
        e1 != e2,
    ensures
        e1 + t != e2 + t,
{
    if e1 + t == e2 + t {
        assert((e1 + t).len() == e1.len() + t.len());
        assert((e2 + t).len() == e2.len() + t.len());
        assert((e1 + t).take(e1.len() as int) =~= e1);
        assert((e2 + t).take(e2.len() as int) =~= e2);
    }
}

/// Changing a file's content changes the bytes hashed for it.
pub proof fn lemma_file_content_sensitive(path: Seq<char>, c1: Seq<u8>, c2: Seq<u8>)
    requires
        c1 != c2,
    ensures
        file_input(path, c1) != file_input(path, c2),
{
    let p = encode_utf8(path);
    if p + c1 == p + c2 {
        assert((p + c1).skip(p.len() as int) =~= c1);
        assert((p + c2).skip(p.len() as int) =~= c2);
    }
}

/// Renaming a file changes the bytes hashed for it, whatever its content.
pub proof fn lemma_file_path_sensitive(p1: Seq<char>, p2: Seq<char>, content: Seq<u8>)
    requires
        p1 != p2,
    ensures
        file_input(p1, content) != file_input(p2, content),
{
    encode_utf8_decode_utf8(p1);
    encode_utf8_decode_utf8(p2);
    lemma_prefix_differs(encode_utf8(p1), encode_utf8(p2), content);
}

/// Renaming a directory changes the bytes hashed for it, whatever its children.
pub proof fn lemma_dir_path_sensitive(p1: Seq<char>, p2: Seq<char>, kids: Seq<NodeView>)
    requires
        p1 != p2,
    ensures
        dir_input(p1, kids) != dir_input(p2, kids),
{
    encode_utf8_decode_utf8(p1);
    encode_utf8_decode_utf8(p2);
    lemma_prefix_differs(encode_utf8(p1), encode_utf8(p2), digests_concat(canonical(kids)));
}

proof fn lemma_digests_concat_len(kids: Seq<NodeView>)
    requires
        digests_sized(kids),
    ensures
        digests_concat(kids).len() == 32 * kids.len(),
    decreases kids.len(),
{
    if kids.len() > 0 {
        let init = kids.drop_last();
        assert(digests_sized(init)) by {
            assert forall|i: int| 0 <= i < init.len() implies (#[trigger] init[i]).1.len()
                == 32 by {
                assert(init[i] == kids[i]);
            }
        }
        lemma_digests_concat_len(init);
        assert(kids.last() == kids[kids.len() - 1]);
    }
}

proof fn lemma_canonical_sized(kids: Seq<NodeView>)
    requires
        digests_sized(kids),
    ensures
        digests_sized(canonical(kids)),
        canonical(kids).len() == kids.len(),
{
    lemma_node_order_total();
    kids.lemma_sort_by_ensures(node_order());
    let c = canonical(kids);
    assert(c.to_multiset().len() == c.len());
    assert(kids.to_multiset().len() == kids.len());
    assert forall|i: int| 0 <= i < c.len() implies (#[trigger] c[i]).1.len() == 32 by {
        assert(c.contains(c[i]));
        assert(kids.contains(c[i]));
    }
}

/// Adding or removing children of a directory changes the bytes hashed for it.
pub proof fn lemma_dir_structure_sensitive(path: Seq<char>, a: Seq<NodeView>, b: Seq<NodeView>)
    requires
        digests_sized(a),
        digests_sized(b),
        a.len() != b.len(),
    ensures
        dir_input(path, a) != dir_input(path, b),
{
    lemma_canonical_sized(a);
    lemma_canonical_sized(b);
    lemma_digests_concat_len(canonical(a));
    lemma_digests_concat_len(canonical(b));
    assert(dir_input(path, a).len() != dir_input(path, b).len());
}

/// The digests of a sequence of children, in its order.
pub open spec fn digest_seq(kids: Seq<NodeView>) -> Seq<Seq<u8>> {
    kids.map_values(|n: NodeView| n.1)
}

proof fn lemma_multiset_remove_insert(m: Multiset<Seq<u8>>, v: Seq<u8>)
    requires
        m.contains(v),
    ensures
        m.remove(v).insert(v) == m,
{
    assert(m.remove(v).insert(v) =~= m);
}

proof fn lemma_digest_seq_permutation(s1: Seq<NodeView>, s2: Seq<NodeView>)
    requires
        s1.to_multiset() == s2.to_multiset(),
    ensures
        digest_seq(s1).to_multiset() == digest_seq(s2).to_multiset(),
    decreases s1.len(),
{
    assert(s1.to_multiset().len() == s1.len());
    assert(s2.to_multiset().len() == s2.len());
    if s1.len() > 0 {
        let e = s1.last();
        let init = s1.drop_last();
        assert(s1 =~= init.push(e));
        assert(s1.to_multiset().contains(e));
        assert(s2.contains(e));
        let j = choose|j: int| 0 <= j < s2.len() && s2[j] == e;
        let rest = s2.remove(j);
        assert(rest.to_multiset() == s2.to_multiset().remove(e));
        assert(init.to_multiset() =~= s1.to_multiset().remove(e));
        lemma_digest_seq_permutation(init, rest);
        assert(digest_seq(s1) =~= digest_seq(init).push(e.1));
        assert(digest_seq(rest) =~= digest_seq(s2).remove(j));
        assert(digest_seq(s2)[j] == e.1);
        assert(digest_seq(rest).to_multiset() == digest_seq(s2).to_multiset().remove(e.1));
        assert(digest_seq(s2).to_multiset().contains(e.1));
        lemma_multiset_remove_insert(digest_seq(s2).to_multiset(), e.1);
    } else {
        assert(s2.len() == 0);
        assert(digest_seq(s1) =~= digest_seq(s2));
    }
}

proof fn lemma_concat_determines_digests(s1: Seq<NodeView>, s2: Seq<NodeView>)
    requires
        digests_sized(s1),
        digests_sized(s2),
        s1.len() == s2.len(),
        digests_concat(s1) == digests_concat(s2),
    ensures
        digest_seq(s1) == digest_seq(s2),
    decreases s1.len(),
{
    if s1.len() > 0 {
        let (i1, i2) = (s1.drop_last(), s2.drop_last());
        assert(digests_sized(i1)) by {
            assert forall|k: int| 0 <= k < i1.len() implies (#[trigger] i1[k]).1.len() == 32 by {
                assert(i1[k] == s1[k]);
            }
        }
        assert(digests_sized(i2)) by {
            assert forall|k: int| 0 <= k < i2.len() implies (#[trigger] i2[k]).1.len() == 32 by {
                assert(i2[k] == s2[k]);
            }
        }
        lemma_digests_concat_len(i1);
        lemma_digests_concat_len(i2);
        let (c1, c2) = (digests_concat(i1), digests_concat(i2));
        let (l1, l2) = (s1.last().1, s2.last().1);
        assert(s1.last() == s1[s1.len() - 1]);
        assert(s2.last() == s2[s2.len() - 1]);
        assert((c1 + l1).take(c1.len() as int) =~= c1);
        assert((c2 + l2).take(c2.len() as int) =~= c2);
        assert((c1 + l1).skip(c1.len() as int) =~= l1);
        assert((c2 + l2).skip(c2.len() as int) =~= l2);
        lemma_concat_determines_digests(i1, i2);
        assert(digest_seq(s1) =~= digest_seq(i1).push(l1));
        assert(digest_seq(s2) =~= digest_seq(i2).push(l2));
    } else {
        assert(digest_seq(s1) =~= digest_seq(s2));
    }
}

/// Changing the digest of one child of a directory (a file whose content
/// changed, or a subdirectory whose digest changed) changes the bytes hashed
/// for the directory; level by level, a change reaches the root.
pub proof fn lemma_dir_child_sensitive(path: Seq<char>, kids: Seq<NodeView>, i: int, d: Seq<u8>)
    requires
        digests_sized(kids),
        0 <= i < kids.len(),
        d.len() == 32,
        d != kids[i].1,
    ensures
        dir_input(path, kids) != dir_input(path, kids.update(i, (kids[i].0, d))),
{
    let changed = kids.update(i, (kids[i].0, d));
    assert(digests_sized(changed)) by {
        assert forall|k: int| 0 <= k < changed.len() implies (#[trigger] changed[k]).1.len()
            == 32 by {
            if k != i {
                assert(changed[k] == kids[k]);
            }
        }
    }
    let (ca, cb) = (canonical(kids), canonical(changed));
    lemma_canonical_sized(kids);
    lemma_canonical_sized(changed);
    lemma_node_order_total();
    kids.lemma_sort_by_ensures(node_order());
    changed.lemma_sort_by_ensures(node_order());
    lemma_digest_seq_permutation(ca, kids);
    lemma_digest_seq_permutation(cb, changed);
    assert(digest_seq(changed) =~= digest_seq(kids).update(i, d));
    let m = digest_seq(kids).to_multiset();
    assert(digest_seq(changed).to_multiset() == m.remove(kids[i].1).insert(d));
    if dir_input(path, kids) == dir_input(path, changed) {
        let p = encode_utf8(path);
        assert((p + digests_concat(ca)).skip(p.len() as int) =~= digests_concat(ca));
        assert((p + digests_concat(cb)).skip(p.len() as int) =~= digests_concat(cb));
        lemma_concat_determines_digests(ca, cb);
        assert(m.count(d) == m.remove(kids[i].1).insert(d).count(d));
        assert(false);
    }
}

} // verus!
