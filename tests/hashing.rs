use std::cmp::Ordering;
use tree_hash::node::Node;
use tree_hash::order::{alphanum_sort, compare_bytes};
use tree_hash::tree::{compute_dir_hash, compute_file_hash, hash_file, node_precedes, sort_children};

fn blake3_bytes(data: &[u8]) -> [u8; 32] {
    *blake3::hash(data).as_bytes()
}

fn concat(parts: &[&[u8]]) -> Vec<u8> {
    let mut out = Vec::new();
    for p in parts {
        out.extend_from_slice(p);
    }
    out
}

#[test]
fn single_file_digest_is_hash_of_path_then_content() {
    let node = hash_file("a.txt".to_string(), b"hello");
    assert_eq!(node.path, "a.txt");
    assert_eq!(node.hash, blake3_bytes(b"a.txthello"));
    assert_eq!(compute_file_hash("a.txt", b"hello"), blake3_bytes(b"a.txthello"));
}

#[test]
fn file_digest_is_deterministic() {
    let a = hash_file("x/y.bin".to_string(), &[0, 1, 2, 255]);
    let b = hash_file("x/y.bin".to_string(), &[0, 1, 2, 255]);
    assert_eq!(a.hash, b.hash);
}

#[test]
fn empty_file_hashes_path_alone() {
    assert_eq!(compute_file_hash("e", b""), blake3_bytes(b"e"));
}

#[test]
fn directory_folds_children_alphabetically() {
    let a = hash_file("d/a.txt".to_string(), b"first");
    let b = hash_file("d/b.txt".to_string(), b"second");
    let expected = blake3_bytes(&concat(&[b"d", &a.hash, &b.hash]));

    let listed_b_first = vec![
        hash_file("d/b.txt".to_string(), b"second"),
        hash_file("d/a.txt".to_string(), b"first"),
    ];
    let listed_a_first = vec![
        hash_file("d/a.txt".to_string(), b"first"),
        hash_file("d/b.txt".to_string(), b"second"),
    ];
    let d1 = compute_dir_hash("d".to_string(), listed_b_first);
    let d2 = compute_dir_hash("d".to_string(), listed_a_first);
    assert_eq!(d1.path, "d");
    assert_eq!(d1.hash, expected);
    assert_eq!(d2.hash, expected);
}

#[test]
fn empty_directory_hashes_path_alone() {
    let node = compute_dir_hash("empty".to_string(), Vec::new());
    assert_eq!(node.hash, blake3_bytes(b"empty"));
}

#[test]
fn identical_trees_same_digest_different_path_forms_differ() {
    let build = |root: &str| {
        let f = hash_file(format!("{}/f", root), b"data");
        let sub = compute_dir_hash(
            format!("{}/s", root),
            vec![hash_file(format!("{}/s/g", root), b"more")],
        );
        compute_dir_hash(root.to_string(), vec![f, sub])
    };
    assert_eq!(build("./t").hash, build("./t").hash);
    assert_ne!(build("./t").hash, build("/abs/t").hash);
}

#[test]
fn adding_empty_subdirectory_changes_digest_by_name() {
    let empty = compute_dir_hash("empty".to_string(), Vec::new());
    let sub_x = compute_dir_hash("empty/x".to_string(), Vec::new());
    let with_x = compute_dir_hash("empty".to_string(), vec![sub_x]);
    let sub_y = compute_dir_hash("empty/y".to_string(), Vec::new());
    let with_y = compute_dir_hash("empty".to_string(), vec![sub_y]);
    assert_ne!(empty.hash, with_x.hash);
    assert_ne!(with_x.hash, with_y.hash);
    let sub_x_hash = blake3_bytes(b"empty/x");
    assert_eq!(with_x.hash, blake3_bytes(&concat(&[b"empty", &sub_x_hash])));
}

#[test]
fn content_change_propagates_to_root() {
    let tree = |content: &[u8]| {
        let leaf = hash_file("r/s/f".to_string(), content);
        let sub = compute_dir_hash("r/s".to_string(), vec![leaf]);
        compute_dir_hash("r".to_string(), vec![sub])
    };
    assert_ne!(tree(b"abc").hash, tree(b"abd").hash);
    assert_eq!(tree(b"abc").hash, tree(b"abc").hash);
}

#[test]
fn rename_changes_digest() {
    assert_ne!(compute_file_hash("a", b"same"), compute_file_hash("b", b"same"));
    let d1 = compute_dir_hash("p".to_string(), Vec::new());
    let d2 = compute_dir_hash("q".to_string(), Vec::new());
    assert_ne!(d1.hash, d2.hash);
}

#[test]
fn removing_a_child_changes_digest() {
    let two = compute_dir_hash(
        "d".to_string(),
        vec![hash_file("d/a".to_string(), b"1"), hash_file("d/b".to_string(), b"2")],
    );
    let one = compute_dir_hash("d".to_string(), vec![hash_file("d/a".to_string(), b"1")]);
    assert_ne!(two.hash, one.hash);
}

#[test]
fn comparator_is_bytewise() {
    assert_eq!(alphanum_sort("a.txt", "b.txt"), Ordering::Less);
    assert_eq!(alphanum_sort("b.txt", "a.txt"), Ordering::Greater);
    assert_eq!(alphanum_sort("same", "same"), Ordering::Equal);
    assert_eq!(alphanum_sort("B", "a"), Ordering::Less);
    assert_eq!(alphanum_sort("file10", "file9"), Ordering::Less);
    assert_eq!(alphanum_sort("ab", "abc"), Ordering::Less);
    assert_eq!(alphanum_sort("", ""), Ordering::Equal);
    assert_eq!(alphanum_sort("z", "\u{e9}"), Ordering::Less);
}

#[test]
fn compare_bytes_orders_prefixes_first() {
    assert_eq!(compare_bytes(&[1, 2], &[1, 2, 0]), Ordering::Less);
    assert_eq!(compare_bytes(&[1, 3], &[1, 2, 9]), Ordering::Greater);
    assert_eq!(compare_bytes(&[], &[]), Ordering::Equal);
}

#[test]
fn sort_children_orders_by_path() {
    let kids = vec![
        hash_file("d/c".to_string(), b""),
        hash_file("d/a".to_string(), b""),
        hash_file("d/b".to_string(), b""),
    ];
    let sorted = sort_children(kids);
    let paths: Vec<&str> = sorted.iter().map(|n| n.path.as_str()).collect();
    assert_eq!(paths, vec!["d/a", "d/b", "d/c"]);
}

#[test]
fn equal_paths_ordered_by_digest() {
    let low = Node::new("p".to_string(), [0u8; 32]);
    let high = Node::new("p".to_string(), [1u8; 32]);
    assert!(node_precedes(&low, &high));
    assert!(!node_precedes(&high, &low));
    assert!(node_precedes(&low, &low));
    let other = Node::new("a".to_string(), [9u8; 32]);
    assert!(node_precedes(&other, &low));
}

#[test]
fn node_new_keeps_fields() {
    let n = Node::new("x".to_string(), [7u8; 32]);
    assert_eq!(n.path, "x");
    assert_eq!(n.hash, [7u8; 32]);
}

#[test]
fn digest_hex_is_lowercase_two_digits_per_byte() {
    let mut hash = [0u8; 32];
    hash[0] = 0x0f;
    hash[1] = 0xa0;
    hash[31] = 0xff;
    let n = Node::new("x".to_string(), hash);
    let text = n.digest_hex();
    assert_eq!(text.len(), 64);
    assert!(text.starts_with("0fa000"));
    assert!(text.ends_with("00ff"));
}

#[test]
fn digest_hex_of_file_matches_hex_encoding() {
    let n = hash_file("a.txt".to_string(), b"hello");
    assert_eq!(n.digest_hex(), blake3::hash(b"a.txthello").to_hex().to_string());
}
