use tree_hash::node::Node;
use tree_hash::tree::{compute_dir_hash, hash_file};
use tree_hash::walk::{Entry, EntryKind, Step, Walker};

fn expect_read(step: Step) -> String {
    match step {
        Step::ReadFile(p) => p,
        other => panic!("expected a read, got {:?}", other),
    }
}

fn expect_list(step: Step) -> String {
    match step {
        Step::ListDirectory(p) => p,
        other => panic!("expected a listing, got {:?}", other),
    }
}

fn expect_finished(step: Step) -> Node {
    match step {
        Step::Finished(n) => n,
        other => panic!("expected the end, got {:?}", other),
    }
}

#[test]
fn walk_of_single_file() {
    let mut w = Walker::new();
    let p = expect_read(w.visit(Entry::new("a.txt".to_string(), EntryKind::File)));
    assert_eq!(p, "a.txt");
    let node = expect_finished(w.file_read(p, b"hello"));
    assert_eq!(node.path, "a.txt");
    assert_eq!(node.hash, *blake3::hash(b"a.txthello").as_bytes());
}

#[test]
fn walk_of_empty_directory() {
    let mut w = Walker::new();
    let p = expect_list(w.visit(Entry::new("empty".to_string(), EntryKind::Directory)));
    let node = expect_finished(w.directory_listed(p, Vec::new()));
    assert_eq!(node.hash, *blake3::hash(b"empty").as_bytes());
}

#[test]
fn walk_of_unsupported_entry() {
    let w = Walker::new();
    match w.visit(Entry::new("sock".to_string(), EntryKind::Other)) {
        Step::Unsupported(p) => assert_eq!(p, "sock"),
        other => panic!("expected a refusal, got {:?}", other),
    }
}

#[test]
fn walk_of_nested_tree_matches_direct_fold() {
    // r/ holds b.txt, a.txt and s/, and s/ holds c and an empty e/.
    let mut w = Walker::new();
    let r = expect_list(w.visit(Entry::new("r".to_string(), EntryKind::Directory)));
    let mut step = w.directory_listed(
        r,
        vec![
            Entry::new("r/b.txt".to_string(), EntryKind::File),
            Entry::new("r/s".to_string(), EntryKind::Directory),
            Entry::new("r/a.txt".to_string(), EntryKind::File),
        ],
    );
    let root = loop {
        step = match step {
            Step::ReadFile(p) => {
                let content: &[u8] = match p.as_str() {
                    "r/a.txt" => b"alpha",
                    "r/b.txt" => b"beta",
                    "r/s/c" => b"gamma",
                    _ => panic!("unexpected read of {}", p),
                };
                w.file_read(p, content)
            }
            Step::ListDirectory(p) => {
                let kids = match p.as_str() {
                    "r/s" => vec![
                        Entry::new("r/s/e".to_string(), EntryKind::Directory),
                        Entry::new("r/s/c".to_string(), EntryKind::File),
                    ],
                    "r/s/e" => Vec::new(),
                    _ => panic!("unexpected listing of {}", p),
                };
                w.directory_listed(p, kids)
            }
            Step::Unsupported(p) => panic!("unexpected refusal of {}", p),
            Step::Finished(n) => break n,
        };
    };

    let e = compute_dir_hash("r/s/e".to_string(), Vec::new());
    let s = compute_dir_hash(
        "r/s".to_string(),
        vec![hash_file("r/s/c".to_string(), b"gamma"), e],
    );
    let expected = compute_dir_hash(
        "r".to_string(),
        vec![hash_file("r/a.txt".to_string(), b"alpha"), hash_file("r/b.txt".to_string(), b"beta"), s],
    );
    assert_eq!(root.path, "r");
    assert_eq!(root.hash, expected.hash);
}
