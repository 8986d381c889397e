use prefix_match::{Match, PrefixMatch};

fn sample() -> PrefixMatch<i32> {
    let mut tree = PrefixMatch::default();
    tree.insert("file", 0);
    tree.insert("file_name", 1);
    tree.insert("file::name", 2);
    tree.insert("file::no", 3);
    tree.reorder();
    tree
}

fn collect(m: &Match, tree: &PrefixMatch<i32>) -> Vec<(String, i32)> {
    m.iter(tree).into_iter().map(|(k, v)| (k.to_string(), *v)).collect()
}

#[test]
fn insert() {
    let tree = sample();
    let expected = [
        ("file", 0),
        ("file::name", 2),
        ("file::no", 3),
        ("file_name", 1),
    ];
    assert_eq!(tree.items().len(), expected.len(), "Mismatched length");
    for (x, y) in tree.items().iter().zip(expected.iter()) {
        assert_eq!(x.0, y.0, "Mismatched strings");
        assert_eq!(x.1, y.1, "Mismatched metadata");
    }
}

#[test]
fn find() {
    let tree = sample();
    let expected = [("file::name", 2), ("file::no", 3)];
    assert_eq!(tree.find("file::").len(), expected.len(), "Mismatched length");
    for (x, y) in tree.find("file::").iter(&tree).iter().zip(expected.iter()) {
        assert_eq!(x.0, y.0, "Mismatched strings");
        assert_eq!(*x.1, y.1, "Mismatched metadata");
    }
}

#[test]
fn find_empty_prefix_gives_everything() {
    let tree = sample();
    let m = tree.find("");
    assert_eq!(m.len(), 4);
    assert_eq!(
        collect(&m, &tree),
        vec![
            ("file".to_string(), 0),
            ("file::name".to_string(), 2),
            ("file::no".to_string(), 3),
            ("file_name".to_string(), 1),
        ]
    );
}

#[test]
fn find_without_match_is_empty() {
    let tree = sample();
    let m = tree.find("zzz");
    assert_eq!(m.len(), 0);
    assert!(m.iter(&tree).is_empty());
}

#[test]
fn find_whole_key_and_longer() {
    let tree = sample();
    assert_eq!(
        collect(&tree.find("file_"), &tree),
        vec![("file_name".to_string(), 1)]
    );
    assert_eq!(
        collect(&tree.find("file::no"), &tree),
        vec![("file::no".to_string(), 3)]
    );
    assert_eq!(tree.find("file").len(), 4);
}

#[test]
fn find_on_empty_index() {
    let tree: PrefixMatch<i32> = PrefixMatch::new();
    assert_eq!(tree.find("").len(), 0);
    assert_eq!(tree.find("a").len(), 0);
}

#[test]
fn reorder_puts_shorter_key_first() {
    let mut tree = PrefixMatch::new();
    tree.insert("abc", 1);
    tree.insert("b", 2);
    tree.insert("ab", 3);
    tree.insert("", 4);
    tree.reorder();
    let keys: Vec<&str> = tree.items().iter().map(|e| e.0.as_str()).collect();
    assert_eq!(keys, vec!["", "ab", "abc", "b"]);
}

#[test]
fn reorder_compares_scalar_values() {
    let mut tree = PrefixMatch::new();
    tree.insert("\u{e9}t\u{e9}", 1);
    tree.insert("zone", 2);
    tree.insert("\u{1f600}", 3);
    tree.insert("eau", 4);
    tree.reorder();
    let keys: Vec<&str> = tree.items().iter().map(|e| e.0.as_str()).collect();
    assert_eq!(keys, vec!["eau", "zone", "\u{e9}t\u{e9}", "\u{1f600}"]);
    assert_eq!(
        collect(&tree.find("\u{e9}"), &tree),
        vec![("\u{e9}t\u{e9}".to_string(), 1)]
    );
}

#[test]
fn reorder_twice_changes_nothing() {
    let mut tree = PrefixMatch::new();
    tree.insert("b", 1);
    tree.insert("a", 2);
    tree.insert("b", 3);
    tree.insert("a", 4);
    tree.insert("c", 5);
    tree.reorder();
    let once: Vec<(String, i32)> = tree.items().clone();
    tree.reorder();
    assert_eq!(tree.items(), &once);
    let keys: Vec<&str> = once.iter().map(|e| e.0.as_str()).collect();
    assert_eq!(keys, vec!["a", "a", "b", "b", "c"]);
}

#[test]
fn reorder_keeps_equal_keys_in_insertion_order() {
    let mut tree = PrefixMatch::new();
    tree.insert("k", 1);
    tree.insert("j", 0);
    tree.insert("k", 2);
    tree.insert("k", 3);
    tree.reorder();
    let metas: Vec<i32> = tree.items().iter().map(|e| e.1).collect();
    assert_eq!(metas, vec![0, 1, 2, 3]);
}

#[test]
fn matches_form_one_block() {
    let mut tree = PrefixMatch::new();
    for (i, k) in ["ba", "a", "bb", "c", "b", "bab", "ca"].iter().enumerate() {
        tree.insert(k, i as i32);
    }
    tree.reorder();
    let got = collect(&tree.find("b"), &tree);
    assert_eq!(
        got,
        vec![
            ("b".to_string(), 4),
            ("ba".to_string(), 0),
            ("bab".to_string(), 5),
            ("bb".to_string(), 2),
        ]
    );
}

#[test]
fn search_settling_on_a_shorter_key() {
    // The midpoint of the first halving is "a", which "ac" and "ab" extend:
    // the match order calls it equal, and the span is widened from there.
    let mut tree = PrefixMatch::new();
    for (i, k) in ["0", "1", "a", "ab", "ac"].iter().enumerate() {
        tree.insert(k, i as i32);
    }
    tree.reorder();
    assert_eq!(collect(&tree.find("ac"), &tree), vec![("a".to_string(), 2)]);
    assert_eq!(
        collect(&tree.find("ab"), &tree),
        vec![("a".to_string(), 2), ("ab".to_string(), 3)]
    );
    assert_eq!(collect(&tree.find("a"), &tree).len(), 3);
}
