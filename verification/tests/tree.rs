use rvc::tree::FileTree;

#[test]
fn new_tree_is_empty() {
    let tree = FileTree::new();
    assert!(tree.is_empty());
    assert_eq!(tree.len(), 0);
    assert!(!tree.contains("a"));
    assert_eq!(tree.get("a"), None);
}

#[test]
fn insert_puts_and_replaces() {
    let mut tree = FileTree::new();
    tree.insert("a".to_string(), "1".to_string());
    tree.insert("b".to_string(), "2".to_string());
    tree.insert("a".to_string(), "3".to_string());
    assert_eq!(tree.len(), 2);
    assert!(!tree.is_empty());
    assert_eq!(tree.get("a"), Some(&"3".to_string()));
    assert_eq!(tree.get("b"), Some(&"2".to_string()));
    assert!(tree.contains("a"));
    assert!(!tree.contains("c"));
}

#[test]
fn remove_takes_out_one_file() {
    let mut tree = FileTree::new();
    tree.insert("a".to_string(), "1".to_string());
    tree.insert("b".to_string(), "2".to_string());
    tree.insert("c".to_string(), "3".to_string());
    tree.remove("b");
    tree.remove("zz");
    assert_eq!(tree.len(), 2);
    assert_eq!(tree.get("a"), Some(&"1".to_string()));
    assert_eq!(tree.get("b"), None);
    assert_eq!(tree.get("c"), Some(&"3".to_string()));
}

#[test]
fn walk_meets_each_file_once() {
    let mut tree = FileTree::new();
    tree.insert("a".to_string(), "1".to_string());
    tree.insert("b".to_string(), "2".to_string());
    tree.insert("a".to_string(), "3".to_string());
    let mut seen: Vec<(String, String)> = Vec::new();
    for i in 0..tree.len() {
        seen.push((tree.path_at(i).clone(), tree.content_at(i).clone()));
    }
    seen.sort();
    assert_eq!(
        seen,
        vec![("a".to_string(), "3".to_string()), ("b".to_string(), "2".to_string())]
    );
}

#[test]
fn clone_and_same_files() {
    let mut tree = FileTree::new();
    tree.insert("a".to_string(), "1".to_string());
    tree.insert("b".to_string(), "2".to_string());
    let mut copy = tree.clone();
    assert!(tree.same_files(&copy));
    copy.insert("b".to_string(), "other".to_string());
    assert!(!tree.same_files(&copy));
    assert_eq!(tree.get("b"), Some(&"2".to_string()));

    let mut other_order = FileTree::new();
    other_order.insert("b".to_string(), "2".to_string());
    other_order.insert("a".to_string(), "1".to_string());
    assert!(tree.same_files(&other_order));
    other_order.remove("a");
    assert!(!tree.same_files(&other_order));
    assert!(!other_order.same_files(&tree));
}

#[test]
fn equality_looks_at_the_files_only() {
    let mut tree = FileTree::new();
    tree.insert("a".to_string(), "1".to_string());
    tree.insert("b".to_string(), "2".to_string());
    let mut other_order = FileTree::new();
    other_order.insert("b".to_string(), "2".to_string());
    other_order.insert("a".to_string(), "1".to_string());
    assert_eq!(tree, other_order);
    assert_eq!(tree.clone(), tree);
    other_order.insert("a".to_string(), "changed".to_string());
    assert_ne!(tree, other_order);
    assert_ne!(tree, FileTree::new());
}
