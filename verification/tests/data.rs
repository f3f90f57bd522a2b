use file_index::data::Node;

#[test]
fn data_test_new() {
    let node = Node::new();
    assert!(node.children.is_empty());
    assert!(node.paths.is_empty());
}

#[test]
fn test_insert_and_get() {
    let mut root_node = Node::new();
    let path = String::from("/some/path");
    root_node.insert("key", path.clone());

    let retrieved_node = root_node.get("key").unwrap();
    assert_eq!(retrieved_node.paths[0], path);
}

#[test]
fn test_delete() {
    let mut root_node = Node::new();
    let path = String::from("/some/path");
    root_node.insert("key", path.clone());

    root_node.delete("key");
    assert!(root_node.get("key").is_none());
}

#[test]
fn test_len() {
    let mut root_node = Node::new();
    root_node.insert("key1", String::from("/some/path1"));
    root_node.insert("key2", String::from("/some/path2"));

    assert_eq!(root_node.len(), 6); // root node + 2 key nodes
}

#[test]
fn test_clear() {
    let mut root_node = Node::new();
    root_node.insert("key", String::from("/some/path"));

    root_node.clear();
    assert!(root_node.is_empty());
}

#[test]
fn test_is_empty() {
    let root_node = Node::new();
    assert!(root_node.is_empty());

    let mut root_node = Node::new();
    root_node.insert("key", String::from("/some/path"));
    assert!(!root_node.is_empty());
}

#[test]
fn test_groups() {
    let mut root_node = Node::new();
    root_node.insert("key", String::from("/some/path"));

    let groups = root_node.groups();
    assert!(groups.iter().any(|(c, _)| *c == 'k'));
}

#[test]
fn test_val() {
    let mut root_node = Node::new();
    let path = String::from("/some/path");
    root_node.insert("key", path.clone());

    let val = match root_node.get("key") {
        Some(node) => node.val(),
        None => return,
    };
    assert_eq!(val[0], path);
}

#[test]
fn test_insert_duplicates_kept_in_order() {
    let mut root = Node::new();
    root.insert("key", String::from("/first"));
    root.insert("key", String::from("/second"));
    root.insert("key", String::from("/first"));

    let vals = root.get("key").unwrap().val();
    assert_eq!(vals.len(), 3);
    assert_eq!(vals[0], "/first");
    assert_eq!(vals[1], "/second");
    assert_eq!(vals[2], "/first");
}

#[test]
fn test_delete_keeps_shared_prefix_with_value() {
    let mut root = Node::new();
    root.insert("ab", String::from("/x"));
    root.insert("abc", String::from("/y"));

    root.delete("abc");
    // "ab" holds its own value, so it must survive the prune
    let ab = root.get("ab").unwrap();
    assert_eq!(ab.val().len(), 1);
    assert_eq!(ab.val()[0], "/x");
    assert!(root.get("abc").is_none());
}

#[test]
fn test_delete_prunes_whole_chain() {
    let mut root = Node::new();
    root.insert("abc", String::from("/y"));

    root.delete("abc");
    // no node of the chain holds independent state: all of it goes
    assert!(root.get("abc").is_none());
    assert!(root.get("ab").is_none());
    assert!(root.get("a").is_none());
    assert_eq!(root.len(), 1); // only the root remains
    assert!(root.is_empty());
}

#[test]
fn test_delete_keeps_internal_prefix_with_children() {
    let mut root = Node::new();
    root.insert("ab", String::from("/x"));
    root.insert("abc", String::from("/y"));

    root.delete("ab");
    // the "ab" node keeps its child, so it stays with empty values
    let ab = root.get("ab").unwrap();
    assert!(ab.val().is_empty());
    assert_eq!(root.get("abc").unwrap().val()[0], "/y");
}

#[test]
fn test_empty_key_names_root() {
    let mut root = Node::new();
    root.insert("k", String::from("/p"));
    let node = root.get("").unwrap();
    assert_eq!(node.len(), root.len());
}

#[test]
fn test_get_absent_key() {
    let mut root = Node::new();
    root.insert("key", String::from("/p"));
    assert!(root.get("kex").is_none());
    assert!(root.get("keys").is_none());
}
