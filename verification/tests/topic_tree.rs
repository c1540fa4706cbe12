use websmq::topic_tree::TopicTree;

fn path(segments: &[&str]) -> Vec<String> {
    segments.iter().map(|s| s.to_string()).collect()
}

#[test]
fn test_insert() {
    let mut tree = TopicTree::new();
    tree.insert_client(
        &vec![
            "temps".to_owned(),
            "home".to_owned(),
            "kitchen".to_owned(),
            "fridge".to_owned(),
        ],
        "client-1",
    );
    assert_eq!(tree.len(), 1);
    tree.insert_client(
        &vec!["temps".to_owned(), "home".to_owned(), "kitchen".to_owned()],
        "client-1",
    );
    assert_eq!(tree.len(), 2);
    tree.insert_client(
        &vec!["temps".to_owned(), "home".to_owned(), "kitchen".to_owned()],
        "client-1",
    );
    assert_eq!(tree.len(), 2);
}

#[test]
fn test_remove() {
    let mut tree = TopicTree::new();
    tree.insert_client(
        &vec![
            "temps".to_owned(),
            "home".to_owned(),
            "kitchen".to_owned(),
            "fridge".to_owned(),
        ],
        "client-1",
    );
    tree.insert_client(
        &vec![
            "temps".to_owned(),
            "home".to_owned(),
            "kitchen".to_owned(),
            "fridge".to_owned(),
        ],
        "client-2",
    );
    tree.insert_client(
        &vec![
            "temps".to_owned(),
            "home".to_owned(),
            "kitchen".to_owned(),
            "fridge".to_owned(),
        ],
        "client-3",
    );
    tree.insert_client(
        &vec!["temps".to_owned(), "home".to_owned(), "kitchen".to_owned()],
        "client-1",
    );
    assert_eq!(tree.len(), 4);

    tree.remove_client(
        &vec!["temps".to_owned(), "home".to_owned(), "kitchen".to_owned()],
        &"client-1",
    );
    assert_eq!(tree.len(), 3);

    tree.remove_client(
        &vec![
            "temps".to_owned(),
            "home".to_owned(),
            "kitchen".to_owned(),
            "fridge".to_owned(),
        ],
        &"client-2",
    );
    assert_eq!(tree.len(), 2);

    let clients = tree
        .get_clients_at_path(&vec![
            "temps".to_owned(),
            "home".to_owned(),
            "kitchen".to_owned(),
            "fridge".to_owned(),
        ])
        .unwrap();

    assert!(clients.contains(&"client-1"));
    assert!(clients.contains(&"client-3"));
}

#[test]
fn insert_reports_new_subscriptions() {
    let mut tree = TopicTree::new();
    assert!(tree.insert_client(&path(&["a", "b"]), 7u64));
    assert!(!tree.insert_client(&path(&["a", "b"]), 7u64));
    assert!(tree.insert_client(&path(&["a", "b"]), 8u64));
    assert!(tree.insert_client(&path(&["a"]), 7u64));
    assert_eq!(tree.len(), 3);
}

#[test]
fn insert_creates_intermediate_nodes() {
    let mut tree = TopicTree::new();
    tree.insert_client(&path(&["a", "b", "c"]), 1u64);
    assert_eq!(tree.get_clients_at_path(&path(&["a"])).unwrap().len(), 0);
    assert_eq!(tree.get_clients_at_path(&path(&["a", "b"])).unwrap().len(), 0);
    assert_eq!(tree.get_clients_at_path(&path(&["a", "b", "c"])).unwrap(), &vec![1u64]);
    assert!(tree.get_clients_at_path(&path(&["a", "c"])).is_none());
    assert!(tree.get_clients_at_path(&path(&[])).unwrap().is_empty());
}

#[test]
fn remove_reports_and_prunes_leaf() {
    let mut tree = TopicTree::new();
    tree.insert_client(&path(&["a", "b"]), 1u64);
    assert!(!tree.remove_client(&path(&["a", "b"]), &2u64));
    assert!(!tree.remove_client(&path(&["x"]), &1u64));
    assert_eq!(tree.len(), 1);
    assert!(tree.remove_client(&path(&["a", "b"]), &1u64));
    assert_eq!(tree.len(), 0);
    // the emptied leaf is gone, its parent stays
    assert!(tree.get_clients_at_path(&path(&["a", "b"])).is_none());
    assert!(tree.get_clients_at_path(&path(&["a"])).is_some());
    // an empty leaf is pruned even when the client was not subscribed there
    assert!(!tree.remove_client(&path(&["a"]), &1u64));
    assert!(tree.get_clients_at_path(&path(&["a"])).is_none());
}

#[test]
fn remove_keeps_node_with_children_or_clients() {
    let mut tree = TopicTree::new();
    tree.insert_client(&path(&["a"]), 1u64);
    tree.insert_client(&path(&["a", "b"]), 2u64);
    assert!(tree.remove_client(&path(&["a"]), &1u64));
    assert!(tree.get_clients_at_path(&path(&["a"])).is_some());
    tree.insert_client(&path(&["a", "b"]), 3u64);
    assert!(tree.remove_client(&path(&["a", "b"]), &2u64));
    assert_eq!(tree.get_clients_at_path(&path(&["a", "b"])).unwrap(), &vec![3u64]);
}

#[test]
fn remove_undoes_insert_on_existing_path() {
    let mut tree = TopicTree::new();
    tree.insert_client(&path(&["a"]), 1u64);
    tree.insert_client(&path(&["a"]), 2u64);
    let before: Vec<u64> = tree.get_clients_at_path(&path(&["a"])).unwrap().clone();
    assert!(tree.insert_client(&path(&["a"]), 3u64));
    assert!(tree.remove_client(&path(&["a"]), &3u64));
    assert_eq!(tree.get_clients_at_path(&path(&["a"])).unwrap(), &before);
    assert_eq!(tree.len(), 2);
}

#[test]
fn root_path_is_never_pruned() {
    let mut tree: TopicTree<u64> = TopicTree::default();
    assert!(tree.insert_client(&path(&[]), 5));
    assert!(tree.remove_client(&path(&[]), &5));
    assert!(tree.get_clients_at_path(&path(&[])).is_some());
    assert_eq!(tree.len(), 0);
}

#[test]
fn unsubscribe_undoes_subscribe_on_a_new_path() {
    let mut tree = TopicTree::new();
    tree.insert_client(&path(&["a"]), 1u64);
    assert!(tree.insert_client(&path(&["x", "y"]), 2u64));
    assert_eq!(tree.len(), 2);
    assert!(tree.remove_client(&path(&["x", "y"]), &2u64));
    assert_eq!(tree.len(), 1);
    assert_eq!(tree.get_clients_at_path(&path(&["a"])).unwrap(), &vec![1u64]);
    assert!(tree
        .get_clients_at_path(&path(&["x", "y"]))
        .map_or(true, |clients| clients.is_empty()));
}
