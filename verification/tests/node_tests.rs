use btree_db::node::{InsertResult, Node, MAX_LEAF_NODES};

#[test]
fn test_leaf_inserts() {
    let mut n: Node<usize, usize> = Node::leaf();
    for i in 0..MAX_LEAF_NODES {
        assert!(matches!(n.insert_leaf(i, i), InsertResult::Success));
    }
    assert!(matches!(n.insert_leaf(0, 0), InsertResult::DuplicateKey));
    assert!(matches!(
        n.insert_leaf(MAX_LEAF_NODES + 1, 0),
        InsertResult::ParentSplit(..)
    ));
}
