use id_tree::InsertBehavior::AsRoot;
use id_tree::Node;
use id_tree::NodeIdError::NodeIdNoLongerValid;
use id_tree::RemoveBehavior::DropChildren;
use id_tree::RemoveBehavior::OrphanChildren;
use id_tree::VecTree;
use id_tree::VecTreeBuilder;

#[test]
fn test_old_node_id() {
    let mut tree: VecTree<i32> = VecTreeBuilder::new().build();

    let root_node = Node::new(1);

    let root_id = tree.insert(root_node, AsRoot).ok().unwrap();
    let root_id_copy = root_id.clone(); // this is essential to getting the Result::Err()

    let root_node = tree.remove(root_id, OrphanChildren);
    assert!(root_node.is_ok());

    let root_node_again = tree.remove(root_id_copy, OrphanChildren);
    assert!(root_node_again.is_err());

    let error = root_node_again.err().unwrap();
    assert_eq!(error, NodeIdNoLongerValid);
}

#[test]
fn test_ancestors_old_id() {
    let mut a = VecTree::new();

    let root_id = a.insert(Node::new(1), AsRoot).unwrap();
    // `.clone()` required to get this error
    let root_id_clone = root_id.clone();
    let _ = a.remove(root_id, DropChildren).unwrap();

    // note usage of cloned `NodeId`
    let ancestors = a.ancestors(&root_id_clone);

    assert!(ancestors.is_err());
    let error = ancestors.err().unwrap();
    assert_eq!(error, NodeIdNoLongerValid);
}

#[test]
fn test_ancestor_ids_old_id() {
    let mut a = VecTree::new();

    let root_id = a.insert(Node::new(1), AsRoot).unwrap();
    // `.clone()` required to get this error
    let root_id_clone = root_id.clone();
    let _ = a.remove(root_id, DropChildren).unwrap();

    // note usage of cloned `NodeId`
    let ancestors = a.ancestor_ids(&root_id_clone);

    assert!(ancestors.is_err());
    let error = ancestors.err().unwrap();
    assert_eq!(error, NodeIdNoLongerValid);
}

#[test]
fn test_children_old_id() {
    let mut a = VecTree::new();

    let root_id = a.insert(Node::new(1), AsRoot).unwrap();
    // `.clone()` required to get this error
    let root_id_clone = root_id.clone();
    let _ = a.remove(root_id, DropChildren).unwrap();

    // note usage of cloned `NodeId`
    let ancestors = a.children(&root_id_clone);

    assert!(ancestors.is_err());
    let error = ancestors.err().unwrap();
    assert_eq!(error, NodeIdNoLongerValid);
}

#[test]
fn test_children_ids_old_id() {
    let mut a = VecTree::new();

    let root_id = a.insert(Node::new(1), AsRoot).unwrap();
    // `.clone()` required to get this error
    let root_id_clone = root_id.clone();
    let _ = a.remove(root_id, DropChildren).unwrap();

    // note usage of cloned `NodeId`
    let ancestors = a.children_ids(&root_id_clone);

    assert!(ancestors.is_err());
    let error = ancestors.err().unwrap();
    assert_eq!(error, NodeIdNoLongerValid);
}
