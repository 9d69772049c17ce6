use id_tree::InsertBehavior::AsRoot;
use id_tree::InsertBehavior::UnderNode;
use id_tree::MoveBehavior::ToParent;
use id_tree::MoveBehavior::ToRoot;
use id_tree::Node;
use id_tree::NodeId;
use id_tree::RemoveBehavior::LiftChildren;
use id_tree::RemoveBehavior::OrphanChildren;
use id_tree::SwapBehavior::ChildrenOnly;
use id_tree::SwapBehavior::LeaveChildren;
use id_tree::SwapBehavior::TakeChildren;
use id_tree::VecTree;
use id_tree::VecTreeBuilder;


#[test]
fn vec_tree_test_new() {
    let tb: VecTreeBuilder<i32> = VecTreeBuilder::new();
    assert!(tb.root.is_none());
    assert_eq!(tb.node_capacity, 0);
    assert_eq!(tb.swap_capacity, 0);

    let tree: VecTree<i32> = VecTree::new();

    assert_eq!(tree.root_node_id(), None);
    assert_eq!(tree.slot_count(), 0);
    assert_eq!(tree.free_count(), 0);
}

#[test]
fn vec_tree_test_with_root() {
    let tb: VecTreeBuilder<i32> = VecTreeBuilder::new().with_root(Node::new(5));

    assert_eq!(tb.root.unwrap().data(), &5);
    assert_eq!(tb.node_capacity, 0);
    assert_eq!(tb.swap_capacity, 0);
}

#[test]
fn vec_tree_test_with_node_capacity() {
    let tb: VecTreeBuilder<i32> = VecTreeBuilder::new().with_node_capacity(10);

    assert!(tb.root.is_none());
    assert_eq!(tb.node_capacity, 10);
    assert_eq!(tb.swap_capacity, 0);
}

#[test]
fn vec_tree_test_with_swap_capacity() {
    let tb: VecTreeBuilder<i32> = VecTreeBuilder::new().with_swap_capacity(10);

    assert!(tb.root.is_none());
    assert_eq!(tb.node_capacity, 0);
    assert_eq!(tb.swap_capacity, 10);
}

#[test]
fn vec_tree_test_with_all_settings() {
    let tb: VecTreeBuilder<i32> = VecTreeBuilder::new()
        .with_root(Node::new(5))
        .with_node_capacity(10)
        .with_swap_capacity(3);

    assert_eq!(tb.root.unwrap().data(), &5);
    assert_eq!(tb.node_capacity, 10);
    assert_eq!(tb.swap_capacity, 3);
}

#[test]
fn vec_tree_test_build() {
    let tree = VecTreeBuilder::new()
        .with_root(Node::new(5))
        .with_node_capacity(10)
        .with_swap_capacity(3)
        .build();

    let root = tree.get(tree.root_node_id().unwrap()).unwrap();

    assert_eq!(root.data(), &5);
    assert_eq!(tree.node_capacity(), 10);
    assert_eq!(tree.swap_capacity(), 3);
}




#[test]
fn vec_tree_test_get() {
    let tree = VecTreeBuilder::new().with_root(Node::new(5)).build();

    let root_id = tree.root_node_id().cloned().unwrap();
    let root = tree.get(&root_id).unwrap();

    assert_eq!(root.data(), &5);
}

#[test]
fn vec_tree_test_get_mut() {
    let mut tree = VecTreeBuilder::new().with_root(Node::new(5)).build();

    let root_id = tree.root_node_id().cloned().unwrap();

    {
        let root = tree.get(&root_id).unwrap();
        assert_eq!(root.data(), &5);
    }

    {
        let root = tree.get_mut(&root_id).unwrap();
        *root.data_mut() = 6;
    }

    let root = tree.get(&root_id).unwrap();
    assert_eq!(root.data(), &6);
}

#[test]
fn vec_tree_test_set_root() {
    let a = 5;
    let b = 6;
    let node_a = Node::new(a);
    let node_b = Node::new(b);

    let mut tree = VecTreeBuilder::new().build();

    let node_a_id = tree.insert(node_a, AsRoot).unwrap();
    let root_id = tree.root_node_id().cloned().unwrap();
    assert_eq!(node_a_id, root_id);

    {
        let node_a_ref = tree.get(&node_a_id).unwrap();
        let root_ref = tree.get(&root_id).unwrap();
        assert_eq!(node_a_ref.data(), &a);
        assert_eq!(root_ref.data(), &a);
    }

    let node_b_id = tree.insert(node_b, AsRoot).unwrap();
    let root_id = tree.root_node_id().cloned().unwrap();
    assert_eq!(node_b_id, root_id);

    {
        let node_b_ref = tree.get(&node_b_id).unwrap();
        let root_ref = tree.get(&root_id).unwrap();
        assert_eq!(node_b_ref.data(), &b);
        assert_eq!(root_ref.data(), &b);

        let node_b_child_id = node_b_ref.children().get(0).unwrap();
        let node_b_child_ref = tree.get(&node_b_child_id).unwrap();
        assert_eq!(node_b_child_ref.data(), &a);
    }
}

#[test]
fn vec_tree_test_root_node_id() {
    let tree = VecTreeBuilder::new().with_root(Node::new(5)).build();

    let root_id = tree.root_node_id().cloned().unwrap();
    let root_node_id = tree.root_node_id().unwrap();

    assert_eq!(&root_id, root_node_id);
}

#[test]
fn test_insert_under_node() {
    let a = 1;
    let b = 2;
    let r = 5;

    let mut tree = VecTreeBuilder::new().with_root(Node::new(r)).build();

    let node_a = Node::new(a);
    let node_b = Node::new(b);

    let root_id = tree.root_node_id().cloned().unwrap();
    let node_a_id = tree.insert(node_a, UnderNode(&root_id)).unwrap();
    let node_b_id = tree.insert(node_b, UnderNode(&root_id)).unwrap();

    let node_a_ref = tree.get(&node_a_id).unwrap();
    let node_b_ref = tree.get(&node_b_id).unwrap();
    assert_eq!(node_a_ref.data(), &a);
    assert_eq!(node_b_ref.data(), &b);

    assert_eq!(node_a_ref.parent().unwrap().clone(), root_id);
    assert_eq!(node_b_ref.parent().unwrap().clone(), root_id);

    let root_node_ref = tree.get(&root_id).unwrap();
    let root_children: &Vec<NodeId> = root_node_ref.children();

    let child_1_id = root_children.get(0).unwrap();
    let child_2_id = root_children.get(1).unwrap();

    let child_1_ref = tree.get(&child_1_id).unwrap();
    let child_2_ref = tree.get(&child_2_id).unwrap();

    assert_eq!(child_1_ref.data(), &a);
    assert_eq!(child_2_ref.data(), &b);
}

#[test]
fn test_remove_lift_children() {
    let mut tree = VecTreeBuilder::new().with_root(Node::new(5)).build();

    let root_id = tree.root_node_id().cloned().unwrap();

    let node_1_id = tree.insert(Node::new(1), UnderNode(&root_id)).unwrap();
    let node_2_id = tree.insert(Node::new(2), UnderNode(&node_1_id)).unwrap();
    let node_3_id = tree.insert(Node::new(3), UnderNode(&node_1_id)).unwrap();

    let node_1 = tree.remove(node_1_id.clone(), LiftChildren).unwrap();

    assert_eq!(Some(&root_id), tree.root_node_id());

    assert_eq!(node_1.data(), &1);
    assert_eq!(node_1.children().len(), 0);
    assert!(node_1.parent().is_none());
    assert!(tree.get(&node_1_id).is_err());

    let root_ref = tree.get(&root_id).unwrap();
    let node_2_ref = tree.get(&node_2_id).unwrap();
    let node_3_ref = tree.get(&node_3_id).unwrap();

    assert_eq!(node_2_ref.data(), &2);
    assert_eq!(node_3_ref.data(), &3);

    assert_eq!(node_2_ref.parent().unwrap(), &root_id);
    assert_eq!(node_3_ref.parent().unwrap(), &root_id);

    assert!(root_ref.children().contains(&node_2_id));
    assert!(root_ref.children().contains(&node_3_id));
}

#[test]
fn test_remove_orphan_children() {
    let mut tree = VecTreeBuilder::new().with_root(Node::new(5)).build();

    let root_id = tree.root_node_id().cloned().unwrap();

    let node_1_id = tree.insert(Node::new(1), UnderNode(&root_id)).unwrap();
    let node_2_id = tree.insert(Node::new(2), UnderNode(&node_1_id)).unwrap();
    let node_3_id = tree.insert(Node::new(3), UnderNode(&node_1_id)).unwrap();

    let node_1 = tree.remove(node_1_id.clone(), OrphanChildren).unwrap();

    assert_eq!(Some(&root_id), tree.root_node_id());

    assert_eq!(node_1.data(), &1);
    assert_eq!(node_1.children().len(), 0);
    assert!(node_1.parent().is_none());
    assert!(tree.get(&node_1_id).is_err());

    let node_2_ref = tree.get(&node_2_id).unwrap();
    let node_3_ref = tree.get(&node_3_id).unwrap();

    assert_eq!(node_2_ref.data(), &2);
    assert_eq!(node_3_ref.data(), &3);

    assert!(node_2_ref.parent().is_none());
    assert!(node_3_ref.parent().is_none());
}

#[test]
fn test_remove_root() {
    let mut tree = VecTreeBuilder::new().with_root(Node::new(5)).build();

    let root_id = tree.root_node_id().cloned().unwrap();
    tree.remove(root_id.clone(), OrphanChildren).unwrap();
    assert_eq!(None, tree.root_node_id());

    let mut tree = VecTreeBuilder::new().with_root(Node::new(5)).build();

    let root_id = tree.root_node_id().cloned().unwrap();
    tree.remove(root_id.clone(), LiftChildren).unwrap();
    assert_eq!(None, tree.root_node_id());
}

#[test]
fn test_move_node_to_parent() {
    let mut tree = VecTree::new();

    let root_id = tree.insert(Node::new(0), AsRoot).unwrap();
    let node_1_id = tree.insert(Node::new(1), UnderNode(&root_id)).unwrap();
    let node_2_id = tree.insert(Node::new(2), UnderNode(&root_id)).unwrap();
    let node_3_id = tree.insert(Node::new(3), UnderNode(&node_1_id)).unwrap();

    // move 3 "across" the tree
    tree.move_node(&node_3_id, ToParent(&node_2_id)).unwrap();
    assert!(tree.get(&root_id).unwrap().children().contains(&node_1_id));
    assert!(tree.get(&root_id).unwrap().children().contains(&node_2_id));
    assert!(tree.get(&node_2_id).unwrap().children().contains(
        &node_3_id,
    ));

    // move 3 "up" the tree
    tree.move_node(&node_3_id, ToParent(&root_id)).unwrap();
    assert!(tree.get(&root_id).unwrap().children().contains(&node_1_id));
    assert!(tree.get(&root_id).unwrap().children().contains(&node_2_id));
    assert!(tree.get(&root_id).unwrap().children().contains(&node_3_id));

    // move 3 "down" (really this is across though) the tree
    tree.move_node(&node_3_id, ToParent(&node_1_id)).unwrap();
    assert!(tree.get(&root_id).unwrap().children().contains(&node_1_id));
    assert!(tree.get(&root_id).unwrap().children().contains(&node_2_id));
    assert!(tree.get(&node_1_id).unwrap().children().contains(
        &node_3_id,
    ));

    // move 1 "down" the tree
    tree.move_node(&node_1_id, ToParent(&node_3_id)).unwrap();
    assert!(tree.get(&root_id).unwrap().children().contains(&node_2_id));
    assert!(tree.get(&root_id).unwrap().children().contains(&node_3_id));
    assert!(tree.get(&node_3_id).unwrap().children().contains(
        &node_1_id,
    ));

    // note: node_1 is at the lowest point in the tree before these insertions.
    let node_4_id = tree.insert(Node::new(4), UnderNode(&node_1_id)).unwrap();
    let node_5_id = tree.insert(Node::new(5), UnderNode(&node_4_id)).unwrap();

    // move 3 "down" the tree
    tree.move_node(&node_3_id, ToParent(&node_5_id)).unwrap();
    assert!(tree.get(&root_id).unwrap().children().contains(&node_2_id));
    assert!(tree.get(&root_id).unwrap().children().contains(&node_1_id));
    assert!(tree.get(&node_1_id).unwrap().children().contains(
        &node_4_id,
    ));
    assert!(tree.get(&node_4_id).unwrap().children().contains(
        &node_5_id,
    ));
    assert!(tree.get(&node_5_id).unwrap().children().contains(
        &node_3_id,
    ));

    // move root "down" the tree
    tree.move_node(&root_id, ToParent(&node_2_id)).unwrap();
    assert!(tree.get(&node_2_id).unwrap().children().contains(&root_id));
    assert!(tree.get(&root_id).unwrap().children().contains(&node_1_id));
    assert!(tree.get(&node_1_id).unwrap().children().contains(
        &node_4_id,
    ));
    assert!(tree.get(&node_4_id).unwrap().children().contains(
        &node_5_id,
    ));
    assert!(tree.get(&node_5_id).unwrap().children().contains(
        &node_3_id,
    ));
    assert_eq!(tree.root_node_id(), Some(&node_2_id));
}

#[test]
fn test_move_node_to_root() {
    // test move with existing root
    {
        let mut tree = VecTree::new();
        let root_id = tree.insert(Node::new(0), AsRoot).unwrap();
        let node_1_id = tree.insert(Node::new(1), UnderNode(&root_id)).unwrap();
        let node_2_id = tree.insert(Node::new(2), UnderNode(&node_1_id)).unwrap();

        tree.move_node_to_root(&node_2_id).unwrap();

        assert_eq!(tree.root_node_id(), Some(&node_2_id));
        assert!(tree.get(&node_2_id).unwrap().children().contains(&root_id));
        assert!(!tree.get(&node_1_id).unwrap().children().contains(
            &node_2_id,
        ));
    }

    // test move with existing root and with orphan
    {
        let mut tree = VecTree::new();
        let root_id = tree.insert(Node::new(0), AsRoot).unwrap();
        let node_1_id = tree.insert(Node::new(1), UnderNode(&root_id)).unwrap();
        let node_2_id = tree.insert(Node::new(2), UnderNode(&node_1_id)).unwrap();

        tree.remove_node_orphan_children(node_1_id).unwrap();
        tree.move_node_to_root(&node_2_id).unwrap();

        assert_eq!(tree.root_node_id(), Some(&node_2_id));
        assert!(tree.get(&node_2_id).unwrap().children().contains(&root_id));
        assert_eq!(tree.get(&root_id).unwrap().children().len(), 0);
    }

    // test move without root and with orphan
    {
        let mut tree = VecTree::new();
        let root_id = tree.insert(Node::new(0), AsRoot).unwrap();
        let node_1_id = tree.insert(Node::new(1), UnderNode(&root_id)).unwrap();
        let node_2_id = tree.insert(Node::new(2), UnderNode(&node_1_id)).unwrap();

        tree.remove_node_orphan_children(root_id).unwrap();
        tree.move_node_to_root(&node_1_id).unwrap();

        assert_eq!(tree.root_node_id(), Some(&node_1_id));
        assert!(tree.get(&node_1_id).unwrap().children().contains(
            &node_2_id,
        ));
        assert_eq!(tree.get(&node_1_id).unwrap().children().len(), 1);
    }
}

#[test]
fn test_find_subtree_root_below_upper_id() {
    let mut tree = VecTree::new();

    let root_id = tree.insert(Node::new(0), AsRoot).unwrap();
    let node_1_id = tree.insert(Node::new(1), UnderNode(&root_id)).unwrap();
    let node_2_id = tree.insert(Node::new(2), UnderNode(&node_1_id)).unwrap();
    let node_3_id = tree.insert(Node::new(3), UnderNode(&node_1_id)).unwrap();
    let node_4_id = tree.insert(Node::new(4), UnderNode(&node_2_id)).unwrap();

    let sub_root = tree.find_subtree_root_between_ids(&node_1_id, &root_id);
    assert_eq!(sub_root, Some(&node_1_id));
    let sub_root = tree.find_subtree_root_between_ids(&root_id, &node_1_id); //invert for None
    assert_eq!(sub_root, None);

    let sub_root = tree.find_subtree_root_between_ids(&node_2_id, &root_id);
    assert_eq!(sub_root, Some(&node_1_id));
    let sub_root = tree.find_subtree_root_between_ids(&root_id, &node_2_id); //invert for None
    assert_eq!(sub_root, None);

    let sub_root = tree.find_subtree_root_between_ids(&node_3_id, &node_1_id);
    assert_eq!(sub_root, Some(&node_3_id));
    let sub_root = tree.find_subtree_root_between_ids(&node_1_id, &node_3_id); //invert for None
    assert_eq!(sub_root, None);

    let sub_root = tree.find_subtree_root_between_ids(&node_4_id, &root_id);
    assert_eq!(sub_root, Some(&node_1_id));
    let sub_root = tree.find_subtree_root_between_ids(&root_id, &node_4_id); //invert for None
    assert_eq!(sub_root, None);
}

#[test]
fn test_swap_nodes_take_children() {
    // test across swap
    {
        let mut tree = VecTree::new();
        let root_id = tree.insert(Node::new(0), AsRoot).unwrap();
        let node_1_id = tree.insert(Node::new(1), UnderNode(&root_id)).unwrap();
        let node_2_id = tree.insert(Node::new(2), UnderNode(&root_id)).unwrap();
        let node_3_id = tree.insert(Node::new(3), UnderNode(&node_1_id)).unwrap();
        let node_4_id = tree.insert(Node::new(4), UnderNode(&node_2_id)).unwrap();

        tree.swap_nodes(&node_3_id, &node_4_id, TakeChildren)
            .unwrap();

        assert!(tree.get(&node_1_id).unwrap().children().contains(
            &node_4_id,
        ));
        assert!(tree.get(&node_2_id).unwrap().children().contains(
            &node_3_id,
        ));
    }

    // test ordering via swap
    {
        let mut tree = VecTree::new();
        let root_id = tree.insert(Node::new(0), AsRoot).unwrap();
        let node_1_id = tree.insert(Node::new(1), UnderNode(&root_id)).unwrap();
        let node_2_id = tree.insert(Node::new(2), UnderNode(&root_id)).unwrap();

        tree.swap_nodes(&node_1_id, &node_2_id, TakeChildren)
            .unwrap();

        let children = tree.get(&root_id).unwrap().children();
        assert!(children[0] == node_2_id);
        assert!(children[1] == node_1_id);
    }

    // test swap down
    {
        let mut tree = VecTree::new();
        let root_id = tree.insert(Node::new(0), AsRoot).unwrap();
        let node_1_id = tree.insert(Node::new(1), UnderNode(&root_id)).unwrap();
        let node_2_id = tree.insert(Node::new(2), UnderNode(&root_id)).unwrap();
        let node_3_id = tree.insert(Node::new(3), UnderNode(&node_1_id)).unwrap();

        tree.swap_nodes(&root_id, &node_3_id, TakeChildren).unwrap();

        assert_eq!(tree.root_node_id(), Some(&node_3_id));

        assert!(tree.get(&node_3_id).unwrap().children().contains(&root_id));

        let children = tree.get(&root_id).unwrap().children();
        assert!(children[0] == node_1_id);
        assert!(children[1] == node_2_id);
    }

    // test swap down without root
    {
        let mut tree = VecTree::new();
        let root_id = tree.insert(Node::new(0), AsRoot).unwrap();
        let node_1_id = tree.insert(Node::new(1), UnderNode(&root_id)).unwrap();
        let node_2_id = tree.insert(Node::new(2), UnderNode(&root_id)).unwrap();
        let node_3_id = tree.insert(Node::new(3), UnderNode(&node_1_id)).unwrap();

        tree.swap_nodes(&node_1_id, &node_3_id, TakeChildren)
            .unwrap();

        assert!(tree.get(&node_3_id).unwrap().children().contains(
            &node_1_id,
        ));

        let children = tree.get(&root_id).unwrap().children();
        assert!(children[0] == node_3_id);
        assert!(children[1] == node_2_id);
    }
}

#[test]
fn test_swap_nodes_leave_children() {
    // test across swap
    // from:
    //        0
    //       / \
    //      1   2
    //      |   |
    //      3   4
    // to:
    //        0
    //       / \
    //      2   1
    //      |   |
    //      3   4
    {
        let mut tree = VecTree::new();
        let root_id = tree.insert(Node::new(0), AsRoot).unwrap();
        let node_1_id = tree.insert(Node::new(1), UnderNode(&root_id)).unwrap();
        let node_2_id = tree.insert(Node::new(2), UnderNode(&root_id)).unwrap();
        let node_3_id = tree.insert(Node::new(3), UnderNode(&node_1_id)).unwrap();
        let node_4_id = tree.insert(Node::new(4), UnderNode(&node_2_id)).unwrap();

        tree.swap_nodes(&node_1_id, &node_2_id, LeaveChildren)
            .unwrap();

        let root_children = tree.get(&root_id).unwrap().children();
        assert_eq!(root_children[0], node_2_id);
        assert_eq!(root_children[1], node_1_id);

        assert_eq!(tree.get(&node_3_id).unwrap().parent(), Some(&node_2_id));
        assert_eq!(tree.get(&node_4_id).unwrap().parent(), Some(&node_1_id));

        assert!(tree.get(&node_1_id).unwrap().children().contains(
            &node_4_id,
        ));
        assert!(tree.get(&node_2_id).unwrap().children().contains(
            &node_3_id,
        ));
    }

    // test down swap (with no space between nodes)
    // from:
    //        0
    //       / \
    //      1   2
    //      |   |
    //      3   4
    // to:
    //        0
    //       / \
    //      3   2
    //      |   |
    //      1   4
    {
        let mut tree = VecTree::new();
        let root_id = tree.insert(Node::new(0), AsRoot).unwrap();
        let node_1_id = tree.insert(Node::new(1), UnderNode(&root_id)).unwrap();
        let node_2_id = tree.insert(Node::new(2), UnderNode(&root_id)).unwrap();
        let node_3_id = tree.insert(Node::new(3), UnderNode(&node_1_id)).unwrap();
        tree.insert(Node::new(4), UnderNode(&node_2_id)).unwrap();

        tree.swap_nodes(&node_1_id, &node_3_id, LeaveChildren)
            .unwrap();

        let root_children = tree.get(&root_id).unwrap().children();
        assert_eq!(root_children[0], node_3_id);
        assert_eq!(root_children[1], node_2_id);

        assert_eq!(tree.get(&node_3_id).unwrap().parent(), Some(&root_id));
        assert_eq!(tree.get(&node_1_id).unwrap().parent(), Some(&node_3_id));

        assert!(tree.get(&node_3_id).unwrap().children().contains(
            &node_1_id,
        ));
        assert_eq!(tree.get(&node_1_id).unwrap().children().len(), 0);
    }

    // test down swap (with space between nodes)
    // from:
    //        0
    //       / \
    //      1   2
    //      |   |
    //      3   4
    //      |
    //      5
    // to:
    //        0
    //       / \
    //      5   2
    //      |   |
    //      3   4
    //      |
    //      1
    {
        let mut tree = VecTree::new();
        let root_id = tree.insert(Node::new(0), AsRoot).unwrap();
        let node_1_id = tree.insert(Node::new(1), UnderNode(&root_id)).unwrap();
        let node_2_id = tree.insert(Node::new(2), UnderNode(&root_id)).unwrap();
        let node_3_id = tree.insert(Node::new(3), UnderNode(&node_1_id)).unwrap();
        tree.insert(Node::new(4), UnderNode(&node_2_id)).unwrap();
        let node_5_id = tree.insert(Node::new(5), UnderNode(&node_3_id)).unwrap();

        tree.swap_nodes(&node_1_id, &node_5_id, LeaveChildren)
            .unwrap();

        let root_children = tree.get(&root_id).unwrap().children();
        assert_eq!(root_children[0], node_5_id);
        assert_eq!(root_children[1], node_2_id);

        assert_eq!(tree.get(&node_3_id).unwrap().parent(), Some(&node_5_id));
        assert_eq!(tree.get(&node_1_id).unwrap().parent(), Some(&node_3_id));
        assert_eq!(tree.get(&node_5_id).unwrap().parent(), Some(&root_id));

        assert!(tree.get(&node_3_id).unwrap().children().contains(
            &node_1_id,
        ));
        assert!(tree.get(&node_5_id).unwrap().children().contains(
            &node_3_id,
        ));
        assert_eq!(tree.get(&node_1_id).unwrap().children().len(), 0);
    }

    // test down swap (with root)
    // from:
    //        0
    //       / \
    //      1   2
    //      |   |
    //      3   4
    // to:
    //        4
    //       / \
    //      1   2
    //      |   |
    //      3   0
    {
        let mut tree = VecTree::new();
        let root_id = tree.insert(Node::new(0), AsRoot).unwrap();
        let node_1_id = tree.insert(Node::new(1), UnderNode(&root_id)).unwrap();
        let node_2_id = tree.insert(Node::new(2), UnderNode(&root_id)).unwrap();
        tree.insert(Node::new(3), UnderNode(&node_1_id)).unwrap();
        let node_4_id = tree.insert(Node::new(4), UnderNode(&node_2_id)).unwrap();

        tree.swap_nodes(&root_id, &node_4_id, LeaveChildren)
            .unwrap();

        assert_eq!(tree.root_node_id(), Some(&node_4_id));

        let node_4_children = tree.get(&node_4_id).unwrap().children();
        assert_eq!(node_4_children[0], node_1_id);
        assert_eq!(node_4_children[1], node_2_id);

        assert_eq!(tree.get(&node_1_id).unwrap().parent(), Some(&node_4_id));
        assert_eq!(tree.get(&node_2_id).unwrap().parent(), Some(&node_4_id));
        assert_eq!(tree.get(&root_id).unwrap().parent(), Some(&node_2_id));

        assert!(tree.get(&node_2_id).unwrap().children().contains(&root_id));
        assert_eq!(tree.get(&root_id).unwrap().children().len(), 0);
    }

    // test orphaned swap (no root)
    // from:
    //      1   2
    //      |   |
    //      3   4
    // to:
    //      2   1
    //      |   |
    //      3   4
    {
        let mut tree = VecTree::new();
        let root_id = tree.insert(Node::new(0), AsRoot).unwrap();
        let node_1_id = tree.insert(Node::new(1), UnderNode(&root_id)).unwrap();
        let node_2_id = tree.insert(Node::new(2), UnderNode(&root_id)).unwrap();
        let node_3_id = tree.insert(Node::new(3), UnderNode(&node_1_id)).unwrap();
        let node_4_id = tree.insert(Node::new(4), UnderNode(&node_2_id)).unwrap();
        tree.remove(root_id, OrphanChildren).unwrap();

        tree.swap_nodes(&node_1_id, &node_2_id, LeaveChildren)
            .unwrap();

        assert_eq!(tree.root_node_id(), None);

        assert_eq!(tree.get(&node_3_id).unwrap().parent(), Some(&node_2_id));
        assert_eq!(tree.get(&node_4_id).unwrap().parent(), Some(&node_1_id));

        assert!(tree.get(&node_2_id).unwrap().children().contains(
            &node_3_id,
        ));
        assert!(tree.get(&node_1_id).unwrap().children().contains(
            &node_4_id,
        ));
    }

    // test orphaned swap (1 is root)
    // from:
    //      1   2
    //      |   |
    //      3   4
    // to:
    //      2   1
    //      |   |
    //      3   4
    {
        let mut tree = VecTree::new();
        let root_id = tree.insert(Node::new(0), AsRoot).unwrap();
        let node_1_id = tree.insert(Node::new(1), UnderNode(&root_id)).unwrap();
        let node_2_id = tree.insert(Node::new(2), UnderNode(&root_id)).unwrap();
        let node_3_id = tree.insert(Node::new(3), UnderNode(&node_1_id)).unwrap();
        let node_4_id = tree.insert(Node::new(4), UnderNode(&node_2_id)).unwrap();
        tree.remove(root_id, OrphanChildren).unwrap();
        tree.move_node(&node_1_id, ToRoot).unwrap();

        tree.swap_nodes(&node_1_id, &node_2_id, LeaveChildren)
            .unwrap();

        assert_eq!(tree.root_node_id(), Some(&node_2_id));

        assert_eq!(tree.get(&node_3_id).unwrap().parent(), Some(&node_2_id));
        assert_eq!(tree.get(&node_4_id).unwrap().parent(), Some(&node_1_id));

        assert!(tree.get(&node_2_id).unwrap().children().contains(
            &node_3_id,
        ));
        assert!(tree.get(&node_1_id).unwrap().children().contains(
            &node_4_id,
        ));
    }
}

#[test]
fn test_swap_nodes_children_only() {
    // test across swap
    // swap(1,2)
    // from:
    //        0
    //       / \
    //      1   2
    //     / \   \
    //    3   4   5
    // to:
    //        0
    //       / \
    //      1   2
    //     /   / \
    //    5   3   4
    {
        let mut tree = VecTree::new();
        let root_id = tree.insert(Node::new(0), AsRoot).unwrap();
        let node_1_id = tree.insert(Node::new(1), UnderNode(&root_id)).unwrap();
        let node_2_id = tree.insert(Node::new(2), UnderNode(&root_id)).unwrap();
        let node_3_id = tree.insert(Node::new(3), UnderNode(&node_1_id)).unwrap();
        let node_4_id = tree.insert(Node::new(4), UnderNode(&node_1_id)).unwrap();
        let node_5_id = tree.insert(Node::new(5), UnderNode(&node_2_id)).unwrap();

        tree.swap_nodes(&node_1_id, &node_2_id, ChildrenOnly)
            .unwrap();

        let root_children = tree.get(&root_id).unwrap().children();
        assert_eq!(root_children[0], node_1_id);
        assert_eq!(root_children[1], node_2_id);

        assert_eq!(tree.get(&node_3_id).unwrap().parent(), Some(&node_2_id));
        assert_eq!(tree.get(&node_4_id).unwrap().parent(), Some(&node_2_id));
        assert_eq!(tree.get(&node_5_id).unwrap().parent(), Some(&node_1_id));

        assert!(tree.get(&node_1_id).unwrap().children().contains(
            &node_5_id,
        ));
        assert!(tree.get(&node_2_id).unwrap().children().contains(
            &node_3_id,
        ));
        assert!(tree.get(&node_2_id).unwrap().children().contains(
            &node_4_id,
        ));
    }

    // test down swap (with no space between nodes)
    // swap(1,3)
    // from:
    //        0
    //       / \
    //      1   2
    //     / \   \
    //    3   4   5
    //    |   |
    //    6   7
    // to:
    //        0
    //       / \
    //      1   2
    //     / \   \
    //    6   3   5
    //        |
    //        4
    //        |
    //        7
    {
        let mut tree = VecTree::new();
        let root_id = tree.insert(Node::new(0), AsRoot).unwrap();
        let node_1_id = tree.insert(Node::new(1), UnderNode(&root_id)).unwrap();
        let node_2_id = tree.insert(Node::new(2), UnderNode(&root_id)).unwrap();
        let node_3_id = tree.insert(Node::new(3), UnderNode(&node_1_id)).unwrap();
        let node_4_id = tree.insert(Node::new(4), UnderNode(&node_1_id)).unwrap();
        tree.insert(Node::new(5), UnderNode(&node_2_id)).unwrap();
        let node_6_id = tree.insert(Node::new(6), UnderNode(&node_3_id)).unwrap();
        tree.insert(Node::new(7), UnderNode(&node_4_id)).unwrap();

        tree.swap_nodes(&node_1_id, &node_3_id, ChildrenOnly)
            .unwrap();

        let root_children = tree.get(&root_id).unwrap().children();
        assert_eq!(root_children[0], node_1_id);
        assert_eq!(root_children[1], node_2_id);

        assert_eq!(tree.get(&node_3_id).unwrap().parent(), Some(&node_1_id));
        assert_eq!(tree.get(&node_1_id).unwrap().parent(), Some(&root_id));
        assert_eq!(tree.get(&node_4_id).unwrap().parent(), Some(&node_3_id));
        assert_eq!(tree.get(&node_6_id).unwrap().parent(), Some(&node_1_id));

        let node_1_children = tree.get(&node_1_id).unwrap().children();
        assert_eq!(node_1_children[0], node_6_id);
        assert_eq!(node_1_children[1], node_3_id);
        assert!(tree.get(&node_3_id).unwrap().children().contains(
            &node_4_id,
        ));
    }

    // test down swap (with space between nodes)
    // swap(1, 6)
    // from:
    //        0
    //       / \
    //      1   2
    //     / \   \
    //    3   4   5
    //    |   |
    //    6   7
    // to:
    //        0
    //       / \
    //      1   2
    //     /     \
    //    6       5
    //   / \
    //  3   4
    //      |
    //      7
    {
        let mut tree = VecTree::new();
        let root_id = tree.insert(Node::new(0), AsRoot).unwrap();
        let node_1_id = tree.insert(Node::new(1), UnderNode(&root_id)).unwrap();
        let node_2_id = tree.insert(Node::new(2), UnderNode(&root_id)).unwrap();
        let node_3_id = tree.insert(Node::new(3), UnderNode(&node_1_id)).unwrap();
        let node_4_id = tree.insert(Node::new(4), UnderNode(&node_1_id)).unwrap();
        tree.insert(Node::new(5), UnderNode(&node_2_id)).unwrap();
        let node_6_id = tree.insert(Node::new(6), UnderNode(&node_3_id)).unwrap();
        tree.insert(Node::new(7), UnderNode(&node_4_id)).unwrap();

        tree.swap_nodes(&node_1_id, &node_6_id, ChildrenOnly)
            .unwrap();

        let root_children = tree.get(&root_id).unwrap().children();
        assert_eq!(root_children[0], node_1_id);
        assert_eq!(root_children[1], node_2_id);

        assert_eq!(tree.get(&node_3_id).unwrap().parent(), Some(&node_6_id));
        assert_eq!(tree.get(&node_4_id).unwrap().parent(), Some(&node_6_id));
        assert_eq!(tree.get(&node_6_id).unwrap().parent(), Some(&node_1_id));

        assert!(tree.get(&node_1_id).unwrap().children().contains(
            &node_6_id,
        ));
        assert!(!tree.get(&node_1_id).unwrap().children().contains(
            &node_3_id,
        ));
        assert!(!tree.get(&node_1_id).unwrap().children().contains(
            &node_4_id,
        ));
        assert!(tree.get(&node_6_id).unwrap().children().contains(
            &node_3_id,
        ));
        assert!(tree.get(&node_6_id).unwrap().children().contains(
            &node_4_id,
        ));
    }

    // test down swap (with root)
    // swap(0,1)
    // from:
    //        0
    //       / \
    //      1   2
    //     / \   \
    //    3   4   5
    //    |   |
    //    6   7
    // to:
    //        0
    //       /|\
    //      3 4 1
    //      | | |
    //      6 7 2
    //          |
    //          5
    {
        let mut tree = VecTree::new();
        let root_id = tree.insert(Node::new(0), AsRoot).unwrap();
        let node_1_id = tree.insert(Node::new(1), UnderNode(&root_id)).unwrap();
        let node_2_id = tree.insert(Node::new(2), UnderNode(&root_id)).unwrap();
        let node_3_id = tree.insert(Node::new(3), UnderNode(&node_1_id)).unwrap();
        let node_4_id = tree.insert(Node::new(4), UnderNode(&node_1_id)).unwrap();
        tree.insert(Node::new(5), UnderNode(&node_2_id)).unwrap();
        tree.insert(Node::new(6), UnderNode(&node_3_id)).unwrap();
        tree.insert(Node::new(7), UnderNode(&node_4_id)).unwrap();

        tree.swap_nodes(&root_id, &node_1_id, ChildrenOnly).unwrap();

        let root_children = tree.get(&root_id).unwrap().children();
        assert_eq!(root_children[0], node_3_id);
        assert_eq!(root_children[1], node_4_id);
        assert_eq!(root_children[2], node_1_id);

        assert_eq!(tree.get(&node_1_id).unwrap().parent(), Some(&root_id));
        assert_eq!(tree.get(&node_3_id).unwrap().parent(), Some(&root_id));
        assert_eq!(tree.get(&node_4_id).unwrap().parent(), Some(&root_id));
        assert_eq!(tree.get(&node_2_id).unwrap().parent(), Some(&node_1_id));

        let node_1_children = tree.get(&node_1_id).unwrap().children();
        assert_eq!(node_1_children[0], node_2_id);
    }
}
