use id_tree::InsertBehavior::AsRoot;
use id_tree::InsertBehavior::UnderNode;
use id_tree::MoveBehavior::ToParent;
use id_tree::MoveBehavior::ToRoot;
use id_tree::Node;
use id_tree::NodeId;
use id_tree::NodeIdError::InvalidNodeIdForTree;
use id_tree::NodeIdError::NodeIdNoLongerValid;
use id_tree::RemoveBehavior::DropChildren;
use id_tree::RemoveBehavior::LiftChildren;
use id_tree::RemoveBehavior::OrphanChildren;
use id_tree::SwapBehavior::ChildrenOnly;
use id_tree::SwapBehavior::LeaveChildren;
use id_tree::SwapBehavior::TakeChildren;
use id_tree::Tree;
use id_tree::TreeBuilder;
use id_tree::VecTree;

// root -> 1 -> {2, 3}
fn chain_with_fork() -> (VecTree<i32>, NodeId, NodeId, NodeId, NodeId) {
    let mut tree = VecTree::new();
    let root = tree.insert(Node::new(0), AsRoot).unwrap();
    let one = tree.insert(Node::new(1), UnderNode(&root)).unwrap();
    let two = tree.insert(Node::new(2), UnderNode(&one)).unwrap();
    let three = tree.insert(Node::new(3), UnderNode(&one)).unwrap();
    (tree, root, one, two, three)
}

// Every listed node mirrors its links, reaches the root, and is not its
// own ancestor.
fn assert_one_tree(tree: &VecTree<i32>, live: &[NodeId]) {
    let root = tree.root_node_id().cloned().unwrap();
    assert!(tree.get(&root).unwrap().parent().is_none());
    for id in live {
        let node = tree.get(id).unwrap();
        for child in node.children() {
            assert_eq!(tree.get(child).unwrap().parent(), Some(id));
        }
        if let Some(parent) = node.parent() {
            let listed = tree.get(parent).unwrap().children();
            assert_eq!(listed.iter().filter(|c| *c == id).count(), 1);
        }
        let ancestors = tree.ancestor_ids(id).unwrap();
        assert!(!ancestors.contains(id));
        if *id == root {
            assert!(ancestors.is_empty());
        } else {
            assert_eq!(ancestors.last(), Some(&root));
        }
    }
    let all = tree.traverse_pre_order_ids(&root).unwrap();
    assert_eq!(all.len(), live.len());
    for id in live {
        assert!(all.contains(id));
    }
}

#[test]
fn single_root_and_mirrored_links_after_each_operation() {
    let (mut tree, root, one, two, three) = chain_with_fork();
    assert_one_tree(&tree, &[root, one, two, three]);

    let four = tree.insert(Node::new(4), UnderNode(&two)).unwrap();
    assert_one_tree(&tree, &[root, one, two, three, four]);

    tree.move_node(&one, ToParent(&four)).unwrap();
    assert_one_tree(&tree, &[root, one, two, three, four]);

    tree.move_node(&three, ToRoot).unwrap();
    assert_eq!(tree.root_node_id(), Some(&three));
    assert_one_tree(&tree, &[root, one, two, three, four]);

    tree.swap_nodes(&three, &four, TakeChildren).unwrap();
    assert_one_tree(&tree, &[root, one, two, three, four]);

    tree.swap_nodes(&root, &one, LeaveChildren).unwrap();
    assert_one_tree(&tree, &[root, one, two, three, four]);

    tree.swap_nodes(&two, &three, ChildrenOnly).unwrap();
    assert_one_tree(&tree, &[root, one, two, three, four]);

    let top = tree.insert(Node::new(5), AsRoot).unwrap();
    assert_one_tree(&tree, &[root, one, two, three, four, top]);

    tree.remove(two, LiftChildren).unwrap();
    assert_one_tree(&tree, &[root, one, three, four, top]);

    let gone = tree.traverse_pre_order_ids(&one).unwrap();
    tree.remove(one, DropChildren).unwrap();
    let left: Vec<NodeId> = [root, three, four, top]
        .iter()
        .filter(|id| !gone.contains(id))
        .cloned()
        .collect();
    assert_one_tree(&tree, &left);
}

#[test]
fn removed_handle_is_refused_by_every_operation() {
    let (mut tree, root, one, _two, three) = chain_with_fork();
    let stale = three.clone();
    tree.remove(three, OrphanChildren).unwrap();

    assert_eq!(tree.get(&stale).err(), Some(NodeIdNoLongerValid));
    assert_eq!(tree.get_mut(&stale).err(), Some(NodeIdNoLongerValid));
    assert_eq!(tree.insert(Node::new(9), UnderNode(&stale)).err(), Some(NodeIdNoLongerValid));
    assert_eq!(tree.remove(stale.clone(), DropChildren).err(), Some(NodeIdNoLongerValid));
    assert_eq!(tree.remove(stale.clone(), LiftChildren).err(), Some(NodeIdNoLongerValid));
    assert_eq!(tree.move_node(&stale, ToRoot).err(), Some(NodeIdNoLongerValid));
    assert_eq!(tree.move_node(&stale, ToParent(&root)).err(), Some(NodeIdNoLongerValid));
    assert_eq!(tree.move_node(&one, ToParent(&stale)).err(), Some(NodeIdNoLongerValid));
    assert_eq!(tree.swap_nodes(&stale, &one, TakeChildren).err(), Some(NodeIdNoLongerValid));
    assert_eq!(tree.swap_nodes(&one, &stale, LeaveChildren).err(), Some(NodeIdNoLongerValid));
    assert_eq!(tree.swap_nodes(&one, &stale, ChildrenOnly).err(), Some(NodeIdNoLongerValid));
    assert_eq!(tree.sort_children_by_data(&stale).err(), Some(NodeIdNoLongerValid));
    assert_eq!(tree.traverse_pre_order_ids(&stale).err(), Some(NodeIdNoLongerValid));
    assert_eq!(tree.traverse_post_order_ids(&stale).err(), Some(NodeIdNoLongerValid));
    assert_eq!(tree.traverse_level_order_ids(&stale).err(), Some(NodeIdNoLongerValid));
    assert!(tree.traverse_pre_order(&stale).is_err());
    assert!(tree.traverse_post_order(&stale).is_err());
    assert!(tree.traverse_level_order(&stale).is_err());

    // nothing was changed by the refused calls
    assert_eq!(tree.get(&root).unwrap().children(), &vec![one.clone()]);
    assert_eq!(tree.root_node_id(), Some(&root));
}

#[test]
fn removed_handle_is_stale_in_every_mode() {
    for mode in [DropChildren, LiftChildren, OrphanChildren] {
        let (mut tree, _root, one, _two, _three) = chain_with_fork();
        let stale = one.clone();
        let node = tree.remove(one, mode).unwrap();
        assert_eq!(node.data(), &1);
        assert!(node.parent().is_none());
        assert!(node.children().is_empty());
        assert_eq!(tree.get(&stale).err(), Some(NodeIdNoLongerValid));
    }
}

#[test]
fn handle_of_another_tree_is_refused() {
    let (mut a, a_root, a_one, _, _) = chain_with_fork();
    let (b, b_root, b_one, _, _) = chain_with_fork();

    assert_eq!(a.get(&b_root).err(), Some(InvalidNodeIdForTree));
    assert_eq!(a.get_mut(&b_one).err(), Some(InvalidNodeIdForTree));
    assert_eq!(a.insert(Node::new(9), UnderNode(&b_root)).err(), Some(InvalidNodeIdForTree));
    assert_eq!(a.remove(b_one.clone(), DropChildren).err(), Some(InvalidNodeIdForTree));
    assert_eq!(a.move_node(&b_one, ToRoot).err(), Some(InvalidNodeIdForTree));
    assert_eq!(a.move_node(&a_one, ToParent(&b_root)).err(), Some(InvalidNodeIdForTree));
    assert_eq!(a.swap_nodes(&a_one, &b_one, TakeChildren).err(), Some(InvalidNodeIdForTree));
    assert_eq!(a.swap_nodes(&b_one, &a_one, LeaveChildren).err(), Some(InvalidNodeIdForTree));
    assert_eq!(a.sort_children_by_data(&b_root).err(), Some(InvalidNodeIdForTree));
    assert_eq!(a.ancestor_ids(&b_one).err(), Some(InvalidNodeIdForTree));
    assert_eq!(a.children_ids(&b_one).err(), Some(InvalidNodeIdForTree));
    assert_eq!(a.traverse_pre_order_ids(&b_one).err(), Some(InvalidNodeIdForTree));
    assert_eq!(a.traverse_post_order_ids(&b_one).err(), Some(InvalidNodeIdForTree));
    assert_eq!(a.traverse_level_order_ids(&b_one).err(), Some(InvalidNodeIdForTree));

    // a handle of the tree itself is accepted, and the other tree accepts its own
    assert_eq!(a.get(&a_root).unwrap().data(), &0);
    assert_eq!(b.get(&b_one).unwrap().data(), &1);
    assert_ne!(a_root, b_root);
}

#[test]
fn handle_of_another_basic_tree_is_refused() {
    let mut a: Tree<i32> = TreeBuilder::new().with_root(Node::new(1)).build();
    let b: Tree<i32> = TreeBuilder::new().with_root(Node::new(2)).build();
    let b_root = b.root_node_id().cloned().unwrap();

    assert!(a.get(&b_root).is_none());
    assert!(a.get_mut(&b_root).is_none());
    assert_eq!(a.insert_with_parent(Node::new(3), &b_root).err(), Some(InvalidNodeIdForTree));
    assert_eq!(a.remove_node_lift_children(b_root.clone()).err(), Some(InvalidNodeIdForTree));
    assert_eq!(a.remove_node_orphan_children(b_root.clone()).err(), Some(InvalidNodeIdForTree));
    assert_eq!(a.slot_count(), 1);
}

#[test]
fn removal_modes_part_the_descendants() {
    // lift
    {
        let (mut tree, root, one, two, three) = chain_with_fork();
        tree.remove(one, LiftChildren).unwrap();
        assert_eq!(tree.get(&root).unwrap().children(), &vec![two.clone(), three.clone()]);
        assert_eq!(tree.get(&two).unwrap().parent(), Some(&root));
        assert_eq!(tree.get(&three).unwrap().parent(), Some(&root));
        assert_eq!(tree.root_node_id(), Some(&root));
    }
    // orphan
    {
        let (mut tree, root, one, two, three) = chain_with_fork();
        tree.remove(one, OrphanChildren).unwrap();
        assert!(tree.get(&two).unwrap().parent().is_none());
        assert!(tree.get(&three).unwrap().parent().is_none());
        assert!(tree.get(&root).unwrap().children().is_empty());
        assert_eq!(tree.root_node_id(), Some(&root));
    }
    // drop
    {
        let (mut tree, root, one, two, three) = chain_with_fork();
        let stale = one.clone();
        tree.remove(one, DropChildren).unwrap();
        assert!(tree.get(&stale).is_err());
        assert!(tree.get(&two).is_err());
        assert!(tree.get(&three).is_err());
        assert!(tree.get(&root).unwrap().children().is_empty());
        assert_eq!(tree.traverse_pre_order_ids(&root).unwrap(), vec![root.clone()]);
        assert_eq!(tree.free_count(), 3);
        assert_eq!(tree.slot_count(), 4);
    }
}

#[test]
fn removing_the_root_clears_it_in_every_mode() {
    for mode in [DropChildren, LiftChildren, OrphanChildren] {
        let (mut tree, root, one, _two, _three) = chain_with_fork();
        tree.remove(root, mode).unwrap();
        assert_eq!(tree.root_node_id(), None);
        if mode == DropChildren {
            assert!(tree.get(&one).is_err());
        } else {
            assert!(tree.get(&one).unwrap().parent().is_none());
        }
    }
}

#[test]
fn lift_appends_the_children_after_the_siblings() {
    let (mut tree, root, one, two, three) = chain_with_fork();
    let late = tree.insert(Node::new(7), UnderNode(&root)).unwrap();
    tree.remove(one, LiftChildren).unwrap();
    assert_eq!(tree.get(&root).unwrap().children(), &vec![late, two, three]);
}

#[test]
fn basic_tree_lifts_children_into_the_parent() {
    let mut tree: Tree<i32> = TreeBuilder::new().with_root(Node::new(0)).build();
    let root = tree.root_node_id().cloned().unwrap();
    let one = tree.insert_with_parent(Node::new(1), &root).unwrap();
    let two = tree.insert_with_parent(Node::new(2), &one).unwrap();
    let three = tree.insert_with_parent(Node::new(3), &one).unwrap();

    let node = tree.remove_node_lift_children(one.clone()).unwrap();
    assert_eq!(node.data(), &1);
    assert!(node.children().is_empty());
    assert!(tree.get(&one).is_none());
    assert_eq!(tree.get(&root).unwrap().children(), &vec![two.clone(), three.clone()]);
    assert_eq!(tree.get(&two).unwrap().parent(), Some(&root));
    assert_eq!(tree.get(&three).unwrap().parent(), Some(&root));
    assert_eq!(tree.remove_node_lift_children(one).err(), Some(NodeIdNoLongerValid));

    // without a parent the children are left without one, and the root is gone
    let gone = tree.remove_node_lift_children(root).unwrap();
    assert_eq!(gone.data(), &0);
    assert_eq!(tree.root_node_id(), None);
    assert!(tree.get(&two).unwrap().parent().is_none());
    assert_eq!(tree.free_count(), 2);
}

#[test]
fn moving_the_root_down_keeps_one_root_and_no_cycle() {
    // 0 -> {1 -> 3, 2}
    let mut tree = VecTree::new();
    let zero = tree.insert(Node::new(0), AsRoot).unwrap();
    let one = tree.insert(Node::new(1), UnderNode(&zero)).unwrap();
    let two = tree.insert(Node::new(2), UnderNode(&zero)).unwrap();
    let three = tree.insert(Node::new(3), UnderNode(&one)).unwrap();

    tree.move_node(&zero, ToParent(&two)).unwrap();

    assert_eq!(tree.root_node_id(), Some(&two));
    assert_eq!(tree.get(&two).unwrap().children(), &vec![zero.clone()]);
    assert_eq!(tree.get(&zero).unwrap().children(), &vec![one.clone()]);
    assert_eq!(tree.get(&zero).unwrap().parent(), Some(&two));
    assert!(tree.get(&two).unwrap().parent().is_none());
    assert_one_tree(&tree, &[zero, one, two, three]);
}

#[test]
fn moving_a_node_under_itself_changes_nothing() {
    let (mut tree, root, one, two, three) = chain_with_fork();
    tree.move_node(&one, ToParent(&one)).unwrap();
    assert_eq!(tree.get(&one).unwrap().parent(), Some(&root));
    assert_eq!(tree.get(&one).unwrap().children(), &vec![two.clone(), three.clone()]);
    assert_eq!(tree.get(&root).unwrap().children(), &vec![one.clone()]);
    tree.move_node(&root, ToRoot).unwrap();
    assert_eq!(tree.root_node_id(), Some(&root));
    assert!(tree.get(&root).unwrap().parent().is_none());
    assert_one_tree(&tree, &[root, one, two, three]);
}

#[test]
fn moving_down_puts_the_pivot_last_under_the_old_parent() {
    // 0 -> {1 -> {2 -> 4, 3}, 5}; move 1 under 4
    let mut tree = VecTree::new();
    let zero = tree.insert(Node::new(0), AsRoot).unwrap();
    let one = tree.insert(Node::new(1), UnderNode(&zero)).unwrap();
    let two = tree.insert(Node::new(2), UnderNode(&one)).unwrap();
    let three = tree.insert(Node::new(3), UnderNode(&one)).unwrap();
    let four = tree.insert(Node::new(4), UnderNode(&two)).unwrap();
    let five = tree.insert(Node::new(5), UnderNode(&zero)).unwrap();

    tree.move_node(&one, ToParent(&four)).unwrap();

    assert_eq!(tree.get(&zero).unwrap().children(), &vec![five.clone(), two.clone()]);
    assert_eq!(tree.get(&two).unwrap().parent(), Some(&zero));
    assert_eq!(tree.get(&four).unwrap().children(), &vec![one.clone()]);
    assert_eq!(tree.get(&one).unwrap().children(), &vec![three.clone()]);
    assert_one_tree(&tree, &[zero, one, two, three, four, five]);
}

#[test]
fn moving_the_root_into_another_tree_hands_the_root_on() {
    let (mut tree, root, one, two, three) = chain_with_fork();
    // 1 leaves, 2 and 3 stand alone
    tree.remove(one, OrphanChildren).unwrap();
    let four = tree.insert(Node::new(4), UnderNode(&two)).unwrap();
    tree.move_node(&root, ToParent(&four)).unwrap();

    assert_eq!(tree.root_node_id(), Some(&two));
    assert_eq!(tree.get(&root).unwrap().parent(), Some(&four));
    assert!(tree.get(&two).unwrap().parent().is_none());
    assert!(tree.get(&three).unwrap().parent().is_none());
}

#[test]
fn take_children_swap_of_siblings_reorders_the_children() {
    let mut tree = VecTree::new();
    let root = tree.insert(Node::new(0), AsRoot).unwrap();
    let one = tree.insert(Node::new(1), UnderNode(&root)).unwrap();
    let two = tree.insert(Node::new(2), UnderNode(&root)).unwrap();

    tree.swap_nodes(&one, &two, TakeChildren).unwrap();
    assert_eq!(tree.get(&root).unwrap().children(), &vec![two.clone(), one.clone()]);

    tree.swap_nodes(&one, &one, TakeChildren).unwrap();
    assert_eq!(tree.get(&root).unwrap().children(), &vec![two, one]);
}

#[test]
fn take_children_swap_with_a_node_without_parent() {
    let (mut tree, root, one, two, three) = chain_with_fork();
    // 1 leaves, 2 and 3 stand alone; 4 hangs under 2
    tree.remove(one, OrphanChildren).unwrap();
    let four = tree.insert(Node::new(4), UnderNode(&two)).unwrap();

    tree.swap_nodes(&three, &four, TakeChildren).unwrap();
    assert_eq!(tree.get(&two).unwrap().children(), &vec![three.clone()]);
    assert_eq!(tree.get(&three).unwrap().parent(), Some(&two));
    assert!(tree.get(&four).unwrap().parent().is_none());
    assert_eq!(tree.root_node_id(), Some(&root));

    // the root hands the root on to the node that takes its place
    tree.swap_nodes(&root, &three, TakeChildren).unwrap();
    assert_eq!(tree.root_node_id(), Some(&three));
    assert_eq!(tree.get(&root).unwrap().parent(), Some(&two));
    assert!(tree.get(&three).unwrap().parent().is_none());
    assert_eq!(tree.get(&two).unwrap().children(), &vec![root]);
}

#[test]
fn children_only_swap_never_makes_a_node_its_own_child() {
    // 0 -> {1 -> {3 -> 6, 4 -> 7}, 2 -> 5}
    let mut tree = VecTree::new();
    let zero = tree.insert(Node::new(0), AsRoot).unwrap();
    let one = tree.insert(Node::new(1), UnderNode(&zero)).unwrap();
    let two = tree.insert(Node::new(2), UnderNode(&zero)).unwrap();
    let three = tree.insert(Node::new(3), UnderNode(&one)).unwrap();
    let four = tree.insert(Node::new(4), UnderNode(&one)).unwrap();
    let five = tree.insert(Node::new(5), UnderNode(&two)).unwrap();
    let six = tree.insert(Node::new(6), UnderNode(&three)).unwrap();
    let seven = tree.insert(Node::new(7), UnderNode(&four)).unwrap();
    let all = [zero, one, two, three, four, five, six, seven];

    // one level apart, then two levels apart, then with the root
    for (upper, lower) in [(1, 3), (1, 6), (0, 1), (6, 1)] {
        tree.swap_nodes(&all[upper], &all[lower], ChildrenOnly).unwrap();
        for id in [&all[upper], &all[lower]] {
            assert!(!tree.get(id).unwrap().children().contains(id));
            let below = tree.traverse_pre_order_ids(id).unwrap();
            assert_eq!(below.iter().filter(|x| *x == id).count(), 1);
        }
        assert_one_tree(&tree, &all);
    }
}

#[test]
fn children_only_swap_two_levels_apart_unlists_the_lower_node() {
    // 1 -> 3 -> 6: after the swap 6 hangs under 1 and nowhere else
    let mut tree = VecTree::new();
    let zero = tree.insert(Node::new(0), AsRoot).unwrap();
    let one = tree.insert(Node::new(1), UnderNode(&zero)).unwrap();
    let three = tree.insert(Node::new(3), UnderNode(&one)).unwrap();
    let four = tree.insert(Node::new(4), UnderNode(&one)).unwrap();
    let six = tree.insert(Node::new(6), UnderNode(&three)).unwrap();

    tree.swap_nodes(&one, &six, ChildrenOnly).unwrap();

    assert_eq!(tree.get(&one).unwrap().children(), &vec![six.clone()]);
    assert_eq!(tree.get(&six).unwrap().children(), &vec![three.clone(), four.clone()]);
    assert!(tree.get(&three).unwrap().children().is_empty());
    assert_eq!(tree.get(&six).unwrap().parent(), Some(&one));
}

#[test]
fn repeated_reads_agree() {
    let (tree, _root, one, two, three) = chain_with_fork();
    let first = tree.get(&one).unwrap();
    let second = tree.get(&one).unwrap();
    assert_eq!(first.data(), second.data());
    assert_eq!(first.parent(), second.parent());
    assert_eq!(first.children(), second.children());
    assert_eq!(first.children(), &vec![two, three]);
    assert_eq!(tree.root_node_id(), tree.root_node_id());
}

#[test]
fn vacant_slots_are_reused_last_vacated_first() {
    let (mut tree, root, one, two, three) = chain_with_fork();
    let (old_two, old_three) = (two.clone(), three.clone());
    tree.remove(two, OrphanChildren).unwrap();
    tree.remove(three, OrphanChildren).unwrap();
    assert_eq!(tree.free_count(), 2);

    let first = tree.insert(Node::new(8), UnderNode(&one)).unwrap();
    let second = tree.insert(Node::new(9), UnderNode(&one)).unwrap();
    let third = tree.insert(Node::new(10), UnderNode(&root)).unwrap();

    assert_eq!(first, old_three);
    assert_eq!(second, old_two);
    assert_ne!(third, old_two);
    assert_ne!(third, old_three);
    assert_eq!(tree.free_count(), 0);
    assert_eq!(tree.slot_count(), 5);
    // the old handle now names the new occupant
    assert_eq!(tree.get(&old_three).unwrap().data(), &8);
}

#[test]
fn inserting_a_used_node_stores_the_payload_only() {
    let (mut tree, root, one, _two, _three) = chain_with_fork();
    let removed = tree.remove(one, OrphanChildren).unwrap();
    let again = tree.insert(removed, UnderNode(&root)).unwrap();
    let node = tree.get(&again).unwrap();
    assert_eq!(node.data(), &1);
    assert!(node.children().is_empty());
    assert_eq!(node.parent(), Some(&root));
}

#[test]
fn payload_can_be_replaced() {
    let (mut tree, _root, one, two, three) = chain_with_fork();
    let was = tree.get_mut(&one).unwrap().replace_data(11);
    assert_eq!(was, 1);
    let node = tree.get(&one).unwrap();
    assert_eq!(node.data(), &11);
    assert_eq!(node.children(), &vec![two, three]);
}

#[test]
fn issued_handles_stay_in_range() {
    let (mut a, root, one, two, three) = chain_with_fork();
    let (b, b_root, _, _, _) = chain_with_fork();
    for id in [&root, &one, &two, &three] {
        assert!(a.in_range(id));
    }
    let stale = three.clone();
    a.remove(three, DropChildren).unwrap();
    assert!(a.in_range(&stale));
    // a handle of another tree is not held to this tree's slots
    assert!(a.in_range(&b_root));
    assert!(b.in_range(&root));
}

#[test]
fn dropped_slots_are_vacated_in_post_order() {
    // 0 -> 1 -> {2 -> 4, 3}
    let (mut tree, root, one, two, three) = chain_with_fork();
    let four = tree.insert(Node::new(4), UnderNode(&two)).unwrap();
    let old: Vec<NodeId> = vec![four, two, three, one.clone()];
    tree.remove(one, DropChildren).unwrap();
    assert_eq!(tree.free_count(), 4);

    // the last vacated slot is reused first
    for expected in old.iter().rev() {
        let id = tree.insert(Node::new(9), UnderNode(&root)).unwrap();
        assert_eq!(&id, expected);
    }
    assert_eq!(tree.free_count(), 0);
    assert_eq!(tree.slot_count(), 5);
}
