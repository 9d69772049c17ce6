use id_tree::InsertBehavior::AsRoot;
use id_tree::InsertBehavior::UnderNode;
use id_tree::Node;
use id_tree::NodeId;
use id_tree::VecTree;
use std::cmp::Ordering;

//      0
//     / \
//    1   2
//   / \   \
//  3   4   5
//  |
//  6
fn sample() -> (VecTree<i32>, Vec<NodeId>) {
    let mut tree = VecTree::new();
    let zero = tree.insert(Node::new(0), AsRoot).unwrap();
    let one = tree.insert(Node::new(1), UnderNode(&zero)).unwrap();
    let two = tree.insert(Node::new(2), UnderNode(&zero)).unwrap();
    let three = tree.insert(Node::new(3), UnderNode(&one)).unwrap();
    let four = tree.insert(Node::new(4), UnderNode(&one)).unwrap();
    let five = tree.insert(Node::new(5), UnderNode(&two)).unwrap();
    let six = tree.insert(Node::new(6), UnderNode(&three)).unwrap();
    (tree, vec![zero, one, two, three, four, five, six])
}

fn payloads(nodes: Vec<&Node<i32>>) -> Vec<i32> {
    nodes.iter().map(|n| *n.data()).collect()
}

#[test]
fn pre_order_visits_a_node_before_its_subtrees() {
    let (tree, ids) = sample();
    assert_eq!(payloads(tree.traverse_pre_order(&ids[0]).unwrap()), vec![0, 1, 3, 6, 4, 2, 5]);
    assert_eq!(payloads(tree.traverse_pre_order(&ids[1]).unwrap()), vec![1, 3, 6, 4]);
    assert_eq!(payloads(tree.traverse_pre_order(&ids[5]).unwrap()), vec![5]);
    assert_eq!(
        tree.traverse_pre_order_ids(&ids[2]).unwrap(),
        vec![ids[2].clone(), ids[5].clone()]
    );
}

#[test]
fn post_order_visits_a_node_after_its_subtrees() {
    let (tree, ids) = sample();
    assert_eq!(payloads(tree.traverse_post_order(&ids[0]).unwrap()), vec![6, 3, 4, 1, 5, 2, 0]);
    assert_eq!(payloads(tree.traverse_post_order(&ids[1]).unwrap()), vec![6, 3, 4, 1]);
    assert_eq!(payloads(tree.traverse_post_order(&ids[6]).unwrap()), vec![6]);
    assert_eq!(
        tree.traverse_post_order_ids(&ids[2]).unwrap(),
        vec![ids[5].clone(), ids[2].clone()]
    );
}

#[test]
fn level_order_visits_generation_by_generation() {
    let (tree, ids) = sample();
    assert_eq!(payloads(tree.traverse_level_order(&ids[0]).unwrap()), vec![0, 1, 2, 3, 4, 5, 6]);
    assert_eq!(payloads(tree.traverse_level_order(&ids[1]).unwrap()), vec![1, 3, 4, 6]);
    assert_eq!(tree.traverse_level_order_ids(&ids[4]).unwrap(), vec![ids[4].clone()]);
}

#[test]
fn ancestors_lead_from_the_parent_to_the_root() {
    let (tree, ids) = sample();
    assert_eq!(payloads(tree.ancestors(&ids[6]).unwrap()), vec![3, 1, 0]);
    assert_eq!(
        tree.ancestor_ids(&ids[6]).unwrap(),
        vec![ids[3].clone(), ids[1].clone(), ids[0].clone()]
    );
    assert!(tree.ancestor_ids(&ids[0]).unwrap().is_empty());
    assert!(tree.ancestors(&ids[0]).unwrap().is_empty());
}

#[test]
fn children_come_in_stored_order() {
    let (tree, ids) = sample();
    assert_eq!(payloads(tree.children(&ids[0]).unwrap()), vec![1, 2]);
    assert_eq!(tree.children_ids(&ids[1]).unwrap(), vec![ids[3].clone(), ids[4].clone()]);
    assert!(tree.children_ids(&ids[6]).unwrap().is_empty());
    assert!(tree.children(&ids[6]).unwrap().is_empty());
}

fn with_children(values: &[i32]) -> (VecTree<i32>, NodeId) {
    let mut tree = VecTree::new();
    let root = tree.insert(Node::new(0), AsRoot).unwrap();
    for v in values {
        tree.insert(Node::new(*v), UnderNode(&root)).unwrap();
    }
    (tree, root)
}

#[test]
fn children_are_sorted_by_their_payload() {
    let (mut tree, root) = with_children(&[5, 1, 4, 1, 3]);
    let before = tree.children_ids(&root).unwrap();
    tree.sort_children_by_data(&root).unwrap();
    assert_eq!(payloads(tree.children(&root).unwrap()), vec![1, 1, 3, 4, 5]);
    // equal payloads keep their order
    let after = tree.children_ids(&root).unwrap();
    assert_eq!(after[0], before[1]);
    assert_eq!(after[1], before[3]);
    for id in &after {
        assert_eq!(tree.get(id).unwrap().parent(), Some(&root));
    }
}

#[test]
fn children_are_sorted_by_a_comparison() {
    let (mut tree, root) = with_children(&[2, 9, 4, 7]);
    tree.sort_children_by(&root, |a, b| b.data().cmp(a.data())).unwrap();
    assert_eq!(payloads(tree.children(&root).unwrap()), vec![9, 7, 4, 2]);

    // a comparison that never says greater leaves the order
    tree.sort_children_by(&root, |_, _| Ordering::Less).unwrap();
    assert_eq!(payloads(tree.children(&root).unwrap()), vec![9, 7, 4, 2]);
}

#[test]
fn children_are_sorted_by_a_key() {
    let (mut tree, root) = with_children(&[12, 3, 21, 40]);
    tree.sort_children_by_key(&root, |n| *n.data() % 10).unwrap();
    assert_eq!(payloads(tree.children(&root).unwrap()), vec![40, 21, 12, 3]);

    let (mut lone, top) = with_children(&[]);
    lone.sort_children_by_key(&top, |n| *n.data()).unwrap();
    assert!(lone.children_ids(&top).unwrap().is_empty());
}
