use splaytree::node::{Node, NodeId};
use splaytree::parent::Parent;

#[test]
fn node_new_stands_alone() {
    let node: Node<i32> = Node::new(7);
    assert!(node.parent().is_none());
    assert!(node.child(0).is_none());
    assert!(node.child(1).is_none());
    assert_eq!(node.size(), 1);
    assert_eq!(node.depth(), 1);
    assert_eq!(*node.value(), 7);
}

#[test]
fn node_mut_accessors_write_one_field() {
    let mut node: Node<i32> = Node::new(7);
    *node.child_mut(0) = Some(NodeId(3));
    *node.child_mut(1) = Some(NodeId(4));
    *node.parent_mut() = Some(Parent::R(NodeId(9)));
    *node.size_mut() = 3;
    *node.depth_mut() = 2;
    *node.value_mut() = 8;
    assert_eq!(node.child(0), Some(&NodeId(3)));
    assert_eq!(node.child(1), Some(&NodeId(4)));
    assert_eq!(node.parent(), Some(&Parent::R(NodeId(9))));
    assert_eq!(node.size(), 3);
    assert_eq!(node.depth(), 2);
    assert_eq!(*node.value(), 8);
}

#[test]
fn node_clone_keeps_fields() {
    let mut node: Node<i32> = Node::new(7);
    *node.child_mut(1) = Some(NodeId(4));
    let copy = node.clone();
    assert_eq!(copy.child(1), Some(&NodeId(4)));
    assert_eq!(*copy.value(), 7);
    assert_eq!(copy.size(), 1);
}

#[test]
fn parent_left_and_right() {
    let p = NodeId(5);
    assert_eq!(Parent::left(&p), Parent::L(NodeId(5)));
    assert_eq!(Parent::right(&p), Parent::R(NodeId(5)));
    assert_eq!(Parent::left(&p).dir(), 0);
    assert_eq!(Parent::right(&p).dir(), 1);
    assert_eq!(Parent::left(&p).get(), p);
    assert_eq!(Parent::right(&p).get(), p);
}

#[test]
fn parent_of_picks_the_side() {
    let p = NodeId(2);
    assert_eq!(Parent::of(&p, 0), Parent::L(NodeId(2)));
    assert_eq!(Parent::of(&p, 1), Parent::R(NodeId(2)));
    assert_eq!(Parent::of(&p, 1).dir(), 1);
    assert_eq!(Parent::of(&p, 0).get(), NodeId(2));
}
