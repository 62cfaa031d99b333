use splaytree::forest::Forest;
use splaytree::helper::{DefaultHelper, Helper};
use splaytree::new_splaytree_node;
use splaytree::node::NodeId;
use splaytree::parent::Parent;
use splaytree::wrapper::Wrapper;

type Plain = Forest<i32, DefaultHelper>;

fn inorder<T: Copy, H: Helper<T>>(forest: &Forest<T, H>, id: NodeId, out: &mut Vec<T>) {
    if let Some(left) = forest.child(id, 0) {
        inorder(forest, left, out);
    }
    out.push(*forest.value(id));
    if let Some(right) = forest.child(id, 1) {
        inorder(forest, right, out);
    }
}

fn values<T: Copy, H: Helper<T>>(forest: &Forest<T, H>, id: NodeId) -> Vec<T> {
    let mut out = Vec::new();
    inorder(forest, id, &mut out);
    out
}

fn links(forest: &Plain, ids: &[NodeId]) -> Vec<(Option<Parent>, Option<NodeId>, Option<NodeId>)> {
    ids.iter().map(|&id| (forest.parent(id), forest.child(id, 0), forest.child(id, 1))).collect()
}

/// Checks size, depth and the mutual links of every node below `id`;
/// returns size and depth of `id`.
fn check<T, H: Helper<T>>(forest: &Forest<T, H>, id: NodeId) -> (usize, usize) {
    let mut size = 1;
    let mut depth = 0;
    for dir in 0..2 {
        if let Some(child) = forest.child(id, dir) {
            assert_eq!(forest.parent(child), Some(Parent::of(&id, dir)));
            let (s, d) = check(forest, child);
            size += s;
            depth = depth.max(d);
        }
    }
    assert_eq!(forest.size(id), size);
    assert_eq!(forest.depth(id), depth + 1);
    (size, depth + 1)
}

fn check_all<T, H: Helper<T>>(forest: &Forest<T, H>, ids: &[NodeId]) {
    for &id in ids {
        check(forest, id);
        if let Some(link) = forest.parent(id) {
            assert_eq!(forest.child(link.get(), link.dir()), Some(id));
        }
    }
}

/// The tree
///         5
///       3   8
///      1 4
fn five(forest: &mut Plain) -> Vec<NodeId> {
    let ids: Vec<NodeId> =
        [5, 3, 8, 1, 4].iter().map(|&v| new_splaytree_node(forest, v)).collect();
    forest.set_child(ids[0], 0, Some(ids[1]));
    forest.set_child(ids[0], 1, Some(ids[2]));
    forest.set_child(ids[1], 0, Some(ids[3]));
    forest.set_child(ids[1], 1, Some(ids[4]));
    ids
}

/// A chain of the values 1 to `n`, each the right child of the one before.
fn chain(forest: &mut Plain, n: i32) -> Vec<NodeId> {
    let ids: Vec<NodeId> = (1..=n).map(|v| new_splaytree_node(forest, v)).collect();
    for pair in ids.windows(2) {
        forest.set_child(pair[0], 1, Some(pair[1]));
    }
    ids
}

#[test]
fn make_tree() {
    let mut forest: Plain = Forest::new();
    let x = new_splaytree_node(&mut forest, 1);
    let y = new_splaytree_node(&mut forest, 2);
    println!("{:?}", x);
    println!("{:?}", y);
    assert_ne!(x, y);
    assert!(forest.has(x));
    assert!(forest.has(y));
    assert!(!forest.has(NodeId(2)));
}

#[test]
fn new_node_is_a_leaf_and_a_root() {
    let mut forest: Plain = Forest::new();
    let x = new_splaytree_node(&mut forest, 1);
    assert!(forest.is_root(x));
    assert_eq!(forest.parent(x), None);
    assert_eq!(forest.child(x, 0), None);
    assert_eq!(forest.child(x, 1), None);
    assert_eq!(forest.size(x), 1);
    assert_eq!(forest.depth(x), 1);
    assert_eq!(*forest.value(x), 1);
    assert_eq!(forest.get(x).size(), 1);
}

#[test]
fn set_child_links_both_ways() {
    let mut forest: Plain = Forest::new();
    let ids = five(&mut forest);
    assert_eq!(forest.child(ids[0], 0), Some(ids[1]));
    assert_eq!(forest.child(ids[0], 1), Some(ids[2]));
    assert_eq!(forest.parent(ids[1]), Some(Parent::L(ids[0])));
    assert_eq!(forest.parent(ids[2]), Some(Parent::R(ids[0])));
    assert_eq!(forest.parent(ids[4]), Some(Parent::R(ids[1])));
    assert!(forest.is_root(ids[0]));
    assert!(!forest.is_root(ids[3]));
    assert_eq!(forest.size(ids[0]), 5);
    assert_eq!(forest.depth(ids[0]), 3);
    assert_eq!(forest.size(ids[1]), 3);
    assert_eq!(forest.depth(ids[1]), 2);
    assert_eq!(values(&forest, ids[0]), vec![1, 3, 4, 5, 8]);
    check_all(&forest, &ids);
}

#[test]
fn set_child_detaches_what_was_there() {
    let mut forest: Plain = Forest::new();
    let ids = five(&mut forest);
    let extra = new_splaytree_node(&mut forest, 9);
    forest.set_child(ids[0], 1, Some(extra));
    assert_eq!(forest.child(ids[0], 1), Some(extra));
    assert_eq!(forest.parent(ids[2]), None);
    assert_eq!(forest.parent(extra), Some(Parent::R(ids[0])));
    assert_eq!(values(&forest, ids[0]), vec![1, 3, 4, 5, 9]);
    assert_eq!(forest.size(ids[2]), 1);
    check_all(&forest, &ids);
    check(&forest, extra);
}

#[test]
fn set_child_moves_a_subtree_from_its_parent() {
    let mut forest: Plain = Forest::new();
    let ids = five(&mut forest);
    // Move the subtree of 3 (with 1 and 4) under 8, on the left.
    forest.set_child(ids[2], 0, Some(ids[1]));
    assert_eq!(forest.child(ids[0], 0), None);
    assert_eq!(forest.parent(ids[1]), Some(Parent::L(ids[2])));
    assert_eq!(forest.size(ids[0]), 5);
    assert_eq!(forest.depth(ids[0]), 4);
    assert_eq!(forest.size(ids[2]), 4);
    assert_eq!(values(&forest, ids[0]), vec![5, 1, 3, 4, 8]);
    check_all(&forest, &ids);
}

#[test]
fn set_child_with_the_same_child_changes_nothing() {
    let mut forest: Plain = Forest::new();
    let ids = five(&mut forest);
    let before = links(&forest, &ids);
    forest.set_child(ids[0], 0, Some(ids[1]));
    assert_eq!(links(&forest, &ids), before);
    assert_eq!(forest.size(ids[0]), 5);
    check_all(&forest, &ids);
}

#[test]
fn set_child_none_empties_the_slot() {
    let mut forest: Plain = Forest::new();
    let ids = five(&mut forest);
    forest.set_child(ids[0], 0, None);
    assert_eq!(forest.child(ids[0], 0), None);
    assert!(forest.is_root(ids[1]));
    assert_eq!(forest.size(ids[0]), 2);
    assert_eq!(forest.depth(ids[0]), 2);
    assert_eq!(forest.size(ids[1]), 3);
    assert_eq!(values(&forest, ids[0]), vec![5, 8]);
    assert_eq!(values(&forest, ids[1]), vec![1, 3, 4]);
    check_all(&forest, &ids);
}

#[test]
fn take_child_returns_the_child() {
    let mut forest: Plain = Forest::new();
    let ids = five(&mut forest);
    assert_eq!(forest.take_child(ids[1], 1), Some(ids[4]));
    assert_eq!(forest.take_child(ids[1], 1), None);
    assert!(forest.is_root(ids[4]));
    assert_eq!(forest.child(ids[1], 1), None);
    assert_eq!(forest.size(ids[0]), 4);
    assert_eq!(forest.size(ids[1]), 2);
    assert_eq!(values(&forest, ids[0]), vec![1, 3, 5, 8]);
    check_all(&forest, &ids);
}

#[test]
fn take_parent_returns_the_link() {
    let mut forest: Plain = Forest::new();
    let ids = five(&mut forest);
    assert_eq!(forest.take_parent(ids[1]), Some(Parent::L(ids[0])));
    assert_eq!(forest.take_parent(ids[1]), None);
    assert_eq!(forest.take_parent(ids[0]), None);
    assert_eq!(forest.child(ids[0], 0), None);
    assert_eq!(forest.size(ids[0]), 2);
    assert_eq!(forest.depth(ids[0]), 2);
    assert_eq!(forest.depth(ids[1]), 2);
    check_all(&forest, &ids);
}

#[test]
fn set_parent_attaches_and_detaches() {
    let mut forest: Plain = Forest::new();
    let ids = five(&mut forest);
    let extra = new_splaytree_node(&mut forest, 7);
    forest.set_parent(extra, Some(Parent::L(ids[2])));
    assert_eq!(forest.child(ids[2], 0), Some(extra));
    assert_eq!(forest.parent(extra), Some(Parent::L(ids[2])));
    assert_eq!(values(&forest, ids[0]), vec![1, 3, 4, 5, 7, 8]);
    assert_eq!(forest.size(ids[0]), 6);
    forest.set_parent(extra, None);
    assert_eq!(forest.parent(extra), None);
    assert_eq!(forest.child(ids[2], 0), None);
    assert_eq!(forest.size(ids[0]), 5);
    check_all(&forest, &ids);
}

#[test]
fn is_at_or_above_follows_the_parents() {
    let mut forest: Plain = Forest::new();
    let ids = five(&mut forest);
    assert!(forest.is_at_or_above(ids[0], ids[4]));
    assert!(forest.is_at_or_above(ids[1], ids[4]));
    assert!(forest.is_at_or_above(ids[4], ids[4]));
    assert!(!forest.is_at_or_above(ids[4], ids[1]));
    assert!(!forest.is_at_or_above(ids[2], ids[4]));
    assert!(!forest.is_at_or_above(ids[3], ids[4]));
}

#[test]
fn rotate_returns_the_child_that_comes_up() {
    let mut forest: Plain = Forest::new();
    let ids = five(&mut forest);
    // Direction 1 brings the left child up.
    let up = forest.rotate(ids[0], 1);
    assert_eq!(up, ids[1]);
    assert!(forest.is_root(ids[1]));
    assert_eq!(forest.parent(ids[0]), Some(Parent::R(ids[1])));
    assert_eq!(forest.child(ids[1], 1), Some(ids[0]));
    assert_eq!(forest.child(ids[1], 0), Some(ids[3]));
    // 4 was the right child of 3 and is handed over to 5.
    assert_eq!(forest.child(ids[0], 0), Some(ids[4]));
    assert_eq!(forest.parent(ids[4]), Some(Parent::L(ids[0])));
    assert_eq!(forest.child(ids[0], 1), Some(ids[2]));
    assert_eq!(forest.size(ids[1]), 5);
    assert_eq!(forest.size(ids[0]), 3);
    assert_eq!(forest.depth(ids[1]), 3);
    assert_eq!(forest.depth(ids[0]), 2);
    check_all(&forest, &ids);
}

#[test]
fn rotate_below_the_root_rehomes_the_child() {
    let mut forest: Plain = Forest::new();
    let ids = five(&mut forest);
    // Direction 0 brings the right child up: 4 takes the place of 3.
    let up = forest.rotate(ids[1], 0);
    assert_eq!(up, ids[4]);
    assert_eq!(forest.child(ids[0], 0), Some(ids[4]));
    assert_eq!(forest.parent(ids[4]), Some(Parent::L(ids[0])));
    assert_eq!(forest.child(ids[4], 0), Some(ids[1]));
    assert_eq!(forest.child(ids[1], 1), None);
    assert_eq!(forest.child(ids[1], 0), Some(ids[3]));
    assert_eq!(forest.depth(ids[0]), 4);
    assert_eq!(forest.size(ids[0]), 5);
    assert_eq!(values(&forest, ids[0]), vec![1, 3, 4, 5, 8]);
    check_all(&forest, &ids);
}

#[test]
fn rotate_keeps_the_inorder_sequence() {
    for dir in 0..2 {
        let mut forest: Plain = Forest::new();
        let ids = five(&mut forest);
        let before = values(&forest, ids[0]);
        let up = forest.rotate(ids[0], dir);
        assert_eq!(values(&forest, up), before);
        check_all(&forest, &ids);
    }
}

#[test]
fn rotate_there_and_back_restores_the_shape() {
    for dir in 0..2 {
        let mut forest: Plain = Forest::new();
        let ids = five(&mut forest);
        let before = links(&forest, &ids);
        let sizes: Vec<usize> = ids.iter().map(|&id| forest.size(id)).collect();
        let up = forest.rotate(ids[0], dir);
        assert_ne!(links(&forest, &ids), before);
        let back = forest.rotate(up, 1 - dir);
        assert_eq!(back, ids[0]);
        assert_eq!(links(&forest, &ids), before);
        assert_eq!(ids.iter().map(|&id| forest.size(id)).collect::<Vec<_>>(), sizes);
        assert_eq!(values(&forest, ids[0]), vec![1, 3, 4, 5, 8]);
    }
}

#[test]
fn zig_is_one_rotation() {
    let mut forest: Plain = Forest::new();
    let ids = five(&mut forest);
    forest.zig(ids[0], 1);
    assert!(forest.is_root(ids[1]));
    assert_eq!(forest.child(ids[1], 1), Some(ids[0]));
    check_all(&forest, &ids);
}

#[test]
fn zig_zig_brings_the_far_grandchild_up() {
    let mut forest: Plain = Forest::new();
    let ids = five(&mut forest);
    // 5 -> 3 -> 1 hang in a line on the left.
    forest.zig_zig(ids[0], 1);
    assert!(forest.is_root(ids[3]));
    assert_eq!(forest.child(ids[3], 1), Some(ids[1]));
    assert_eq!(forest.child(ids[1], 1), Some(ids[0]));
    assert_eq!(forest.child(ids[0], 0), Some(ids[4]));
    assert_eq!(forest.child(ids[0], 1), Some(ids[2]));
    assert_eq!(forest.depth(ids[3]), 4);
    assert_eq!(values(&forest, ids[3]), vec![1, 3, 4, 5, 8]);
    check_all(&forest, &ids);
}

#[test]
fn zig_zag_brings_the_inner_grandchild_up() {
    let mut forest: Plain = Forest::new();
    let ids = five(&mut forest);
    // 5 -> 3 -> 4 hang in a bend.
    forest.zig_zag(ids[0], 1);
    assert!(forest.is_root(ids[4]));
    assert_eq!(forest.child(ids[4], 0), Some(ids[1]));
    assert_eq!(forest.child(ids[4], 1), Some(ids[0]));
    assert_eq!(forest.child(ids[1], 0), Some(ids[3]));
    assert_eq!(forest.child(ids[1], 1), None);
    assert_eq!(forest.child(ids[0], 0), None);
    assert_eq!(forest.child(ids[0], 1), Some(ids[2]));
    assert_eq!(forest.depth(ids[4]), 3);
    assert_eq!(values(&forest, ids[4]), vec![1, 3, 4, 5, 8]);
    check_all(&forest, &ids);
}

#[test]
fn splay_moves_any_node_to_the_root() {
    for target in 0..5 {
        let mut forest: Plain = Forest::new();
        let ids = five(&mut forest);
        forest.splay(ids[target]);
        assert!(forest.is_root(ids[target]));
        assert_eq!(forest.size(ids[target]), 5);
        assert_eq!(values(&forest, ids[target]), vec![1, 3, 4, 5, 8]);
        check_all(&forest, &ids);
    }
}

#[test]
fn splay_of_the_root_changes_nothing() {
    let mut forest: Plain = Forest::new();
    let ids = five(&mut forest);
    let before = links(&forest, &ids);
    forest.splay(ids[0]);
    assert_eq!(links(&forest, &ids), before);
}

#[test]
fn splay_below_the_root_is_a_zig() {
    let mut forest: Plain = Forest::new();
    let ids = five(&mut forest);
    forest.splay(ids[2]);
    assert!(forest.is_root(ids[2]));
    assert_eq!(forest.child(ids[2], 0), Some(ids[0]));
    assert_eq!(forest.child(ids[0], 1), None);
    assert_eq!(forest.child(ids[0], 0), Some(ids[1]));
    check_all(&forest, &ids);
}

#[test]
fn splay_in_a_chain_of_seven() {
    let mut forest: Plain = Forest::new();
    let ids = chain(&mut forest, 7);
    assert_eq!(forest.depth(ids[0]), 7);
    assert_eq!(forest.size(ids[0]), 7);
    forest.splay(ids[3]);
    assert!(forest.is_root(ids[3]));
    assert_eq!(forest.size(ids[3]), 7);
    assert!(forest.depth(ids[3]) <= 4);
    assert_eq!(forest.depth(ids[3]), 4);
    assert_eq!(values(&forest, ids[3]), vec![1, 2, 3, 4, 5, 6, 7]);
    // A zig-zig at 2, then a zig at 1.
    assert_eq!(forest.child(ids[3], 0), Some(ids[0]));
    assert_eq!(forest.child(ids[3], 1), Some(ids[4]));
    assert_eq!(forest.child(ids[0], 1), Some(ids[2]));
    assert_eq!(forest.child(ids[2], 0), Some(ids[1]));
    check_all(&forest, &ids);
}

#[test]
fn splay_leaves_other_trees_alone() {
    let mut forest: Plain = Forest::new();
    let ids = five(&mut forest);
    let others = chain(&mut forest, 3);
    let before = links(&forest, &others);
    forest.splay(ids[3]);
    assert_eq!(links(&forest, &others), before);
    assert_eq!(values(&forest, others[0]), vec![1, 2, 3]);
    check_all(&forest, &others);
}

#[test]
fn find_splays_what_it_finds() {
    let mut forest: Plain = Forest::new();
    let ids = five(&mut forest);
    let found = forest.find(ids[0], |v: &i32| v.cmp(&4));
    assert_eq!(found, Some(ids[4]));
    let hit = found.unwrap();
    assert_eq!(*forest.value(hit), 4);
    assert!(forest.is_root(hit));
    assert_eq!(values(&forest, hit), vec![1, 3, 4, 5, 8]);
    check_all(&forest, &ids);
}

#[test]
fn find_of_what_is_missing_changes_nothing() {
    let mut forest: Plain = Forest::new();
    let ids = five(&mut forest);
    let before = links(&forest, &ids);
    assert_eq!(forest.find(ids[0], |v: &i32| v.cmp(&99)), None);
    assert_eq!(forest.find(ids[0], |v: &i32| v.cmp(&2)), None);
    assert_eq!(links(&forest, &ids), before);
    assert!(forest.is_root(ids[0]));
}

#[test]
fn find_goes_left_on_greater_and_right_on_less() {
    let mut forest: Plain = Forest::new();
    let ids = five(&mut forest);
    assert_eq!(forest.find(ids[0], |v: &i32| v.cmp(&1)), Some(ids[3]));
    assert_eq!(forest.find(ids[3], |v: &i32| v.cmp(&8)), Some(ids[2]));
    assert_eq!(forest.find(ids[2], |v: &i32| v.cmp(&8)), Some(ids[2]));
    check_all(&forest, &ids);
}

#[test]
fn find_searches_only_below_where_it_starts() {
    let mut forest: Plain = Forest::new();
    let ids = five(&mut forest);
    assert_eq!(forest.find(ids[1], |v: &i32| v.cmp(&8)), None);
    assert_eq!(forest.find(ids[1], |v: &i32| v.cmp(&4)), Some(ids[4]));
    assert!(forest.is_root(ids[4]));
}

#[test]
fn value_mut_writes_the_value() {
    let mut forest: Plain = Forest::new();
    let ids = five(&mut forest);
    *forest.value_mut(ids[2]) = 9;
    assert_eq!(*forest.value(ids[2]), 9);
    assert_eq!(values(&forest, ids[0]), vec![1, 3, 4, 5, 9]);
    assert_eq!(forest.size(ids[0]), 5);
}

#[test]
fn handles_and_links_name_nodes() {
    let mut forest: Plain = Forest::new();
    let ids = five(&mut forest);
    let leaf = ids[4];
    assert_eq!(Wrapper::<i32, DefaultHelper>::as_rnode(&leaf), leaf);
    assert_eq!(leaf.size(&forest), 1);
    assert_eq!(leaf.depth(&forest), 1);
    assert_eq!(*leaf.value(&forest), 4);
    assert!(!leaf.is_root(&forest));
    let link = leaf.parent(&forest).unwrap();
    assert_eq!(link, Parent::R(ids[1]));
    // The link names the parent.
    assert_eq!(Wrapper::<i32, DefaultHelper>::as_rnode(&link), ids[1]);
    assert_eq!(link.size(&forest), 3);
    assert_eq!(*link.value(&forest), 3);
    assert_eq!(link.child(&forest, 1), Some(leaf));
    assert_eq!(link.node(&forest).size(), 3);
    let up = link.parent(&forest).unwrap();
    assert_eq!(up.child(&forest, 0), Some(ids[1]));
    assert!(up.is_root(&forest));
    leaf.splay(&mut forest);
    assert!(leaf.is_root(&forest));
    assert_eq!(leaf.size(&forest), 5);
}

#[test]
fn wrapper_methods_change_the_forest() {
    let mut forest: Plain = Forest::new();
    let a = <NodeId as Wrapper<i32, DefaultHelper>>::new(&mut forest, 2);
    let b = <NodeId as Wrapper<i32, DefaultHelper>>::new(&mut forest, 1);
    let c = <NodeId as Wrapper<i32, DefaultHelper>>::new(&mut forest, 3);
    a.set_child(&mut forest, 0, Some(b));
    a.set_child(&mut forest, 1, Some(c));
    assert_eq!(a.size(&forest), 3);
    assert_eq!(a.rotate(&mut forest, 0), c);
    assert!(c.is_root(&forest));
    assert_eq!(c.rotate(&mut forest, 1), a);
    a.zig(&mut forest, 1);
    assert!(b.is_root(&forest));
    assert_eq!(b.find(&mut forest, |v: &i32| v.cmp(&3)), Some(c));
    assert_eq!(c.take_child(&mut forest, 0), Some(a));
    assert_eq!(a.take_parent(&mut forest), None);
    a.set_parent(&mut forest, Some(Parent::L(c)));
    assert_eq!(values(&forest, c), vec![1, 2, 3]);
    *a.value_mut(&mut forest) = 0;
    a.eval(&mut forest);
    assert_eq!(values(&forest, c), vec![1, 0, 3]);
    check(&forest, c);
}

fn labels(forest: &Plain) -> Vec<String> {
    (0..forest.count()).map(|i| format!("{:?}", forest.value(NodeId(i)))).collect()
}

#[test]
fn render_of_a_leaf() {
    let mut forest: Plain = Forest::new();
    let x = new_splaytree_node(&mut forest, 5);
    assert_eq!(forest.count(), 1);
    assert_eq!(forest.render(x, &labels(&forest)), "Node(size=1, depth=1, value=5) [Nil, Nil]");
}

#[test]
fn render_of_a_subtree() {
    let mut forest: Plain = Forest::new();
    let ids = five(&mut forest);
    assert_eq!(forest.count(), 5);
    assert_eq!(
        forest.render(ids[1], &labels(&forest)),
        "Node(size=3, depth=2, value=3) [Node(size=1, depth=1, value=1) [Nil, Nil], \
         Node(size=1, depth=1, value=4) [Nil, Nil]]"
    );
    forest.take_child(ids[1], 0);
    assert_eq!(
        forest.render(ids[0], &labels(&forest)),
        "Node(size=4, depth=3, value=5) [Node(size=2, depth=2, value=3) [Nil, \
         Node(size=1, depth=1, value=4) [Nil, Nil]], Node(size=1, depth=1, value=8) [Nil, Nil]]"
    );
}

#[test]
fn render_writes_numbers_in_decimal() {
    let mut forest: Plain = Forest::new();
    let ids = chain(&mut forest, 120);
    let text = forest.render(ids[0], &labels(&forest));
    assert!(text.starts_with(
        "Node(size=120, depth=120, value=1) [Nil, Node(size=119, depth=119, value=2) [Nil, "
    ));
    let tail = format!("Node(size=1, depth=1, value=120) [Nil, Nil]{}", "]".repeat(119));
    assert!(text.ends_with(&tail));
    let text = forest.render(ids[10], &labels(&forest));
    assert!(text.starts_with("Node(size=110, depth=110, value=11) [Nil, Node(size=109, "));
}

/// The mirror image of `five`:
///         5
///       3   8
///          6 9
fn five_right(forest: &mut Plain) -> Vec<NodeId> {
    let ids: Vec<NodeId> =
        [5, 3, 8, 6, 9].iter().map(|&v| new_splaytree_node(forest, v)).collect();
    forest.set_child(ids[0], 0, Some(ids[1]));
    forest.set_child(ids[0], 1, Some(ids[2]));
    forest.set_child(ids[2], 0, Some(ids[3]));
    forest.set_child(ids[2], 1, Some(ids[4]));
    ids
}

#[test]
fn zig_zig_on_the_right() {
    let mut forest: Plain = Forest::new();
    let ids = five_right(&mut forest);
    // 5 -> 8 -> 9 hang in a line on the right.
    forest.zig_zig(ids[0], 0);
    assert!(forest.is_root(ids[4]));
    assert_eq!(forest.child(ids[4], 0), Some(ids[2]));
    assert_eq!(forest.child(ids[2], 0), Some(ids[0]));
    assert_eq!(forest.child(ids[0], 0), Some(ids[1]));
    assert_eq!(forest.child(ids[0], 1), Some(ids[3]));
    assert_eq!(forest.child(ids[2], 1), None);
    assert_eq!(forest.size(ids[4]), 5);
    assert_eq!(forest.size(ids[2]), 4);
    assert_eq!(forest.size(ids[0]), 3);
    assert_eq!(values(&forest, ids[4]), vec![3, 5, 6, 8, 9]);
    check_all(&forest, &ids);
}

#[test]
fn zig_zag_on_the_right() {
    let mut forest: Plain = Forest::new();
    let ids = five_right(&mut forest);
    // 5 -> 8 -> 6 hang in a bend.
    forest.zig_zag(ids[0], 0);
    assert!(forest.is_root(ids[3]));
    assert_eq!(forest.child(ids[3], 0), Some(ids[0]));
    assert_eq!(forest.child(ids[3], 1), Some(ids[2]));
    assert_eq!(forest.child(ids[0], 1), None);
    assert_eq!(forest.child(ids[2], 0), None);
    assert_eq!(forest.child(ids[2], 1), Some(ids[4]));
    assert_eq!(forest.depth(ids[3]), 3);
    assert_eq!(values(&forest, ids[3]), vec![3, 5, 6, 8, 9]);
    check_all(&forest, &ids);
}

#[test]
fn zig_zig_below_the_root_keeps_the_depths_above() {
    let mut forest: Plain = Forest::new();
    let ids = chain(&mut forest, 5);
    // 2 -> 3 -> 4 is a line below the root 1.
    forest.zig_zig(ids[1], 0);
    assert_eq!(forest.child(ids[0], 1), Some(ids[3]));
    assert_eq!(forest.parent(ids[3]), Some(Parent::R(ids[0])));
    assert_eq!(forest.child(ids[3], 0), Some(ids[2]));
    assert_eq!(forest.child(ids[3], 1), Some(ids[4]));
    assert_eq!(forest.child(ids[2], 0), Some(ids[1]));
    assert_eq!(forest.depth(ids[0]), 4);
    assert_eq!(forest.size(ids[0]), 5);
    assert_eq!(values(&forest, ids[0]), vec![1, 2, 3, 4, 5]);
    check_all(&forest, &ids);
}

#[test]
fn splay_of_the_deepest_node_of_a_chain() {
    let mut forest: Plain = Forest::new();
    let ids = chain(&mut forest, 7);
    forest.splay(ids[6]);
    assert!(forest.is_root(ids[6]));
    assert_eq!(forest.size(ids[6]), 7);
    assert_eq!(forest.depth(ids[6]), 5);
    assert_eq!(values(&forest, ids[6]), vec![1, 2, 3, 4, 5, 6, 7]);
    check_all(&forest, &ids);
}

#[test]
fn splay_takes_the_bend_by_a_zig_zag() {
    let mut forest: Plain = Forest::new();
    let ids = five(&mut forest);
    forest.splay(ids[4]);
    assert!(forest.is_root(ids[4]));
    assert_eq!(forest.child(ids[4], 0), Some(ids[1]));
    assert_eq!(forest.child(ids[4], 1), Some(ids[0]));
    assert_eq!(forest.depth(ids[4]), 3);
    check_all(&forest, &ids);
}

#[test]
fn eval_of_a_plain_forest_changes_nothing() {
    let mut forest: Plain = Forest::new();
    let ids = five(&mut forest);
    let before = links(&forest, &ids);
    forest.eval(ids[1]);
    assert_eq!(links(&forest, &ids), before);
    assert_eq!(forest.size(ids[1]), 3);
    assert_eq!(forest.depth(ids[1]), 2);
    assert_eq!(*forest.value(ids[1]), 3);
}
