use splaytree::forest::Forest;
use splaytree::helper::{DefaultHelper, Helper};
use splaytree::new_splaytree_node;
use splaytree::node::NodeId;

/// Keeps in the second component the sum of the first components of the
/// subtree.
struct Sum;

type Pair = (u64, u64);

fn sum_of(key: u64, left: Option<Pair>, right: Option<Pair>) -> u64 {
    key.wrapping_add(left.map_or(0, |l| l.1)).wrapping_add(right.map_or(0, |r| r.1))
}

impl Helper<Pair> for Sum {
    fn eval_spec(value: Pair, left: Option<Pair>, right: Option<Pair>) -> Pair {
        (value.0, sum_of(value.0, left, right))
    }

    fn eval_absorbs(
        _value: Pair,
        _left0: Option<Pair>,
        _right0: Option<Pair>,
        _left: Option<Pair>,
        _right: Option<Pair>,
    ) {
    }

    fn eval(value: &mut Pair, left: Option<&Pair>, right: Option<&Pair>) {
        value.1 = sum_of(value.0, left.copied(), right.copied());
    }
}

fn fresh_sum(forest: &Forest<Pair, Sum>, id: NodeId) -> u64 {
    let mut sum = forest.value(id).0;
    for dir in 0..2 {
        if let Some(child) = forest.child(id, dir) {
            sum += fresh_sum(forest, child);
        }
    }
    sum
}

fn check_sums(forest: &Forest<Pair, Sum>, ids: &[NodeId]) {
    for &id in ids {
        assert_eq!(forest.value(id).1, fresh_sum(forest, id));
    }
}

fn summed(forest: &mut Forest<Pair, Sum>) -> Vec<NodeId> {
    let ids: Vec<NodeId> =
        [5u64, 3, 8, 1, 4, 7, 9].iter().map(|&k| new_splaytree_node(forest, (k, k))).collect();
    forest.set_child(ids[0], 0, Some(ids[1]));
    forest.set_child(ids[0], 1, Some(ids[2]));
    forest.set_child(ids[1], 0, Some(ids[3]));
    forest.set_child(ids[1], 1, Some(ids[4]));
    forest.set_child(ids[2], 0, Some(ids[5]));
    forest.set_child(ids[2], 1, Some(ids[6]));
    ids
}

#[test]
fn hook_recomputes_from_the_children() {
    let mut v = (3u64, 0u64);
    Sum::eval(&mut v, Some(&(1, 1)), None);
    assert_eq!(v, (3, 4));
    Sum::eval(&mut v, Some(&(1, 10)), Some(&(2, 20)));
    assert_eq!(v, (3, 33));
    assert_eq!(Sum::eval_spec((3, 99), Some((1, 10)), Some((2, 20))), (3, 33));
}

#[test]
fn default_hook_leaves_the_value() {
    let mut v = 5;
    DefaultHelper::eval(&mut v, Some(&1), Some(&2));
    assert_eq!(v, 5);
}

#[test]
fn attach_keeps_the_sums() {
    let mut forest: Forest<Pair, Sum> = Forest::new();
    let ids = summed(&mut forest);
    assert_eq!(*forest.value(ids[0]), (5, 37));
    assert_eq!(*forest.value(ids[1]), (3, 8));
    assert_eq!(*forest.value(ids[2]), (8, 24));
    check_sums(&forest, &ids);
}

#[test]
fn rotations_keep_the_sums() {
    let mut forest: Forest<Pair, Sum> = Forest::new();
    let ids = summed(&mut forest);
    let up = forest.rotate(ids[0], 1);
    assert_eq!(*forest.value(up), (3, 37));
    assert_eq!(*forest.value(ids[0]), (5, 33));
    check_sums(&forest, &ids);
    forest.rotate(ids[2], 0);
    assert_eq!(*forest.value(ids[6]), (9, 24));
    assert_eq!(*forest.value(ids[2]), (8, 15));
    check_sums(&forest, &ids);
    forest.rotate(up, 0);
    check_sums(&forest, &ids);
}

#[test]
fn splays_keep_the_sums() {
    let mut forest: Forest<Pair, Sum> = Forest::new();
    let ids = summed(&mut forest);
    for &target in &[ids[3], ids[6], ids[4], ids[0], ids[5], ids[3]] {
        forest.splay(target);
        assert!(forest.is_root(target));
        assert_eq!(forest.value(target).1, 37);
        check_sums(&forest, &ids);
    }
}

#[test]
fn detach_keeps_the_sums() {
    let mut forest: Forest<Pair, Sum> = Forest::new();
    let ids = summed(&mut forest);
    forest.take_child(ids[1], 0);
    assert_eq!(*forest.value(ids[0]), (5, 36));
    assert_eq!(*forest.value(ids[1]), (3, 7));
    forest.take_parent(ids[2]);
    assert_eq!(*forest.value(ids[0]), (5, 12));
    assert_eq!(*forest.value(ids[2]), (8, 24));
    check_sums(&forest, &ids);
}

#[test]
fn eval_settles_a_changed_value() {
    let mut forest: Forest<Pair, Sum> = Forest::new();
    let ids = summed(&mut forest);
    forest.value_mut(ids[1]).0 = 13;
    assert_eq!(*forest.value(ids[1]), (13, 8));
    forest.eval(ids[1]);
    assert_eq!(*forest.value(ids[1]), (13, 18));
    forest.eval(ids[0]);
    assert_eq!(*forest.value(ids[0]), (5, 47));
    check_sums(&forest, &ids);
}

#[test]
fn find_keeps_the_sums() {
    let mut forest: Forest<Pair, Sum> = Forest::new();
    let ids = summed(&mut forest);
    let found = forest.find(ids[0], |v: &Pair| v.0.cmp(&7));
    assert_eq!(found, Some(ids[5]));
    assert_eq!(*forest.value(ids[5]), (7, 37));
    check_sums(&forest, &ids);
}
