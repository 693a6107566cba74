use rand::distributions::{Distribution, Uniform};
use rand::rngs::ThreadRng;
use rand::seq::SliceRandom;
use rand::{thread_rng, Rng};
use rb_tree::node::Operations;
use rb_tree::rb_tree::RedBlackTree;
use rb_tree::repo::Repository;
use rb_tree::RepoNode;

const VALUES_COUNT: i32 = 2000;

#[test]
fn not_found_test() {
    let mut repo: RepoNode<i32> = RepoNode::new();
    let mut rb_tree = RedBlackTree::new();
    let mut value: i32 = -1;
    if let Some(n) = rb_tree.find(&repo, 0) {
        value = n.key();
    }
    assert_eq!(value, -1);
    rb_tree.insert(&mut repo, 1);
    if let Some(n) = rb_tree.find(&repo, 2) {
        value = n.key();
    }
    assert_eq!(value, -1);
}

#[test]
fn found_test() {
    let mut repo: RepoNode<i32> = RepoNode::new();
    let mut rb_tree = RedBlackTree::new();
    let mut value: i32 = -1;
    rb_tree.insert(&mut repo, 0);
    if let Some(n) = rb_tree.find(&repo, 0) {
        value = n.key();
    }
    assert_eq!(value, 0);
    for i in 1..=100 {
        rb_tree.insert(&mut repo, i);
    }
    for i in 0..=100 {
        if let Some(n) = rb_tree.find(&repo, i) {
            value = n.key();
        }
        assert_eq!(value, i);
    }
}

#[test]
fn walk_sorted_values_test() {
    let mut repo: RepoNode<i32> = RepoNode::new();
    let mut rb_tree = RedBlackTree::new();
    let mut values: Vec<i32> = Vec::with_capacity(100);
    let mut result: Vec<i32> = Vec::with_capacity(100);
    for i in 1..=100 {
        rb_tree.insert(&mut repo, i);
        values.push(i);
    }
    for node in rb_tree.walk_in_order(&repo) {
        result.push(node.key());
    }
    assert_eq!(values, result);
}

#[test]
fn walk_random_inserted_values_from_range_test() {
    let mut repo: RepoNode<i32> = RepoNode::new();
    let mut rb_tree = RedBlackTree::new();
    let mut rng = thread_rng();
    let mut values: Vec<i32> = (-(VALUES_COUNT / 2)..=VALUES_COUNT / 2).collect();
    let sorted_values: Vec<i32> = values.clone();
    let mut result: Vec<i32> = Vec::with_capacity(VALUES_COUNT.try_into().unwrap());

    values.shuffle(&mut rng);
    for i in values.iter() {
        rb_tree.insert(&mut repo, *i);
    }
    for node in rb_tree.walk_in_order(&repo) {
        result.push(node.key());
    }
    assert_eq!(sorted_values, result);
}

#[test]
fn walk_random_values_in_range_test() {
    let mut repo: RepoNode<i32> = RepoNode::new();
    let mut rb_tree = RedBlackTree::new();
    let mut rng = thread_rng();
    let values_range = Uniform::new_inclusive(-(VALUES_COUNT / 2), VALUES_COUNT / 2);
    let mut result: Vec<i32> = Vec::with_capacity(VALUES_COUNT.try_into().unwrap());
    let values: Vec<i32> = values_range
        .sample_iter(&mut rng)
        .take(VALUES_COUNT.try_into().unwrap())
        .collect();
    let mut expected = values.clone();
    expected.sort();
    for i in values.iter() {
        rb_tree.insert(&mut repo, *i);
    }
    for node in rb_tree.walk_in_order(&repo) {
        result.push(node.key());
    }
    assert_eq!(expected, result, "{}", format!("values = {:?}", values));
}

#[test]
fn delete_random_test() {
    let rng = thread_rng();
    let values_range = Uniform::new_inclusive(-(VALUES_COUNT / 2), VALUES_COUNT / 2);
    let mut result: Vec<i32> = Vec::with_capacity(VALUES_COUNT.try_into().unwrap());
    run_delete_test(rng.clone(), values_range, &mut result);
}

fn run_delete_test(mut rng: ThreadRng, distrib: Uniform<i32>, result: &mut Vec<i32>) {
    let mut repo: RepoNode<i32> = RepoNode::new();
    let mut rb_tree = RedBlackTree::new();
    let values: Vec<i32> = distrib
        .sample_iter(&mut rng)
        .take(VALUES_COUNT.try_into().unwrap())
        .collect();
    let remove_index = rng.gen_range(0..VALUES_COUNT) as usize;
    let mut expected = values.clone();
    expected.sort();
    let deleted = expected.remove(remove_index);

    for i in values.iter() {
        rb_tree.insert(&mut repo, *i);
    }
    rb_tree.delete(&mut repo, deleted);
    for node in rb_tree.walk_in_order(&repo) {
        result.push(node.key());
    }
    assert_eq!(
        *result,
        expected,
        "{}",
        format!("deleted = {}, values = {:?}", deleted, values)
    );
}

#[test]
fn delete_all_test() {
    let rng = thread_rng();
    let values_range = Uniform::new_inclusive(-(VALUES_COUNT / 2), VALUES_COUNT / 2);
    let mut result: Vec<i32> = Vec::with_capacity(VALUES_COUNT.try_into().unwrap());

    run_clear_rbtree_test(rng.clone(), values_range, &mut result);
}

fn run_clear_rbtree_test(mut rng: ThreadRng, distrib: Uniform<i32>, result: &mut Vec<i32>) {
    let mut repo: RepoNode<i32> = RepoNode::new();
    let mut rb_tree = RedBlackTree::new();
    let values: Vec<i32> = distrib
        .sample_iter(&mut rng)
        .take(VALUES_COUNT.try_into().unwrap())
        .collect();
    let mut shuffled = values.clone();
    shuffled.shuffle(&mut rng);

    for i in values.iter() {
        rb_tree.insert(&mut repo, *i);
    }
    while !shuffled.is_empty() {
        let deleted = shuffled.pop().unwrap();
        rb_tree.delete(&mut repo, deleted);
    }
    for node in rb_tree.walk_in_order(&repo) {
        result.push(node.key());
    }
    assert!(result.is_empty());
}
