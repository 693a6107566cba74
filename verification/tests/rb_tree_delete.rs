use rand::distributions::Uniform;
use rand::distributions::Distribution;
use rand::rngs::ThreadRng;
use rand::seq::SliceRandom;
use rand::{thread_rng, Rng};
use rb_tree::node::Operations;
use rb_tree::rb_tree::RedBlackTree;
use rb_tree::repo::Repository;
use rb_tree::RepoNode;

const VALUES_COUNT: i32 = 2000;

fn run_delete(mut rng: ThreadRng, distrib: Uniform<i32>, result: &mut Vec<i32>) {
    let mut rb_tree = RedBlackTree::new();
    let repo: &mut RepoNode<i32> = &mut RepoNode::new();
    let values: Vec<i32> = distrib
        .sample_iter(&mut rng)
        .take(VALUES_COUNT.try_into().unwrap())
        .collect();
    let remove_index = rng.gen_range(0..VALUES_COUNT) as usize;
    let mut expected = values.clone();
    expected.sort();
    let deleted = expected.remove(remove_index);
    for i in values.iter() {
        rb_tree.insert(repo, *i);
    }
    rb_tree.delete(repo, deleted);
    for node in rb_tree.walk_in_order(repo) {
        result.push(node.key());
    }
    assert_eq!(
        *result,
        expected,
        "{}",
        format!("deleted = {}, values = {:?}", deleted, values)
    );
}

fn run_clear_rbtree(mut rng: ThreadRng, distrib: Uniform<i32>, result: &mut Vec<i32>) {
    let mut rb_tree = RedBlackTree::new();
    let repo: &mut RepoNode<i32> = &mut RepoNode::new();
    let values: Vec<i32> = distrib
        .sample_iter(&mut rng)
        .take(VALUES_COUNT.try_into().unwrap())
        .collect();
    let mut shuffled = values.clone();
    shuffled.shuffle(&mut rng);
    for i in values.iter() {
        rb_tree.insert(repo, *i);
    }
    while !shuffled.is_empty() {
        let deleted = shuffled.pop().unwrap();
        rb_tree.delete(repo, deleted);
    }
    for node in rb_tree.walk_in_order(repo) {
        result.push(node.key());
    }
    assert!(result.is_empty());
    assert_eq!(result.len(), rb_tree.len());
}

#[test]
fn walk_random_inserted_values_from_range() {
    let mut rb_tree = RedBlackTree::new();
    let repo: &mut RepoNode<i32> = &mut RepoNode::new();
    let mut rng = thread_rng();
    let mut values: Vec<i32> = (-(VALUES_COUNT / 2)..=VALUES_COUNT / 2).collect();
    let sorted_values: Vec<i32> = values.clone();
    values.shuffle(&mut rng);
    for i in values.iter() {
        rb_tree.insert(repo, *i);
    }
    let mut result: Vec<i32> = Vec::with_capacity(VALUES_COUNT.try_into().unwrap());
    for node in rb_tree.walk_in_order(repo) {
        result.push(node.key());
    }
    assert_eq!(sorted_values, result);
}

#[test]
fn walk_random_values_in_range() {
    let mut rb_tree = RedBlackTree::new();
    let repo: &mut RepoNode<i32> = &mut RepoNode::new();
    let mut rng = thread_rng();
    let values_range = Uniform::new_inclusive(-(VALUES_COUNT / 2), VALUES_COUNT / 2);
    let values: Vec<i32> = values_range
        .sample_iter(&mut rng)
        .take(VALUES_COUNT.try_into().unwrap())
        .collect();
    let mut expected = values.clone();
    expected.sort();
    for i in values.iter() {
        rb_tree.insert(repo, *i);
    }
    let mut result: Vec<i32> = Vec::with_capacity(VALUES_COUNT.try_into().unwrap());
    for node in rb_tree.walk_in_order(repo) {
        result.push(node.key());
    }
    assert_eq!(expected, result, "{}", format!("values = {:?}", values));
}

#[test]
fn delete_random() {
    let rng = thread_rng();
    let values_range = Uniform::new_inclusive(-(VALUES_COUNT / 2), VALUES_COUNT / 2);
    let mut result: Vec<i32> = Vec::with_capacity(VALUES_COUNT.try_into().unwrap());
    run_delete(rng.clone(), values_range, &mut result);
}

#[test]
fn delete_all() {
    let rng = thread_rng();
    let values_range = Uniform::new_inclusive(-(VALUES_COUNT / 2), VALUES_COUNT / 2);
    let mut result: Vec<i32> = Vec::with_capacity(VALUES_COUNT.try_into().unwrap());
    run_clear_rbtree(rng.clone(), values_range, &mut result);
}
