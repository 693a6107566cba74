use rb_tree::node::Operations;
use rb_tree::rb_tree::RedBlackTree;
use rb_tree::repo::Repository;
use rb_tree::RepoNode;

#[test]
fn not_found() {
    let repo: &mut RepoNode<i32> = &mut RepoNode::new();
    let mut rb_tree = RedBlackTree::new();
    let mut value: i32 = -1;
    if let Some(n) = rb_tree.find(repo, 0) {
        value = n.key();
    }
    assert_eq!(value, -1);
    rb_tree.insert(repo, 1);
    if let Some(n) = rb_tree.find(repo, 2) {
        value = n.key();
    }
    assert_eq!(value, -1);
}

#[test]
fn found() {
    let repo: &mut RepoNode<i32> = &mut RepoNode::new();
    let mut rb_tree = RedBlackTree::new();
    let mut value: i32 = -1;
    rb_tree.insert(repo, 0);
    if let Some(n) = rb_tree.find(repo, 0) {
        value = n.key();
    }
    assert_eq!(value, 0);
    for i in 1..=100 {
        rb_tree.insert(repo, i);
    }
    for i in 0..=100 {
        if let Some(n) = rb_tree.find(repo, i) {
            value = n.key();
        }
        assert_eq!(value, i);
    }
}

#[test]
fn walk_sorted_values() {
    let mut rb_tree = RedBlackTree::new();
    let repo: &mut RepoNode<i32> = &mut RepoNode::new();
    let mut values: Vec<i32> = Vec::with_capacity(100);
    for i in 1..=100 {
        rb_tree.insert(repo, i);
        values.push(i);
    }
    let mut result: Vec<i32> = Vec::with_capacity(100);
    for node in rb_tree.walk_in_order(repo) {
        result.push(node.key());
    }
    assert_eq!(values, result);
}
