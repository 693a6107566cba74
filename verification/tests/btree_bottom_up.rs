use rand::distributions::{Alphanumeric, DistString};
use rand::seq::SliceRandom;
use rand::Rng;
use rb_tree::btree::bottom_up::BTree;
use rb_tree::btree::node::Key;

const LEN: usize = 10000;

#[derive(Clone, Default, Debug, PartialEq)]
struct Value<U> {
    key: U,
    #[allow(dead_code)]
    value: String,
}

impl<U> Value<U> {
    fn new(key: U, value: &str) -> Self {
        Self { key, value: value.to_owned() }
    }
}

impl<U: Copy> Key<U> for Value<U> {
    fn spec_key(&self) -> U {
        self.key
    }

    fn key(&self) -> U {
        self.key
    }
}

#[test]
fn btree_is_valid() {
    let mut btree = BTree::new(3);
    for i in 0..LEN {
        let s: String = Alphanumeric.sample_string(&mut rand::thread_rng(), 7);
        let v = Value::new(i, &s);
        btree.add(v);
    }
    assert_eq!(btree.length(), LEN);
    assert!(btree.is_valid());
}

#[test]
fn btree_found() {
    let mut rng = rand::thread_rng();
    let mut btree = BTree::new(4);
    let mut index: Vec<usize> = (0..LEN).collect();
    index.shuffle(&mut rng);
    for i in index.iter() {
        let s: String = Alphanumeric.sample_string(&mut rng, 7);
        let v = Value::new(*i, &s);
        btree.add(v);
    }
    index.shuffle(&mut rng);
    for i in index.iter() {
        assert_ne!(btree.find(*i), None);
    }
}

#[test]
fn btree_not_found() {
    let mut rng = rand::thread_rng();
    let mut btree = BTree::new(4);
    let mut index: Vec<usize> = (0..LEN).collect();
    index.shuffle(&mut rng);
    for i in index.iter() {
        let s: String = Alphanumeric.sample_string(&mut rng, 7);
        let v = Value::new(*i, &s);
        btree.add(v);
    }
    index.shuffle(&mut rng);
    for i in index.iter() {
        assert_eq!(btree.find(*i + LEN), None);
    }
}

#[test]
fn walk_in_order() {
    let mut rng = rand::thread_rng();
    let mut btree = BTree::new(4);
    let mut index: Vec<usize> = (0..LEN).collect();
    let mut result = Vec::with_capacity(LEN);
    index.shuffle(&mut rng);
    for i in index.iter() {
        let s: String = Alphanumeric.sample_string(&mut rng, 7);
        let v = Value::new(*i, &s);
        btree.add(v);
    }
    index.sort();
    for n in btree.walk() {
        let node = n.clone();
        result.push(node.key());
    }
    assert_eq!(index, result);
}

#[test]
fn bottom_up_tree_without_a_value_is_not_valid() {
    let btree: BTree<usize, Value<usize>> = BTree::new(3);
    assert!(!btree.is_valid());
    assert_eq!(btree.length(), 0);
    assert_eq!(btree.find(1), None);
    assert!(btree.walk().is_empty());
}

#[test]
fn bottom_up_tree_keeps_equal_keys_in_the_order_they_came() {
    let mut rng = rand::thread_rng();
    for order in 3..8usize {
        let mut btree = BTree::new(order);
        let mut expected: Vec<(usize, usize)> = Vec::new();
        for serial in 0..600usize {
            let key = rng.gen_range(0..40usize);
            btree.add(Value::new(key, &format!("{}", serial)));
            expected.push((key, serial));
            assert!(btree.is_valid());
            assert_eq!(btree.length(), serial + 1);
        }
        expected.sort();
        let walked: Vec<(usize, usize)> = btree
            .walk()
            .iter()
            .map(|v| (v.key, v.value.parse::<usize>().unwrap()))
            .collect();
        assert_eq!(walked, expected);
        assert_eq!(btree.find(40), None);
        assert_eq!(btree.find(expected[0].0).map(|v| v.key), Some(expected[0].0));
    }
}
