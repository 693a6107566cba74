use rand::distributions::{Alphanumeric, DistString};
use rand::seq::SliceRandom;
use rand::{thread_rng, Rng};
use rb_tree::btree::node::{Key, Node, NodeType};
use rb_tree::btree::BTree;

#[derive(Clone, Default, Debug, PartialEq)]
struct Data<U> {
    key: U,
    data: String,
}

impl<U> Data<U> {
    fn new(key: U, data: &str) -> Self {
        Self { key, data: data.to_owned() }
    }
}

impl<U: Copy> Key<U> for Data<U> {
    fn spec_key(&self) -> U {
        self.key
    }

    fn key(&self) -> U {
        self.key
    }
}

#[test]
fn search_in_empty_btree() {
    let btree: BTree<char, Data<char>> = BTree::new(3);
    let search_char = 'a';
    assert!(btree.search(&search_char).is_none());
}

#[test]
fn not_found_node() {
    let mut rng = thread_rng();
    let mut btree = BTree::new(3);
    let mut chars: Vec<char> = ('a'..='z').collect();
    chars.shuffle(&mut rng);
    let search_char = 'K';

    for c in chars.iter() {
        let d = Alphanumeric.sample_string(&mut rng, 7);
        let data = Data::new(*c, &d);
        btree.insert(data)
    }
    assert!(btree.search(&search_char).is_none());
}

#[test]
fn founded_node() {
    let mut rng = thread_rng();
    let mut btree = BTree::new(3);
    let mut s = "test".to_owned();
    let mut chars: Vec<char> = ('a'..='z').collect();
    chars.shuffle(&mut rng);
    let search_char = chars[rng.gen_range(0..chars.len())];

    for c in chars.iter() {
        let d = Alphanumeric.sample_string(&mut rng, 7);
        if *c == search_char {
            s = d.clone();
        }
        let data = Data::new(*c, &d);
        btree.insert(data)
    }
    assert_eq!(
        btree.search(&search_char),
        Some(&Data { key: search_char, data: s })
    );
}

#[test]
fn btree_walk_in_order() {
    let mut rng = thread_rng();
    let mut btree = BTree::new(3);
    let mut chars: Vec<char> = ('a'..='z').collect();
    let origin = chars.clone();
    let mut result: Vec<char> = Vec::with_capacity(chars.capacity());
    chars.shuffle(&mut rng);

    for c in chars.iter() {
        let d = Alphanumeric.sample_string(&mut rng, 7);
        let data = Data::new(*c, &d);
        btree.insert(data)
    }
    for data in btree.walk() {
        result.push(data.key);
    }
    assert_eq!(origin, result);
}

#[test]
fn btree_missing_key_between_present_ones() {
    let mut btree = BTree::new(2);
    for c in ['a', 'c', 'e', 'g', 'i', 'k', 'm'] {
        btree.insert(Data::new(c, "x"));
    }
    assert!(btree.search(&'b').is_none());
    assert!(btree.search(&'z').is_none());
    assert_eq!(btree.search(&'g'), Some(&Data::new('g', "x")));
}

#[test]
fn btree_length_counts_levels() {
    let mut btree = BTree::new(2);
    assert_eq!(btree.length(), 0);
    for i in 0..3usize {
        btree.insert(Data::new(i, "v"));
    }
    assert_eq!(btree.length(), 0);
    btree.insert(Data::new(3usize, "v"));
    assert_eq!(btree.length(), 1);
    let keys: Vec<usize> = btree.walk().iter().map(|d| d.key).collect();
    assert_eq!(keys, vec![0, 1, 2, 3]);
}

#[test]
fn btree_keeps_equal_keys() {
    let mut btree = BTree::new(2);
    for (i, name) in ["first", "second", "third", "fourth", "fifth"].iter().enumerate() {
        btree.insert(Data::new(7usize, name));
        assert_eq!(btree.walk().len(), i + 1);
    }
    let found = btree.search(&7).unwrap();
    assert_eq!(found.key, 7);
}

#[test]
fn btree_node_accessors() {
    let mut leaf = Node::<usize, Data<usize>>::new_leaf();
    assert!(leaf.is_leaf());
    assert!(leaf.is_empty());
    assert_eq!(leaf.key_len(), 0);
    assert_eq!(leaf.children_len(), 0);
    assert!(leaf.get_key(&0).is_none());
    assert!(leaf.remove_key(&0).is_none());
    leaf.key.push(Data::new(1, "a"));
    leaf.key.push(Data::new(2, "b"));
    leaf.key.push(Data::new(3, "c"));
    assert!(leaf.is_full(&2));
    assert!(!leaf.is_full(&3));
    assert_eq!(leaf.keys().len(), 3);
    assert_eq!(leaf.get_key(&1), Some(&Data::new(2, "b")));
    assert_eq!(leaf.remove_key(&1), Some(Data::new(2, "b")));
    assert_eq!(leaf.key_len(), 2);
    assert_eq!(leaf.get_key(&1), Some(&Data::new(3, "c")));
    let regular = Node::<usize, Data<usize>>::new_regular();
    assert!(!regular.is_leaf());
    assert!(regular.children().is_empty());
    assert_eq!(NodeType::default(), NodeType::Leaf);
}

#[test]
fn btree_walk_of_many_random_keys_is_sorted() {
    let mut rng = thread_rng();
    for order in 2..6usize {
        let mut btree = BTree::new(order);
        let mut keys: Vec<usize> = (0..500).map(|_| rng.gen_range(0..200)).collect();
        for k in keys.iter() {
            btree.insert(Data::new(*k, "p"));
        }
        keys.sort();
        let walked: Vec<usize> = btree.walk().iter().map(|d| d.key).collect();
        assert_eq!(walked, keys);
        for k in 0..200usize {
            assert_eq!(btree.search(&k).is_some(), keys.contains(&k));
        }
    }
}

#[test]
fn delete_node() {
    let mut rng = thread_rng();
    let mut btree = BTree::new(3);
    let mut chars: Vec<char> = ('a'..='z').collect();
    let deleted = chars[rng.gen_range(0..chars.len())];
    chars.shuffle(&mut rng);

    for c in chars.iter() {
        let d = Alphanumeric.sample_string(&mut rng, 7);
        let data = Data::new(*c, &d);
        btree.insert(data)
    }
    match btree.delete(&deleted) {
        Some(Data { key, .. }) => assert_eq!(key, deleted),
        None => assert!(false, "node with key {deleted} not deleted"),
    }
}

#[test]
fn btree_delete_from_an_empty_tree_finds_nothing() {
    let mut btree: BTree<usize, Data<usize>> = BTree::new(2);
    assert!(btree.delete(&5).is_none());
    assert_eq!(btree.length(), 0);
    assert!(btree.walk().is_empty());
}

#[test]
fn btree_delete_of_a_missing_key_changes_nothing() {
    let mut btree = BTree::new(2);
    for k in [10usize, 20, 30, 40, 50, 60, 70, 80, 90] {
        btree.insert(Data::new(k, "v"));
    }
    for missing in [5usize, 15, 45, 95] {
        assert!(btree.delete(&missing).is_none());
        let keys: Vec<usize> = btree.walk().iter().map(|d| d.key).collect();
        assert_eq!(keys, vec![10, 20, 30, 40, 50, 60, 70, 80, 90]);
    }
}

#[test]
fn btree_delete_every_key_in_random_order() {
    let mut rng = thread_rng();
    for order in 2..6usize {
        let mut btree = BTree::new(order);
        let mut keys: Vec<usize> = (0..400).map(|_| rng.gen_range(0..150)).collect();
        for (i, k) in keys.iter().enumerate() {
            btree.insert(Data::new(*k, &format!("{}", i)));
        }
        let mut left = keys.clone();
        left.sort();
        keys.shuffle(&mut rng);
        for k in keys {
            let gone = btree.delete(&k).expect("a key that was put in is there");
            assert_eq!(gone.key, k);
            let at = left.iter().position(|x| *x == k).unwrap();
            left.remove(at);
            let walked: Vec<usize> = btree.walk().iter().map(|d| d.key).collect();
            assert_eq!(walked, left);
            assert_eq!(btree.search(&k).is_some(), left.contains(&k));
        }
        assert!(btree.walk().is_empty());
        assert_eq!(btree.length(), 0);
        assert!(btree.delete(&1).is_none());
    }
}

#[test]
fn btree_delete_hands_out_the_value_that_was_stored() {
    let mut btree = BTree::new(2);
    for (k, name) in [(1usize, "one"), (2, "two"), (3, "three"), (4, "four"), (5, "five")] {
        btree.insert(Data::new(k, name));
    }
    assert_eq!(btree.delete(&3), Some(Data::new(3, "three")));
    assert_eq!(btree.delete(&3), None);
    assert_eq!(btree.delete(&1), Some(Data::new(1, "one")));
    assert_eq!(btree.delete(&5), Some(Data::new(5, "five")));
    let rest: Vec<&Data<usize>> = btree.walk();
    assert_eq!(rest, vec![&Data::new(2, "two"), &Data::new(4, "four")]);
}

#[test]
fn btree_of_plain_keys() {
    let mut btree: BTree<u32, u32> = BTree::new(2);
    for k in [9u32, 3, 7, 1, 5, 3, 8] {
        btree.insert(k);
    }
    let walked: Vec<u32> = btree.walk().into_iter().copied().collect();
    assert_eq!(walked, vec![1, 3, 3, 5, 7, 8, 9]);
    assert_eq!(btree.search(&7), Some(&7));
    assert_eq!(btree.search(&6), None);
    assert_eq!(btree.delete(&3), Some(3));
    assert_eq!(btree.delete(&3), Some(3));
    assert_eq!(btree.delete(&3), None);
    let walked: Vec<u32> = btree.walk().into_iter().copied().collect();
    assert_eq!(walked, vec![1, 5, 7, 8, 9]);
}

#[test]
fn btree_puts_the_newest_of_equal_keys_first() {
    let mut rng = thread_rng();
    for order in 2..6usize {
        let mut btree = BTree::new(order);
        let mut expected: Vec<(usize, i64)> = Vec::new();
        for serial in 0..500i64 {
            let key = rng.gen_range(0..30usize);
            btree.insert(Data::new(key, &format!("{}", serial)));
            expected.push((key, -serial));
        }
        expected.sort();
        let walked: Vec<(usize, i64)> = btree
            .walk()
            .iter()
            .map(|d| (d.key, -d.data.parse::<i64>().unwrap()))
            .collect();
        assert_eq!(walked, expected);
    }
}

#[test]
fn btree_delete_leaves_the_rest_of_the_walk_as_it_was() {
    let mut rng = thread_rng();
    let mut btree = BTree::new(3);
    for serial in 0..300usize {
        let key = rng.gen_range(0..25usize);
        btree.insert(Data::new(key, &format!("{}", serial)));
    }
    for _ in 0..300 {
        let before: Vec<Data<usize>> = btree.walk().into_iter().cloned().collect();
        let key = rng.gen_range(0..25usize);
        match btree.delete(&key) {
            Some(gone) => {
                assert_eq!(gone.key, key);
                let at = before.iter().position(|d| *d == gone).unwrap();
                let mut expected = before.clone();
                expected.remove(at);
                let after: Vec<Data<usize>> = btree.walk().into_iter().cloned().collect();
                assert_eq!(after, expected);
            },
            None => {
                assert!(before.iter().all(|d| d.key != key));
                let after: Vec<Data<usize>> = btree.walk().into_iter().cloned().collect();
                assert_eq!(after, before);
            },
        }
    }
}
