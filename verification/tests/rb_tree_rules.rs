use rand::seq::SliceRandom;
use rand::{thread_rng, Rng};
use rb_tree::node::{Color, Node, Operations};
use rb_tree::rb_tree::{Child, NodeColor, RedBlackTree, Rotation};
use rb_tree::repo::Repository;
use rb_tree::RepoNode;

type Tree = RedBlackTree<RepoNode<i32>, i32>;

/// Walks the subtree below `id` and returns its black height, checking on
/// the way that links agree, keys ascend and no red node has a red child.
fn black_height(
    repo: &RepoNode<i32>,
    id: Option<u32>,
    parent: Option<u32>,
    low: Option<i32>,
    high: Option<i32>,
    nodes: &mut usize,
) -> usize {
    let id = match id {
        Some(id) => id,
        None => return 0,
    };
    let node = repo.get(&id).expect("a link leads to a stored node");
    *nodes += 1;
    assert_eq!(*node.id(), id);
    assert_eq!(node.parent(), parent);
    if let Some(low) = low {
        assert!(low <= node.key());
    }
    if let Some(high) = high {
        assert!(node.key() <= high);
    }
    if *node.color() == Color::Red {
        for child in [node.left_child(), node.right_child()] {
            if let Some(c) = child {
                assert_eq!(*repo.get(&c).unwrap().color(), Color::Black);
            }
        }
    }
    let left = black_height(repo, node.left_child(), Some(id), low, Some(node.key()), nodes);
    let right = black_height(repo, node.right_child(), Some(id), Some(node.key()), high, nodes);
    assert_eq!(left, right);
    left + if *node.color() == Color::Black { 1 } else { 0 }
}

fn walked(tree: &Tree, repo: &RepoNode<i32>) -> Vec<i32> {
    tree.walk_in_order(repo).iter().map(|n| n.key()).collect()
}

fn check_rules(tree: &Tree, repo: &RepoNode<i32>) {
    if let Some(root) = tree.root() {
        assert_eq!(*repo.get(&root).unwrap().color(), Color::Black);
    }
    let mut nodes = 0;
    black_height(repo, tree.root(), None, None, None, &mut nodes);
    assert_eq!(nodes, tree.len());
    assert_eq!(tree.walk_in_order(repo).len(), tree.len());
}

#[test]
fn delete_one_of_seven() {
    let mut repo: RepoNode<i32> = RepoNode::new();
    let mut tree = RedBlackTree::new();
    for k in [5, 1, 7, 3, 6, 2, 4] {
        tree.insert(&mut repo, k);
        check_rules(&tree, &repo);
    }
    assert!(tree.delete(&mut repo, 2));
    check_rules(&tree, &repo);
    assert_eq!(walked(&tree, &repo), vec![1, 3, 4, 5, 6, 7]);
    assert_eq!(tree.len(), 6);
}

#[test]
fn shuffled_hundred_comes_out_sorted() {
    let mut repo: RepoNode<i32> = RepoNode::new();
    let mut tree = RedBlackTree::new();
    let mut keys: Vec<i32> = (1..=100).collect();
    keys.shuffle(&mut thread_rng());
    for k in keys {
        tree.insert(&mut repo, k);
        check_rules(&tree, &repo);
    }
    assert_eq!(walked(&tree, &repo), (1..=100).collect::<Vec<i32>>());
}

#[test]
fn nothing_found_in_an_empty_tree() {
    let repo: RepoNode<i32> = RepoNode::new();
    let tree: Tree = RedBlackTree::new();
    assert!(tree.find(&repo, 42).is_none());
    assert_eq!(tree.len(), 0);
    assert_eq!(tree.root(), None);
    assert!(walked(&tree, &repo).is_empty());
}

#[test]
fn every_inserted_key_is_found() {
    let mut repo: RepoNode<i32> = RepoNode::new();
    let mut tree = RedBlackTree::new();
    for k in 0..=100 {
        tree.insert(&mut repo, k);
    }
    for k in 0..=100 {
        assert_eq!(tree.find(&repo, k).map(|n| n.key()), Some(k));
    }
    assert!(tree.find(&repo, 101).is_none());
    assert!(tree.find(&repo, -1).is_none());
}

#[test]
fn delete_on_a_miss_changes_nothing() {
    let mut repo: RepoNode<i32> = RepoNode::new();
    let mut tree = RedBlackTree::new();
    assert!(!tree.delete(&mut repo, 1));
    for k in [10, 20, 30, 40, 50] {
        tree.insert(&mut repo, k);
    }
    let before = walked(&tree, &repo);
    let root = tree.root();
    assert!(!tree.delete(&mut repo, 25));
    assert_eq!(walked(&tree, &repo), before);
    assert_eq!(tree.len(), 5);
    assert_eq!(tree.root(), root);
    check_rules(&tree, &repo);
}

#[test]
fn length_follows_inserts_and_deletes() {
    let mut repo: RepoNode<i32> = RepoNode::new();
    let mut tree = RedBlackTree::new();
    let mut expected = 0;
    for k in [3, 1, 2, 3, 3, 9] {
        tree.insert(&mut repo, k);
        expected += 1;
        assert_eq!(tree.len(), expected);
    }
    for k in [3, 7, 3, 1, 1] {
        if tree.delete(&mut repo, k) {
            expected -= 1;
        }
        assert_eq!(tree.len(), expected);
    }
    assert_eq!(expected, 3);
    assert_eq!(walked(&tree, &repo), vec![2, 3, 9]);
}

#[test]
fn equal_keys_are_kept() {
    let mut repo: RepoNode<i32> = RepoNode::new();
    let mut tree = RedBlackTree::new();
    for k in [4, 4, 2, 4, 2, 4] {
        tree.insert(&mut repo, k);
        check_rules(&tree, &repo);
    }
    assert_eq!(walked(&tree, &repo), vec![2, 2, 4, 4, 4, 4]);
    assert!(tree.delete(&mut repo, 4));
    assert_eq!(walked(&tree, &repo), vec![2, 2, 4, 4, 4]);
    assert_eq!(tree.find(&repo, 4).map(|n| n.key()), Some(4));
    assert!(tree.delete(&mut repo, 2));
    assert!(tree.delete(&mut repo, 2));
    assert!(!tree.delete(&mut repo, 2));
    assert_eq!(walked(&tree, &repo), vec![4, 4, 4]);
    check_rules(&tree, &repo);
}

#[test]
fn identifiers_count_up_from_one() {
    let mut repo: RepoNode<i32> = RepoNode::new();
    let mut tree = RedBlackTree::new();
    assert_eq!(tree.insert(&mut repo, 50), 1);
    assert_eq!(tree.insert(&mut repo, 40), 2);
    assert!(tree.delete(&mut repo, 50));
    assert_eq!(tree.insert(&mut repo, 60), 3);
    assert!(!tree.is_exhausted());
    assert_eq!(repo.get(&3).map(|n| n.key()), Some(60));
    assert!(repo.get(&1).is_none());
}

#[test]
fn deleting_everything_empties_tree_and_store() {
    let mut rng = thread_rng();
    let mut repo: RepoNode<i32> = RepoNode::new();
    let mut tree = RedBlackTree::new();
    let keys: Vec<i32> = (0..300).map(|_| rng.gen_range(-50..=50)).collect();
    for k in keys.iter() {
        tree.insert(&mut repo, *k);
    }
    let mut order = keys.clone();
    order.shuffle(&mut rng);
    let mut left = keys.len();
    for k in order {
        assert!(tree.delete(&mut repo, k));
        left -= 1;
        assert_eq!(tree.len(), left);
        check_rules(&tree, &repo);
    }
    assert!(walked(&tree, &repo).is_empty());
    assert_eq!(tree.len(), 0);
    assert_eq!(tree.root(), None);
    for id in 1..=300u32 {
        assert!(repo.get(&id).is_none());
    }
}

#[test]
fn a_random_multiset_loses_exactly_the_deleted_key() {
    let mut rng = thread_rng();
    let mut repo: RepoNode<i32> = RepoNode::new();
    let mut tree = RedBlackTree::new();
    let keys: Vec<i32> = (0..2000).map(|_| rng.gen_range(-1000..=1000)).collect();
    for k in keys.iter() {
        tree.insert(&mut repo, *k);
    }
    check_rules(&tree, &repo);
    let mut expected = keys.clone();
    expected.sort();
    let gone = expected.remove(rng.gen_range(0..expected.len()));
    assert!(tree.delete(&mut repo, gone));
    check_rules(&tree, &repo);
    assert_eq!(walked(&tree, &repo), expected);
}

#[test]
fn colours_and_sides_flip() {
    assert_eq!(Color::Red.not(), Color::Black);
    assert_eq!(Color::Black.not(), Color::Red);
    assert_eq!(Color::default(), Color::Red);
    assert!(Child::Left.not() == Child::Right);
    assert!(Child::Right.not() == Child::Left);
    assert_eq!(Rotation::Left.not(), Rotation::Right);
    assert_eq!(Rotation::Right.not(), Rotation::Left);
    let nc = NodeColor::new(&7, &Color::Black);
    assert_eq!(nc.id, 7);
    assert_eq!(nc.color, Color::Black);
}

#[test]
fn node_record_is_plain_field_access() {
    let mut node: Node<i32> = Node::new(&9, 33);
    assert_eq!(*node.id(), 9);
    assert_eq!(node.key(), 33);
    assert_eq!(*node.color(), Color::Red);
    assert_eq!(node.parent(), None);
    assert_eq!(node.left_child(), None);
    assert_eq!(node.right_child(), None);
    node.set_key(&34);
    node.set_color(&Color::Black);
    node.set_parent(&Some(1));
    node.set_left_child(&Some(2));
    node.set_right_child(&Some(3));
    assert_eq!(node.key(), 34);
    assert_eq!(*node.color(), Color::Black);
    assert_eq!(node.parent(), Some(1));
    assert_eq!(node.left_child(), Some(2));
    assert_eq!(node.right_child(), Some(3));
    assert_eq!(*node.id(), 9);
}

#[test]
fn store_reads_one_hop() {
    let mut repo: RepoNode<i32> = RepoNode::new();
    repo.add(&1, 10);
    repo.add(&2, 20);
    repo.add(&3, 30);
    repo.get_mut(&1).unwrap().set_left_child(&Some(2));
    repo.get_mut(&1).unwrap().set_right_child(&Some(3));
    repo.get_mut(&2).unwrap().set_parent(&Some(1));
    repo.get_mut(&3).unwrap().set_parent(&Some(1));
    repo.get_mut(&3).unwrap().set_right_child(&Some(99));
    assert_eq!(repo.get_left(&1).map(|n| n.key()), Some(20));
    assert_eq!(repo.get_right(&1).map(|n| n.key()), Some(30));
    assert_eq!(repo.get_parent(&2).map(|n| n.key()), Some(10));
    assert!(repo.get_parent(&1).is_none());
    assert!(repo.get_left(&2).is_none());
    assert!(repo.get_right(&3).is_none());
    assert!(repo.get_left(&42).is_none());
    repo.mut_parent(&3).unwrap().set_key(&11);
    repo.mut_left(&1).unwrap().set_key(&21);
    repo.mut_right(&1).unwrap().set_key(&31);
    assert!(repo.mut_left(&3).is_none());
    assert_eq!(repo.get(&1).map(|n| n.key()), Some(11));
    assert_eq!(repo.get(&2).map(|n| n.key()), Some(21));
    assert_eq!(repo.get(&3).map(|n| n.key()), Some(31));
    assert_eq!(repo.remove(&2).map(|n| n.key()), Some(21));
    assert!(repo.remove(&2).is_none());
    assert!(repo.get(&2).is_none());
    repo.add(&3, 5);
    assert_eq!(repo.get(&3).map(|n| n.key()), Some(5));
    assert_eq!(repo.get(&3).unwrap().parent(), None);
}

fn node(repo: &RepoNode<i32>, id: Option<u32>) -> (i32, Color, Option<u32>, Option<u32>) {
    let n = repo.get(&id.expect("a node is there")).unwrap();
    (n.key(), *n.color(), n.left_child(), n.right_child())
}

#[test]
fn eight_ascending_keys_give_the_known_tree() {
    let mut repo: RepoNode<i32> = RepoNode::new();
    let mut tree = RedBlackTree::new();
    for k in 1..=8 {
        tree.insert(&mut repo, k);
    }
    let (k4, c4, l4, r4) = node(&repo, tree.root());
    assert_eq!((k4, c4), (4, Color::Black));
    assert_eq!(repo.get(&tree.root().unwrap()).unwrap().parent(), None);
    let (k2, c2, l2, r2) = node(&repo, l4);
    let (k6, c6, l6, r6) = node(&repo, r4);
    assert_eq!((k2, c2), (2, Color::Red));
    assert_eq!((k6, c6), (6, Color::Red));
    assert_eq!(node(&repo, l2), (1, Color::Black, None, None));
    assert_eq!(node(&repo, r2), (3, Color::Black, None, None));
    assert_eq!(node(&repo, l6), (5, Color::Black, None, None));
    let (k7, c7, l7, r7) = node(&repo, r6);
    assert_eq!((k7, c7, l7), (7, Color::Black, None));
    assert_eq!(node(&repo, r7), (8, Color::Red, None, None));
}

#[test]
fn a_black_leaf_deleted_beside_a_red_near_nephew() {
    let mut repo: RepoNode<i32> = RepoNode::new();
    let mut tree = RedBlackTree::new();
    for k in [2, 1, 4, 3] {
        tree.insert(&mut repo, k);
    }
    let (k, c, l, r) = node(&repo, tree.root());
    assert_eq!((k, c), (2, Color::Black));
    assert_eq!(node(&repo, l), (1, Color::Black, None, None));
    let (k4, c4, l4, r4) = node(&repo, r);
    assert_eq!((k4, c4, r4), (4, Color::Black, None));
    assert_eq!(node(&repo, l4), (3, Color::Red, None, None));
    assert!(tree.delete(&mut repo, 1));
    assert_eq!(tree.len(), 3);
    assert_eq!(walked(&tree, &repo), vec![2, 3, 4]);
    let (k, c, l, r) = node(&repo, tree.root());
    assert_eq!((k, c), (3, Color::Black));
    assert_eq!(node(&repo, l), (2, Color::Black, None, None));
    assert_eq!(node(&repo, r), (4, Color::Black, None, None));
}

#[test]
fn of_two_equal_keys_the_first_is_visited_first() {
    let mut repo: RepoNode<i32> = RepoNode::new();
    let mut tree = RedBlackTree::new();
    let first = tree.insert(&mut repo, 5);
    let second = tree.insert(&mut repo, 5);
    assert_eq!(tree.len(), 2);
    let ids: Vec<u32> = tree.walk_in_order(&repo).iter().map(|n| *n.id()).collect();
    assert_eq!(ids, vec![first, second]);
    assert_ne!(first, second);
    for k in [5, 5, 5, 3, 5, 7, 5] {
        tree.insert(&mut repo, k);
        check_rules(&tree, &repo);
    }
    let fives: Vec<u32> = tree
        .walk_in_order(&repo)
        .iter()
        .filter(|n| n.key() == 5)
        .map(|n| *n.id())
        .collect();
    let mut ascending = fives.clone();
    ascending.sort();
    assert_eq!(fives, ascending);
}

#[test]
fn a_node_with_two_children_keeps_its_identity() {
    let mut repo: RepoNode<i32> = RepoNode::new();
    let mut tree = RedBlackTree::new();
    for k in [50, 30, 70, 20, 40, 60, 80, 65] {
        tree.insert(&mut repo, k);
    }
    let root = tree.root().unwrap();
    let (k, _, _, r) = node(&repo, Some(root));
    assert_eq!(k, 50);
    let (k70, _, l70, _) = node(&repo, r);
    assert_eq!(k70, 70);
    let (k60, _, l60, r60) = node(&repo, l70);
    assert_eq!((k60, l60), (60, None));
    let successor = l70.unwrap();
    let grandchild = r60.unwrap();
    assert_eq!(repo.get(&grandchild).unwrap().key(), 65);
    assert!(tree.delete(&mut repo, 50));
    check_rules(&tree, &repo);
    assert_eq!(tree.root(), Some(root));
    assert_eq!(repo.get(&root).unwrap().key(), 60);
    assert!(repo.get(&successor).is_none());
    let (_, _, l70, _) = node(&repo, repo.get(&root).unwrap().right_child());
    assert_eq!(l70, Some(grandchild));
    assert_eq!(repo.get(&grandchild).unwrap().parent(), repo.get(&root).unwrap().right_child());
    assert_eq!(walked(&tree, &repo), vec![20, 30, 40, 60, 65, 70, 80]);
}
