use avl_tree::AvlTree;
use avl_tree::node::Node;

fn child_height(sub: &Option<Box<Node<u64>>>) -> u32 {
    match sub {
        None => 0,
        Some(n) => n.height,
    }
}

/// Walks every node below `sub`, asserting the search order against the open
/// key interval `(lo, hi)`, the exactness of the cached heights, and the AVL
/// balance rule; returns the number of nodes.
fn check_subtree(sub: &Option<Box<Node<u64>>>, lo: Option<u64>, hi: Option<u64>) -> usize {
    match sub {
        None => 0,
        Some(n) => {
            if let Some(l) = lo {
                assert!(n.key > l);
            }
            if let Some(h) = hi {
                assert!(n.key < h);
            }
            let hl = child_height(&n.left);
            let hr = child_height(&n.right);
            assert_eq!(n.height, 1 + hl.max(hr));
            let bf = hl as i64 - hr as i64;
            assert!((-1..=1).contains(&bf));
            let cl = check_subtree(&n.left, lo, Some(n.key));
            let cr = check_subtree(&n.right, Some(n.key), hi);
            1 + cl + cr
        }
    }
}

fn check_tree(t: &AvlTree<u64>) -> usize {
    check_subtree(&t.root, None, None)
}

fn same_subtree(a: &Option<Box<Node<u64>>>, b: &Option<Box<Node<u64>>>) -> bool {
    match (a, b) {
        (None, None) => true,
        (Some(x), Some(y)) => {
            x.key == y.key
                && x.value == y.value
                && x.height == y.height
                && same_subtree(&x.left, &y.left)
                && same_subtree(&x.right, &y.right)
        }
        _ => false,
    }
}

fn ascending_tree() -> AvlTree<u64> {
    let mut t = AvlTree::new();
    for k in 1..=10u64 {
        assert!(t.insert(k, k * 100));
    }
    t
}

#[test]
fn new_is_empty() {
    let t: AvlTree<u64> = AvlTree::new();
    assert_eq!(check_tree(&t), 0);
    assert!(t.find_value(0).is_none());
    assert!(t.find_value(42).is_none());
    assert_eq!(t.levels().len(), 0);
}

#[test]
fn from_single_entry() {
    let t = AvlTree::from(7, 700);
    assert_eq!(check_tree(&t), 1);
    assert_eq!(t.find_value(7), Some(&700));
    assert!(t.find_value(6).is_none());
    assert_eq!(t.levels(), vec![vec![(7, 1)]]);
}

#[test]
fn insert_then_find() {
    let mut t = AvlTree::new();
    for k in [50u64, 20, 80, 10, 30, 70, 90, 25, 35, 0, u64::MAX] {
        assert!(t.insert(k, k.wrapping_mul(3)));
        assert_eq!(t.find_value(k), Some(&k.wrapping_mul(3)));
        check_tree(&t);
    }
    for k in [50u64, 20, 80, 10, 30, 70, 90, 25, 35, 0, u64::MAX] {
        assert_eq!(t.find_value(k), Some(&k.wrapping_mul(3)));
    }
    assert!(t.find_value(60).is_none());
}

#[test]
fn duplicate_insert_rejected() {
    let mut t = ascending_tree();
    let before = t.levels();
    assert!(!t.insert(5, 9999));
    assert!(same_subtree(&t.root, &ascending_tree().root));
    assert_eq!(t.levels(), before);
    for k in 1..=10u64 {
        assert_eq!(t.find_value(k), Some(&(k * 100)));
    }
}

#[test]
fn ascending_inserts_shape() {
    let t = ascending_tree();
    assert_eq!(check_tree(&t), 10);
    let root = t.root.as_ref().unwrap();
    assert_eq!(root.height, 4);
    assert_eq!(root.key, 4);
}

#[test]
fn remove_two_child_node() {
    let mut t = ascending_tree();
    assert!(t.remove(4));
    assert_eq!(check_tree(&t), 9);
    // the in-order successor of 4 takes its place at the root
    assert_eq!(t.root.as_ref().unwrap().key, 5);
    assert!(t.find_value(4).is_none());
    assert_eq!(t.find_value(5), Some(&500));
    for k in [1u64, 2, 3, 6, 7, 8, 9, 10] {
        assert_eq!(t.find_value(k), Some(&(k * 100)));
    }
}

#[test]
fn remove_absent_leaves_tree_identical() {
    let mut t = ascending_tree();
    assert!(!t.remove(999));
    assert!(same_subtree(&t.root, &ascending_tree().root));
    assert_eq!(check_tree(&t), 10);
}

#[test]
fn remove_then_find() {
    let mut t = ascending_tree();
    assert!(t.remove(7));
    assert!(!t.remove(7));
    assert!(t.find_value(7).is_none());
    for k in [1u64, 2, 3, 4, 5, 6, 8, 9, 10] {
        assert_eq!(t.find_value(k), Some(&(k * 100)));
    }
    check_tree(&t);
}

#[test]
fn remove_leaf_and_one_child_node() {
    let mut t = AvlTree::new();
    for k in [4u64, 2, 6, 1, 3, 5, 8, 7] {
        assert!(t.insert(k, k));
    }
    // 1 is a leaf; 8 has the single child 7
    assert!(t.remove(1));
    check_tree(&t);
    assert!(t.remove(8));
    check_tree(&t);
    assert!(t.find_value(1).is_none());
    assert!(t.find_value(8).is_none());
    assert_eq!(t.find_value(7), Some(&7));
    assert_eq!(check_tree(&t), 6);
}

#[test]
fn cardinality_tracks_operations() {
    let mut t = AvlTree::new();
    let mut count: usize = 0;
    for i in 0..200u64 {
        let k = (i * 37) % 101;
        if t.insert(k, i) {
            count += 1;
        }
        assert_eq!(check_tree(&t), count);
    }
    for i in 0..60u64 {
        let k = (i * 53) % 150;
        if t.remove(k) {
            count -= 1;
        }
        assert_eq!(check_tree(&t), count);
    }
}

#[test]
fn height_bound_many_keys() {
    let mut t = AvlTree::new();
    for k in 1..=100u64 {
        assert!(t.insert(k, 0));
    }
    assert_eq!(check_tree(&t), 100);
    // AVL worst case: height <= ~1.44 * log2(n + 2), about 9.6 for n = 100
    assert!(t.root.as_ref().unwrap().height <= 9);
}

#[test]
fn mixed_operations_against_model() {
    let mut t = AvlTree::new();
    let mut model = std::collections::BTreeMap::new();
    let mut x: u64 = 12345;
    for step in 0..500u64 {
        // a small linear congruential generator keeps the walk deterministic
        x = x.wrapping_mul(6364136223846793005).wrapping_add(1442695040888963407);
        let k = (x >> 33) % 64;
        if x % 3 == 0 {
            assert_eq!(t.remove(k), model.remove(&k).is_some());
        } else {
            let fresh = !model.contains_key(&k);
            assert_eq!(t.insert(k, step), fresh);
            if fresh {
                model.insert(k, step);
            }
        }
        assert_eq!(check_tree(&t), model.len());
    }
    for (k, v) in model.iter() {
        assert_eq!(t.find_value(*k), Some(v));
    }
}

fn in_order_keys(sub: &Option<Box<Node<u64>>>, out: &mut Vec<u64>) {
    if let Some(n) = sub {
        in_order_keys(&n.left, out);
        out.push(n.key);
        in_order_keys(&n.right, out);
    }
}

#[test]
fn in_order_strictly_increasing() {
    let mut t = AvlTree::new();
    for i in 0..50u64 {
        t.insert((i * 31) % 97, i);
    }
    let mut keys = Vec::new();
    in_order_keys(&t.root, &mut keys);
    assert_eq!(keys.len(), check_tree(&t));
    for w in keys.windows(2) {
        assert!(w[0] < w[1]);
    }
}

#[test]
fn remove_rebalances_even_child() {
    // After removing 45, the root is two taller on the left while its left
    // child is perfectly even: that child must rise by a single rotation.
    let mut t = AvlTree::new();
    for k in [40u64, 20, 50, 10, 30, 45, 5, 15, 35] {
        assert!(t.insert(k, k));
    }
    assert_eq!(t.root.as_ref().unwrap().key, 40);
    assert!(t.remove(45));
    assert_eq!(check_tree(&t), 8);
    assert_eq!(t.root.as_ref().unwrap().key, 20);
    for k in [40u64, 20, 50, 10, 30, 5, 15, 35] {
        assert_eq!(t.find_value(k), Some(&k));
    }
}

#[test]
fn levels_dump_small() {
    let mut t = AvlTree::new();
    for k in [2u64, 1, 3] {
        assert!(t.insert(k, 0));
    }
    assert_eq!(t.levels(), vec![vec![(2, 2)], vec![(1, 1), (3, 1)]]);
}

#[test]
fn levels_dump_skewed() {
    let mut t = AvlTree::new();
    for k in [4u64, 2, 6, 1, 3, 5, 8, 7] {
        assert!(t.insert(k, 0));
    }
    let rows = t.levels();
    assert_eq!(rows.len(), 4);
    assert_eq!(rows[0], vec![(4, 4)]);
    assert_eq!(rows[1], vec![(2, 2), (6, 3)]);
    assert_eq!(rows[2], vec![(1, 1), (3, 1), (5, 1), (8, 2)]);
    assert_eq!(rows[3], vec![(7, 1)]);
}

#[test]
fn node_new_leaf() {
    let n: Node<u64> = Node::new(9, 90);
    assert_eq!(n.key, 9);
    assert_eq!(n.value, 90);
    assert_eq!(n.height, 1);
    assert!(n.left.is_none());
    assert!(n.right.is_none());
}

#[test]
fn get_bf_leans() {
    let mut n: Node<u64> = Node::new(5, 0);
    assert_eq!(n.get_bf(), 0);
    n.left = Some(Box::new(Node::new(2, 0)));
    n.update_height();
    assert_eq!(n.height, 2);
    assert_eq!(n.get_bf(), 1);
    n.right = Some(Box::new(Node::new(8, 0)));
    n.update_height();
    assert_eq!(n.height, 2);
    assert_eq!(n.get_bf(), 0);
}

fn chain_left() -> Box<Node<u64>> {
    // 30 with left child 20 with left child 10: left-left heavy
    let leaf = Node::new(10, 1);
    let mut mid = Node::new(20, 2);
    mid.left = Some(Box::new(leaf));
    mid.update_height();
    let mut top = Node::new(30, 3);
    top.left = Some(Box::new(mid));
    top.update_height();
    Box::new(top)
}

#[test]
fn rotate_right_shape() {
    let r = Node::rotate_right(chain_left());
    assert_eq!(r.key, 20);
    assert_eq!(r.height, 2);
    assert_eq!(r.left.as_ref().unwrap().key, 10);
    assert_eq!(r.right.as_ref().unwrap().key, 30);
    assert_eq!(r.right.as_ref().unwrap().height, 1);
}

#[test]
fn rotate_left_shape() {
    let leaf = Node::new(30, 0);
    let mut mid = Node::new(20, 0);
    mid.right = Some(Box::new(leaf));
    mid.update_height();
    let mut top = Node::new(10, 0);
    top.right = Some(Box::new(mid));
    top.update_height();
    let r = Node::rotate_left(Box::new(top));
    assert_eq!(r.key, 20);
    assert_eq!(r.height, 2);
    assert_eq!(r.left.as_ref().unwrap().key, 10);
    assert_eq!(r.right.as_ref().unwrap().key, 30);
}

#[test]
fn balance_restores_invariant() {
    // chain_left is too tall on the left by two; balance must rotate
    let r = Node::balance(chain_left());
    assert_eq!(r.key, 20);
    assert_eq!(r.height, 2);
    assert_eq!(child_height(&r.left), 1);
    assert_eq!(child_height(&r.right), 1);
    // an already balanced node only gets its height refreshed
    let mut even = Node::new(5, 0);
    even.left = Some(Box::new(Node::new(2, 0)));
    even.right = Some(Box::new(Node::new(8, 0)));
    let b = Node::balance(Box::new(even));
    assert_eq!(b.key, 5);
    assert_eq!(b.height, 2);
}

#[test]
fn extract_min_small() {
    let t = {
        let mut t = AvlTree::new();
        for k in [5u64, 3, 8, 2, 4] {
            assert!(t.insert(k, k * 7));
        }
        t
    };
    let root = t.root.unwrap();
    let (min, rest) = Node::extract_min_rec(root);
    let min = min.unwrap();
    assert_eq!(min.key, 2);
    assert_eq!(min.value, 14);
    assert!(min.left.is_none());
    assert!(min.right.is_none());
    assert_eq!(check_subtree(&rest, None, None), 4);
}
