use btree::{binary_search, BNode, BTree, BTreeError};

fn walk(n: &BNode, out: &mut Vec<i32>) {
    if n.children.is_empty() {
        out.extend_from_slice(&n.keys);
    } else {
        for i in 0..n.keys.len() {
            walk(&n.children[i], out);
            out.push(n.keys[i]);
        }
        walk(&n.children[n.keys.len()], out);
    }
}

fn inorder(t: &BTree) -> Vec<i32> {
    let mut out = Vec::new();
    if let Some(r) = &t.root {
        walk(r, &mut out);
    }
    out
}

fn height(t: &BTree) -> usize {
    let mut h = 0;
    let mut n = t.root.as_ref();
    while let Some(node) = n {
        h += 1;
        n = node.children.first();
    }
    h
}

/// Checks the structural invariants below `n` and returns the depth of its leaves.
fn check_node(n: &BNode, order: usize, is_root: bool, lo: Option<i32>, hi: Option<i32>) -> usize {
    assert!(n.keys.len() <= 2 * order - 1);
    if !is_root {
        assert!(n.keys.len() >= order - 1);
    }
    for w in n.keys.windows(2) {
        assert!(w[0] < w[1]);
    }
    for &k in &n.keys {
        assert!(lo.map_or(true, |l| l < k));
        assert!(hi.map_or(true, |h| k < h));
    }
    if n.children.is_empty() {
        return 0;
    }
    assert_eq!(n.children.len(), n.keys.len() + 1);
    let mut depth = None;
    for (i, c) in n.children.iter().enumerate() {
        let clo = if i == 0 { lo } else { Some(n.keys[i - 1]) };
        let chi = if i == n.keys.len() { hi } else { Some(n.keys[i]) };
        let d = check_node(c, order, false, clo, chi);
        if let Some(d0) = depth {
            assert_eq!(d0, d);
        }
        depth = Some(d);
    }
    depth.unwrap() + 1
}

fn check_tree(t: &BTree) {
    if let Some(r) = &t.root {
        let d = check_node(r, t.order, true, None, None);
        assert_eq!(d + 1, height(t));
    }
}

fn lcg(seed: &mut u64) -> i32 {
    *seed = seed.wrapping_mul(6364136223846793005).wrapping_add(1442695040888963407);
    ((*seed >> 33) % 1000) as i32 - 500
}

#[test]
fn three_keys_fill_a_single_leaf() {
    let mut t = BTree::new(2).unwrap();
    t.insert(10);
    t.insert(11);
    t.insert(12);
    let r = t.root.as_ref().unwrap();
    assert_eq!(r.keys, vec![10, 11, 12]);
    assert!(r.children.is_empty());
}

#[test]
fn fourth_key_splits_the_leaf_root() {
    let mut t = BTree::new(2).unwrap();
    for k in [10, 11, 12, 13] {
        t.insert(k);
    }
    let r = t.root.as_ref().unwrap();
    assert_eq!(r.keys, vec![12]);
    assert_eq!(r.children.len(), 2);
    assert_eq!(r.children[0].keys, vec![10, 11]);
    assert!(r.children[0].children.is_empty());
    assert_eq!(r.children[1].keys, vec![13]);
    assert!(r.children[1].children.is_empty());
    assert_eq!(height(&t), 2);
}

#[test]
fn new_tree_is_empty() {
    let t = BTree::new(2).unwrap();
    assert!(t.root.is_none());
    assert_eq!(t.order, 2);
    assert!(inorder(&t).is_empty());
}

#[test]
fn order_one_is_invalid() {
    assert!(matches!(BTree::new(1), Err(BTreeError::InvalidConfiguration)));
}

#[test]
fn order_zero_is_invalid() {
    assert!(matches!(BTree::new(0), Err(BTreeError::InvalidConfiguration)));
    assert!(matches!(BTree::from_keys(0, &vec![1, 2]), Err(BTreeError::InvalidConfiguration)));
}

#[test]
fn first_key_makes_a_childless_leaf_root() {
    let mut t = BTree::new(3).unwrap();
    t.insert(7);
    let r = t.root.as_ref().unwrap();
    assert_eq!(r.keys, vec![7]);
    assert!(r.children.is_empty());
    assert!(BNode::is_leaf(r));
    assert_eq!(height(&t), 1);
}

#[test]
fn duplicate_key_changes_nothing() {
    let mut t = BTree::new(2).unwrap();
    for k in [5, 3, 8, 1] {
        t.insert(k);
    }
    let before = inorder(&t);
    let h = height(&t);
    t.insert(3);
    t.insert(8);
    assert_eq!(inorder(&t), before);
    assert_eq!(height(&t), h);
}

#[test]
fn binary_search_on_empty_is_zero() {
    assert_eq!(binary_search(&[], 5), 0);
}

#[test]
fn binary_search_finds_lower_bound() {
    let v = [2, 4, 6, 8];
    assert_eq!(binary_search(&v, 1), 0);
    assert_eq!(binary_search(&v, 2), 0);
    assert_eq!(binary_search(&v, 3), 1);
    assert_eq!(binary_search(&v, 6), 2);
    assert_eq!(binary_search(&v, 8), 3);
    assert_eq!(binary_search(&v, 9), 4);
    assert_eq!(binary_search(&[i32::MIN, i32::MAX], i32::MAX), 1);
}

#[test]
fn invariants_hold_after_every_insertion() {
    for order in 2..6 {
        let mut t = BTree::new(order).unwrap();
        let mut seed = order as u64;
        for _ in 0..400 {
            t.insert(lcg(&mut seed));
            check_tree(&t);
        }
    }
}

#[test]
fn inorder_walk_is_sorted_and_complete() {
    let mut t = BTree::new(3).unwrap();
    let mut seed = 42u64;
    let mut keys = Vec::new();
    for _ in 0..500 {
        let k = lcg(&mut seed);
        keys.push(k);
        t.insert(k);
    }
    keys.sort();
    keys.dedup();
    assert_eq!(inorder(&t), keys);
}

#[test]
fn ascending_insertions_stay_balanced() {
    let mut t = BTree::new(2).unwrap();
    for k in 0..200 {
        t.insert(k);
        check_tree(&t);
    }
    assert_eq!(inorder(&t), (0..200).collect::<Vec<i32>>());
}

#[test]
fn height_never_drops_and_grows_by_one() {
    let mut t = BTree::new(2).unwrap();
    let mut seed = 7u64;
    let mut h = height(&t);
    for _ in 0..300 {
        t.insert(lcg(&mut seed));
        let h2 = height(&t);
        assert!(h2 == h || h2 == h + 1);
        if h2 == h + 1 {
            assert_eq!(t.root.as_ref().unwrap().keys.len(), 1);
        }
        h = h2;
    }
    assert!(h > 1);
}

#[test]
fn from_keys_holds_the_given_keys() {
    let t = BTree::from_keys(2, &vec![9, 1, 5, 1, 7, 3]).unwrap();
    assert_eq!(inorder(&t), vec![1, 3, 5, 7, 9]);
    check_tree(&t);
}

#[test]
fn extreme_keys_are_kept() {
    let mut t = BTree::new(2).unwrap();
    for k in [i32::MAX, i32::MIN, 0, -1, 1] {
        t.insert(k);
    }
    assert_eq!(inorder(&t), vec![i32::MIN, -1, 0, 1, i32::MAX]);
    check_tree(&t);
}

#[test]
fn insert_into_full_leaf_returns_median_and_sibling() {
    let mut leaf = BNode::new_fill(vec![1, 2, 4], Vec::new());
    let r = BTree::_insert(&mut leaf, 3, 2);
    let (median, sib) = r.unwrap();
    assert_eq!(median, 3);
    assert_eq!(leaf.keys, vec![1, 2]);
    assert_eq!(sib.keys, vec![4]);
    assert!(sib.children.is_empty());
}

#[test]
fn insert_into_leaf_with_room_does_not_split() {
    let mut leaf = BNode::new_fill(vec![1, 4], Vec::new());
    assert!(BTree::_insert(&mut leaf, 3, 2).is_none());
    assert_eq!(leaf.keys, vec![1, 3, 4]);
}

#[test]
fn internal_node_takes_in_split_child() {
    let left = BNode::new_fill(vec![1, 2, 3], Vec::new());
    let right = BNode::new_fill(vec![20], Vec::new());
    let mut node = BNode::new_fill(vec![10], vec![left, right]);
    assert!(BTree::_insert(&mut node, 4, 2).is_none());
    assert_eq!(node.keys, vec![3, 10]);
    assert_eq!(node.children[0].keys, vec![1, 2]);
    assert_eq!(node.children[1].keys, vec![4]);
    assert_eq!(node.children[2].keys, vec![20]);
}

#[test]
fn new_node_is_an_empty_leaf() {
    let n = BNode::new();
    assert!(n.keys.is_empty());
    assert!(BNode::is_leaf(&n));
    let m = BNode::new_fill(vec![1], vec![BNode::new(), BNode::new()]);
    assert!(!BNode::is_leaf(&m));
}
