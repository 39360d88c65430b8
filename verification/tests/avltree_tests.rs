use avltree::add;
use avltree::avltree::AvlTree;

#[test]
fn it_works() {
    let result = add(2, 2);
    assert_eq!(result, 4);
}

#[test]
fn avltree_basic_test() {
    let mut t: AvlTree<i32> = AvlTree::new();
    t.insert(1, 1);
    t.insert(2, 2);
    t.insert(3, 3);
    t.insert(4, 4);
    t.insert(-10, -10);
    t.insert(-3, -3);

    assert!(t.search(1).is_some() && t.search(1) == Some(&1));
    assert!(t.search(2).is_some() && t.search(2) == Some(&2));
    assert!(t.search(3).is_some() && t.search(3) == Some(&3));
    assert!(t.search(4).is_some() && t.search(4) == Some(&4));
    assert!(t.search(-10).is_some() && t.search(-10) == Some(&-10));
    assert!(t.search(-3).is_some() && t.search(-3) == Some(&-3));
}

#[test]
fn avltree_random_test() {
    let mut t: AvlTree<i32> = AvlTree::new();
    let mut v: Vec<i32> = Vec::new();
    let maxn = 1000000;
    for _ in 0..maxn {
        let r = rand::random::<i32>();
        t.insert(r as i64, r);
        v.push(r);
    }

    for i in 0..maxn {
        assert!(t.search(v[i] as i64).is_some() && t.search(v[i] as i64) == Some(&v[i]));
    }
}

#[test]
fn empty_tree_finds_nothing() {
    let t: AvlTree<i64> = AvlTree::new();
    assert!(t.search(0).is_none());
    assert_eq!(t.get_height(), 0);
}

#[test]
fn six_inserts_stay_balanced() {
    let mut t: AvlTree<i64> = AvlTree::new();
    for k in [1, 2, 3, 4, -10, -3] {
        t.insert(k, k);
    }
    for k in [1, 2, 3, 4, -10, -3] {
        assert_eq!(t.search(k), Some(&k));
    }
    assert!(t.search(0).is_none());
    assert!(t.get_height() <= 3);
}

#[test]
fn first_insert_of_a_key_wins() {
    let mut t: AvlTree<&'static str> = AvlTree::new();
    t.insert(1, "first");
    t.insert(1, "second");
    assert_eq!(t.search(1), Some(&"first"));
    t.insert(2, "two");
    t.insert(1, "third");
    assert_eq!(t.search(1), Some(&"first"));
    assert_eq!(t.search(2), Some(&"two"));
}

#[test]
fn ascending_inserts_keep_logarithmic_height() {
    let mut t: AvlTree<i64> = AvlTree::new();
    for k in 0..1024 {
        t.insert(k, k * 10);
    }
    for k in 0..1024 {
        assert_eq!(t.search(k), Some(&(k * 10)));
    }
    // 1024 nodes: a perfectly balanced tree needs height 11; AVL stays close
    assert!(t.get_height() >= 11);
    assert!(t.get_height() <= 15);
}

#[test]
fn join_of_equal_height_trees() {
    let mut left: AvlTree<&'static str> = AvlTree::new();
    left.insert(1, "one");
    left.insert(2, "two");
    left.insert(3, "three");
    assert_eq!(left.get_height(), 2);
    let mut right: AvlTree<&'static str> = AvlTree::new();
    right.insert(8, "eight");
    right.insert(9, "nine");
    assert_eq!(right.get_height(), 2);

    let t = AvlTree::join(5, "v", left, right);
    assert_eq!(t.search(1), Some(&"one"));
    assert_eq!(t.search(2), Some(&"two"));
    assert_eq!(t.search(3), Some(&"three"));
    assert_eq!(t.search(5), Some(&"v"));
    assert_eq!(t.search(8), Some(&"eight"));
    assert_eq!(t.search(9), Some(&"nine"));
    assert!(t.search(0).is_none());
    assert!(t.search(4).is_none());
    assert!(t.search(7).is_none());
    // six pairs cannot fit in height 2, and join adds at most one level
    assert_eq!(t.get_height(), 3);
}

#[test]
fn join_with_taller_left_tree() {
    let mut left: AvlTree<i64> = AvlTree::new();
    for k in 1..=7 {
        left.insert(k, k);
    }
    assert_eq!(left.get_height(), 3);
    let mut right: AvlTree<i64> = AvlTree::new();
    right.insert(10, 10);
    assert_eq!(right.get_height(), 1);

    let t = AvlTree::join(9, 9, left, right);
    for k in 1..=7 {
        assert_eq!(t.search(k), Some(&k));
    }
    assert_eq!(t.search(9), Some(&9));
    assert_eq!(t.search(10), Some(&10));
    assert!(t.search(8).is_none());
    assert!(t.get_height() <= 4);
}

#[test]
fn join_with_taller_right_tree() {
    let mut left: AvlTree<i64> = AvlTree::new();
    left.insert(1, 1);
    let mut right: AvlTree<i64> = AvlTree::new();
    for k in 4..=10 {
        right.insert(k, k);
    }
    assert_eq!(right.get_height(), 3);

    let t = AvlTree::join(2, 2, left, right);
    assert_eq!(t.search(1), Some(&1));
    assert_eq!(t.search(2), Some(&2));
    for k in 4..=10 {
        assert_eq!(t.search(k), Some(&k));
    }
    assert!(t.search(3).is_none());
    assert!(t.get_height() <= 4);
}

#[test]
fn join_of_two_empty_trees() {
    let left: AvlTree<&'static str> = AvlTree::new();
    let right: AvlTree<&'static str> = AvlTree::new();
    let t = AvlTree::join(5, "only", left, right);
    assert_eq!(t.search(5), Some(&"only"));
    assert!(t.search(4).is_none());
    assert_eq!(t.get_height(), 1);
}

#[test]
fn join_onto_empty_right_tree() {
    let mut left: AvlTree<i64> = AvlTree::new();
    for k in [2, 1, 3, 4] {
        left.insert(k, k);
    }
    let right: AvlTree<i64> = AvlTree::new();
    let t = AvlTree::join(7, 7, left, right);
    for k in [1, 2, 3, 4, 7] {
        assert_eq!(t.search(k), Some(&k));
    }
    assert!(t.search(5).is_none());
    assert!(t.get_height() <= 4);
}

#[test]
fn random_inserts_keep_logarithmic_height() {
    let mut t: AvlTree<i32> = AvlTree::new();
    let n = 200000;
    for _ in 0..n {
        let r = rand::random::<i32>();
        t.insert(r as i64, r);
    }
    // at most n distinct keys: the AVL bound keeps the height below
    // 1.45 * log2(n + 1), far under the worst case of a plain BST
    assert!(t.get_height() <= 26);
}

#[test]
fn descending_inserts_keep_logarithmic_height() {
    let mut t: AvlTree<i64> = AvlTree::new();
    for k in (0..512).rev() {
        t.insert(k, -k);
    }
    for k in 0..512 {
        assert_eq!(t.search(k), Some(&-k));
    }
    assert!(t.get_height() >= 9);
    assert!(t.get_height() <= 14);
}
