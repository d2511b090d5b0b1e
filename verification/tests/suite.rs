use advanced_ds::fenwick_tree::FenwickTree;
use advanced_ds::kmp::{find_all, prefix_function};
use advanced_ds::sparse_table::SparseTable;
use advanced_ds::treap::Treap;
use advanced_ds::union_find::UnionFind;

#[test]
fn test_from_vec_and_query() {
    let values = vec![1, 2, 3, 4, 5, 6, 7, 8];
    let ft = FenwickTree::from_vec(&values);

    assert_eq!(ft.query(0), 1);
    assert_eq!(ft.query(2), 6);
    assert_eq!(ft.query(7), 36);
}

#[test]
fn test_add_and_query() {
    let mut ft = FenwickTree::new(10);
    ft.add(2, 5);
    assert_eq!(ft.query(1), 0);
    assert_eq!(ft.query(2), 5);
    assert_eq!(ft.query(9), 5);

    ft.add(2, -2);
    assert_eq!(ft.query(2), 3);

    ft.add(5, 10);
    assert_eq!(ft.query(4), 3);
    assert_eq!(ft.query(5), 13);
}

#[test]
fn test_range_sum() {
    let values = vec![1, 1, 1, 1, 1, 1, 1, 1];
    let ft = FenwickTree::from_vec(&values);

    assert_eq!(ft.range_sum(0, 7), 8);
    assert_eq!(ft.range_sum(2, 4), 3);
    assert_eq!(ft.range_sum(5, 5), 1);
    assert_eq!(ft.range_sum(7, 6), 0);
}

#[test]
fn test_fenwick_end_to_end() {
    let ft = FenwickTree::from_vec(&[1, 2, 3, 4, 5, 6, 7, 8]);
    assert_eq!(ft.range_sum(2, 4), 12);
    assert_eq!(ft.len(), 8);
}

#[test]
fn test_from_vec_equals_sequential_adds() {
    let values: Vec<i64> = vec![4, -1, 9, 0, 7, 3];
    let built = FenwickTree::from_vec(&values);
    let mut added = FenwickTree::new(values.len());
    for (i, &v) in values.iter().enumerate() {
        added.add(i, v);
    }
    assert_eq!(built.get_internal_tree(), added.get_internal_tree());
    for e in 0..values.len() {
        assert_eq!(built.query(e), added.query(e));
    }
}

#[test]
fn test_internal_tree_shape() {
    let ft = FenwickTree::from_vec(&[1, 2, 3, 4]);
    assert_eq!(ft.get_internal_tree(), vec![0, 1, 3, 3, 10]);
}

#[test]
fn test_prefix_function_basic() {
    let p = "ababcabab";
    let pi = prefix_function(p);
    let expected = vec![0, 0, 1, 2, 0, 1, 2, 3, 4];
    assert_eq!(pi, expected);
}

#[test]
fn test_find_all_simple() {
    let text = "ababcabababc";
    let pattern = "abab";
    let occ = find_all(text, pattern);
    assert_eq!(occ, vec![0, 5, 7]);
}

#[test]
fn test_find_all_no_match() {
    let text = "hello world";
    let pattern = "abc";
    assert!(find_all(text, pattern).is_empty());
}

#[test]
fn test_find_all_overlapping() {
    let text = "aaaaa";
    let pattern = "aa";
    assert_eq!(find_all(text, pattern), vec![0, 1, 2, 3]);
}

#[test]
fn test_empty_pattern() {
    assert!(find_all("anytext", "").is_empty());
}

#[test]
fn test_sparse_table_min_basic() {
    let arr = vec![5, 2, 4, 7, 1, 3];
    let st = SparseTable::from_slice(&arr);
    assert_eq!(st.query(0, 0), Some(5));
    assert_eq!(st.query(0, 2), Some(2));
    assert_eq!(st.query(1, 4), Some(1));
    assert_eq!(st.query(4, 5), Some(1));
    assert_eq!(st.query(5, 5), Some(3));
}

#[test]
fn test_invalid_queries() {
    let arr: Vec<i64> = vec![];
    let st = SparseTable::from_slice(&arr);
    assert_eq!(st.query(0, 0), None);

    let arr2 = vec![1, 2, 3];
    let st2 = SparseTable::from_slice(&arr2);
    assert_eq!(st2.query(2, 1), None);
    assert_eq!(st2.query(0, 10), None);
}

#[test]
fn test_sparse_table_matches_naive_min() {
    let arr: Vec<i64> = vec![9, -3, 12, 0, 5, -3, 8, 2, 11, -7, 4];
    let st = SparseTable::from_slice(&arr);
    for l in 0..arr.len() {
        for r in l..arr.len() {
            let naive = arr[l..=r].iter().copied().min().unwrap();
            assert_eq!(st.query(l, r), Some(naive));
        }
    }
}

#[test]
fn test_insert_contains_len_inorder() {
    let mut t = Treap::new();
    assert!(t.is_empty());
    t.insert(5);
    t.insert(3);
    t.insert(7);
    t.insert(3); // duplicate
    assert_eq!(t.len(), 4);
    assert!(t.contains(3));
    assert!(t.contains(5));
    assert!(t.contains(7));
    assert!(!t.contains(42));
    assert_eq!(t.inorder_vec(), vec![3, 3, 5, 7]);
}

#[test]
fn test_remove_and_duplicates() {
    let mut t = Treap::new();
    t.insert(10);
    t.insert(10);
    t.insert(5);
    t.insert(15);
    assert_eq!(t.len(), 4);
    t.remove(10);
    assert!(t.contains(10));
    assert_eq!(t.len(), 3);
    t.remove(10);
    assert!(!t.contains(10));
    assert_eq!(t.len(), 2);
    t.remove(42);
    assert_eq!(t.len(), 2);
    assert_eq!(t.inorder_vec(), vec![5, 15]);
}

#[test]
fn test_mass_inserts_removes_stability() {
    let mut t = Treap::new();
    for v in 0..100 {
        t.insert(v);
    }
    assert_eq!(t.len(), 100);
    for v in 0..100 {
        assert!(t.contains(v));
    }
    for v in 0..100 {
        t.remove(v);
    }
    assert!(t.is_empty());
}

#[test]
fn test_treap_insert_remove_round_trip() {
    let mut t = Treap::with_seed(11);
    for v in [8, 1, 6, 3, 3, 9] {
        t.insert(v);
    }
    let before = t.inorder_vec();
    t.insert(5);
    t.remove(5);
    assert_eq!(t.inorder_vec(), before);
    assert_eq!(before, vec![1, 3, 3, 6, 8, 9]);
}

#[test]
fn test_treap_inorder_sorted() {
    let mut t = Treap::with_seed(77);
    for v in [41, -2, 17, 0, 41, 99, -50] {
        t.insert(v);
    }
    let order = t.inorder_vec();
    for w in order.windows(2) {
        assert!(w[0] <= w[1]);
    }
    assert_eq!(order.len(), 7);
}

#[test]
fn test_union_find() {
    let mut uf = UnionFind::new(10);
    assert_eq!(uf.count(), 10);

    uf.union(1, 2);
    assert!(uf.connected(1, 2));
    assert_eq!(uf.count(), 9);

    uf.union(2, 3);
    assert!(uf.connected(1, 3));
    assert_eq!(uf.count(), 8);

    uf.union(8, 9);
    assert!(!uf.connected(1, 9));
    assert_eq!(uf.count(), 7);

    assert_eq!(uf.union(1, 3), false);
    assert_eq!(uf.count(), 7);
}

#[test]
fn test_union_find_find_and_parents() {
    let mut uf = UnionFind::new(6);
    uf.union(0, 1);
    uf.union(1, 2);
    let r = uf.find(0);
    assert_eq!(uf.find(1), r);
    assert_eq!(uf.find(2), r);
    assert_eq!(uf.find(r), r);
    let parents = uf.get_parents();
    assert_eq!(parents.len(), 6);
    assert_eq!(parents[0], r);
    assert_eq!(parents[r], r);
    assert_eq!(parents[3], 3);
    assert_eq!(parents[4], 4);
    assert_eq!(parents[5], 5);
}
