use rank_tree::{AvlTree, Task};

#[test]
fn scenario_mixed_ranks_stay_shallow_and_ordered() {
    let mut t = AvlTree::new();
    for (i, r) in [3, 1, 2, 4, 5].iter().enumerate() {
        t.insert(Task::new(i as i32, *r, 0));
    }
    // ceil(log2(6)) + 1 = 4
    assert!(t.height() <= 4);
    assert_eq!(t.ranks(), vec![1, 2, 3, 4, 5]);
}

#[test]
fn scenario_equal_ranks_share_a_bucket() {
    let mut t = AvlTree::new();
    t.insert(Task::new(10, 7, 0));
    t.insert(Task::new(11, 7, 0));
    let b = t.search_by_rank(7).unwrap();
    assert_eq!(b.len(), 2);
    assert_eq!(b.get_head().unwrap().get_id(), 10);
    assert_eq!(b.get_tail().unwrap().get_id(), 11);
}

#[test]
fn scenario_increasing_ranks_trigger_rotations() {
    let mut t = AvlTree::new();
    for r in 1..=5 {
        t.insert(Task::new(r, r, 0));
    }
    assert!(t.height() <= 3);
    assert_eq!(t.height(), 3);
    assert_eq!(t.ranks(), vec![1, 2, 3, 4, 5]);
    assert_eq!(t.bucket().unwrap().get_head().unwrap().get_rank(), 2);
}

#[test]
fn scenario_delete_from_shared_bucket() {
    let mut t = AvlTree::new();
    for id in 1..=5 {
        t.insert(Task::new(id, 9, id * 10));
    }
    let third = Task::new(3, 9, 30);
    assert_eq!(t.delete_by_task(&third), Some(third));
    let b = t.search_by_rank(9).unwrap();
    assert_eq!(b.len(), 4);
    let ids: Vec<i32> = b.to_vec().iter().map(|x| x.get_id()).collect();
    assert_eq!(ids, vec![1, 2, 4, 5]);
}

#[test]
fn avl_balance_after_each_insert() {
    // heights of AVL trees with n nodes stay within 1.44 log2(n + 2)
    let mut t = AvlTree::new();
    let mut seen = Vec::new();
    for i in 0..200 {
        let r = (i * 37) % 101;
        t.insert(Task::new(i, r, 0));
        if !seen.contains(&r) {
            seen.push(r);
        }
        let n = seen.len() as f64;
        assert!((t.height() as f64) <= 1.45 * (n + 2.0).log2());
    }
    seen.sort();
    assert_eq!(t.ranks(), seen);
}

#[test]
fn in_order_ranks_strictly_increase() {
    let mut t = AvlTree::new();
    for r in [50, 20, 80, 10, 30, 70, 90, 20, 25, 27, 26, -4] {
        t.insert(Task::new(r, r, 0));
    }
    let rs = t.ranks();
    assert!(rs.windows(2).all(|w| w[0] < w[1]));
    assert_eq!(rs, vec![-4, 10, 20, 25, 26, 27, 30, 50, 70, 80, 90]);
}
