use rank_tree::{AvlTree, Task};

fn first_batch() -> Vec<Task> {
    vec![
        Task::new(1, 5, 0),
        Task::new(2, 6, 0),
        Task::new(3, 3, 0),
        Task::new(4, 4, 0),
        Task::new(5, 5, 0),
    ]
}

fn second_batch() -> Vec<Task> {
    vec![
        Task::new(15, 9, 0),
        Task::new(16, 5, 0),
        Task::new(14, 4, 0),
        Task::new(12, 8, 0),
        Task::new(8, 6, 0),
        Task::new(11, 3, 0),
        Task::new(6, 10, 0),
        Task::new(8, 3, 0),
        Task::new(7, 7, 0),
        Task::new(10, 10, 0),
        Task::new(10, 5, 0),
    ]
}

#[test]
fn test_insert_tasks() {
    let mut avl_tree = AvlTree::new();

    let tasks = first_batch();
    for task in &tasks {
        avl_tree.insert(task.clone());
    }

    assert_eq!(avl_tree.height(), 3);
    match avl_tree.bucket() {
        Some(ll) => assert_eq!(ll.len(), 2),
        None => unreachable!(),
    }

    let tasks2 = second_batch();
    for task in &tasks2 {
        avl_tree.insert(task.clone());
    }

    // Ranks 3,4,5,6,7,8,9,10 in an AVL tree: the rotations keep the height at
    // 4, where a plain search tree would reach 5 along 5-6-9-8-7.
    assert_eq!(avl_tree.height(), 4);
    match avl_tree.bucket() {
        Some(ll) => assert_eq!(ll.len(), 4),
        None => unreachable!(),
    }
    let search_result = avl_tree.search_by_task(&tasks[2]);
    assert!(search_result.is_some());
    if let Some(node) = search_result {
        if let Some(ll) = node.bucket() {
            assert_eq!(ll.len(), 3);
        } else {
            unreachable!()
        }
    }
}

#[test]
fn test_search_by_task() {
    let mut avl_tree = AvlTree::new();

    let tasks = first_batch();
    for task in &tasks {
        avl_tree.insert(task.clone());
    }
    let search_result = avl_tree.search_by_task(&tasks[2]);
    assert!(search_result.is_some());
    if let Some(node) = search_result {
        match node.bucket() {
            Some(ll) => {
                let retrieved_task = ll.get_head().unwrap();
                assert_eq!(retrieved_task.get_rank(), tasks[2].get_rank());
            }
            None => unreachable!(),
        }
    }

    let non_existing_task = Task::new(10, 10, 0);
    let non_existing_search_result = avl_tree.search_by_task(&non_existing_task);
    assert!(non_existing_search_result.is_none());

    let tasks2 = second_batch();
    for task in &tasks2 {
        avl_tree.insert(task.clone());
    }

    let new_existing_task = Task::new(10, 10, 0);
    let new_existing_search_result = avl_tree.search_by_task(&new_existing_task);
    assert!(new_existing_search_result.is_some());
}

#[test]
fn test_delete_by_task() {
    let mut avl_tree = AvlTree::new();

    let tasks = first_batch();
    for task in &tasks {
        avl_tree.insert(task.clone());
    }

    avl_tree.delete_by_task(&tasks[0]);
    assert_eq!(avl_tree.height(), 3);
    match avl_tree.bucket() {
        Some(ll) => {
            assert_eq!(ll.len(), 1);
            assert_eq!(ll.get_head().unwrap().get_id(), tasks[4].get_id());
        }
        None => unreachable!(),
    }

    let non_existent_task = Task::new(100, 6, 0);
    avl_tree.delete_by_task(&non_existent_task);
    assert_eq!(avl_tree.height(), 3);
    match avl_tree.bucket() {
        Some(ll) => {
            assert_eq!(ll.len(), 1);
        }
        None => unreachable!(),
    }

    let mut empty_tree = AvlTree::new();
    empty_tree.delete_by_task(&tasks[0]);
    assert_eq!(empty_tree.height(), 1);
    assert!(empty_tree.is_empty());
}

#[test]
fn delete_returns_the_removed_task() {
    let mut t = AvlTree::new();
    for task in first_batch() {
        t.insert(task);
    }
    assert_eq!(t.delete_by_task(&Task::new(5, 5, 0)), Some(Task::new(5, 5, 0)));
    assert_eq!(t.delete_by_task(&Task::new(5, 5, 0)), None);
    // same identity, other rank: not found in the bucket of that rank
    assert_eq!(t.delete_by_task(&Task::new(2, 3, 0)), None);
    assert_eq!(t.search_by_rank(5).unwrap().len(), 1);
}

#[test]
fn emptied_bucket_takes_its_node_out() {
    let mut t = AvlTree::new();
    for task in first_batch() {
        t.insert(task);
    }
    assert_eq!(t.ranks(), vec![3, 4, 5, 6]);
    assert_eq!(t.delete_by_task(&Task::new(3, 3, 0)), Some(Task::new(3, 3, 0)));
    assert!(t.search_by_rank(3).is_none());
    assert_eq!(t.ranks(), vec![4, 5, 6]);
    assert_eq!(t.height(), 2);
    // the root's bucket empties: its in-order successor takes its place
    t.delete_by_task(&Task::new(1, 5, 0));
    t.delete_by_task(&Task::new(5, 5, 0));
    assert_eq!(t.ranks(), vec![4, 6]);
    assert_eq!(t.bucket().unwrap().get_head().unwrap().get_rank(), 6);
    t.delete_by_task(&Task::new(2, 6, 0));
    t.delete_by_task(&Task::new(4, 4, 0));
    assert!(t.is_empty());
    assert_eq!(t.height(), 1);
    assert!(t.bucket().is_none());
}

#[test]
fn deletions_keep_the_tree_balanced() {
    let mut t = AvlTree::new();
    for r in 1..=31 {
        t.insert(Task::new(r, r, 0));
    }
    assert_eq!(t.height(), 5);
    for r in 1..=20 {
        assert_eq!(t.delete_by_task(&Task::new(r, r, 0)), Some(Task::new(r, r, 0)));
    }
    assert_eq!(t.ranks(), (21..=31).collect::<Vec<i32>>());
    assert!(t.height() <= 4);
}

#[test]
fn search_by_rank_finds_the_bucket() {
    let mut t = AvlTree::new();
    assert!(t.search_by_rank(7).is_none());
    t.insert(Task::new(1, 7, 2));
    t.insert(Task::new(2, 3, 0));
    t.insert(Task::new(3, 7, 1));
    let b = t.search_by_rank(7).unwrap();
    assert_eq!(b.to_vec(), vec![Task::new(1, 7, 2), Task::new(3, 7, 1)]);
    assert!(t.search_by_rank(4).is_none());
    assert_eq!(t.search_by_rank(3).unwrap().len(), 1);
}

#[test]
fn subtrees_hold_smaller_and_larger_ranks() {
    let mut t = AvlTree::new();
    for r in [4, 2, 6, 1, 3, 5, 7] {
        t.insert(Task::new(r, r, 0));
    }
    assert_eq!(t.bucket().unwrap().get_head().unwrap().get_rank(), 4);
    assert_eq!(t.left().unwrap().ranks(), vec![1, 2, 3]);
    assert_eq!(t.right().unwrap().ranks(), vec![5, 6, 7]);
    assert_eq!(t.height(), 3);
    assert!(AvlTree::new().left().is_none());
}
