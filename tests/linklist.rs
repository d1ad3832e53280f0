use rank_tree::{LinkList, Task};

fn five_tasks() -> Vec<Task> {
    (1..=5).map(|i| Task::new(i, i, 0)).collect::<Vec<_>>()
}

#[test]
fn basic_functions() {
    let tasks = five_tasks();

    let mut ll = LinkList::new();
    assert_eq!(ll.len(), 0);

    ll.push_back(tasks[0].clone());
    ll.push_back(tasks[1].clone());
    ll.push_back(tasks[2].clone());
    ll.push_back(tasks[3].clone());
    ll.push_back(tasks[4].clone());
    assert_eq!(ll.get_head().unwrap().get_rank(), 1);
    assert_eq!(ll.get_head().unwrap().get_id(), 1);
    assert_eq!(ll.len(), 5);
}

#[test]
fn empty_functions() {
    let tasks = five_tasks();

    let mut ll = LinkList::new();
    assert!(ll.is_empty());

    ll.push_back(tasks[0].clone());
    assert!(!ll.is_empty());

    ll.push_back(tasks[1].clone());
    ll.push_back(tasks[2].clone());
    ll.push_back(tasks[3].clone());
    ll.push_back(tasks[4].clone());
    assert!(!ll.is_empty());
    assert_eq!(ll.len(), 5);
}

#[test]
fn find_functions() {
    let tasks = five_tasks();

    let mut ll = LinkList::new();
    assert!(ll.search_by_task(tasks[0].clone()).is_none());

    ll.push_back(tasks[0].clone());
    ll.push_back(tasks[1].clone());
    ll.push_back(tasks[2].clone());

    let found_node = ll.search_by_task(tasks[0].clone());
    assert!(found_node.is_some());
    assert_eq!(found_node.unwrap().get_task().get_id(), tasks[0].get_id());

    ll.push_back(tasks[3].clone());
    ll.push_back(tasks[4].clone());

    assert!(ll.search_by_task(Task::new(100, 100, 0)).is_none());
}

#[test]
fn delete_task_functions() {
    let tasks = five_tasks();

    let mut ll = LinkList::new();
    assert_eq!(ll.len(), 0);

    ll.push_back(tasks[0].clone());
    ll.push_back(tasks[1].clone());
    ll.push_back(tasks[2].clone());
    ll.push_back(tasks[3].clone());
    ll.push_back(tasks[4].clone());
    assert_eq!(ll.len(), 5);

    assert_eq!(ll.delete_task(&tasks[2]).unwrap().get_id(), 3);
    assert_eq!(ll.len(), 4);

    assert_eq!(ll.delete_task(&tasks[0]).unwrap().get_id(), 1);
    assert_eq!(ll.len(), 3);

    assert_eq!(ll.delete_task(&tasks[4]).unwrap().get_id(), 5);
    assert_eq!(ll.len(), 2);

    assert_eq!(ll.delete_task(&tasks[1]).unwrap().get_id(), 2);
    assert_eq!(ll.len(), 1);

    assert!(ll.delete_task(&Task::new(99, 99, 0)).is_none());

    assert_eq!(ll.delete_task(&tasks[3]).unwrap().get_id(), 4);
    assert_eq!(ll.len(), 0);

    assert!(ll.delete_task(&Task::new(42, 42, 0)).is_none());
}

#[test]
fn pops_from_both_ends() {
    let mut ll = LinkList::new();
    assert_eq!(ll.pop(), None);
    assert_eq!(ll.pop_back(), None);
    for t in five_tasks() {
        ll.push_back(t);
    }
    assert_eq!(ll.pop_back(), Some(Task::new(5, 5, 0)));
    assert_eq!(ll.pop(), Some(Task::new(1, 1, 0)));
    assert_eq!(ll.get_head(), Some(Task::new(2, 2, 0)));
    assert_eq!(ll.get_tail(), Some(Task::new(4, 4, 0)));
    assert_eq!(ll.to_vec(), vec![Task::new(2, 2, 0), Task::new(3, 3, 0), Task::new(4, 4, 0)]);
    assert_eq!(ll.pop_back(), Some(Task::new(4, 4, 0)));
    assert_eq!(ll.pop_back(), Some(Task::new(3, 3, 0)));
    assert_eq!(ll.pop_back(), Some(Task::new(2, 2, 0)));
    assert_eq!(ll.pop_back(), None);
    assert_eq!(ll.get_head(), None);
    assert_eq!(ll.get_tail(), None);
    assert!(ll.is_empty());
}

#[test]
fn fifo_order_of_a_bucket() {
    let tasks: Vec<Task> = (0..8).map(|i| Task::new(10 + i, 7, i)).collect();
    let mut ll = LinkList::new();
    for t in &tasks {
        ll.push_back(*t);
    }
    let mut out = Vec::new();
    for _ in 0..tasks.len() {
        out.push(ll.pop().unwrap());
    }
    assert_eq!(out, tasks);
    assert_eq!(ll.pop(), None);
}

#[test]
fn size_matches_forward_traversal() {
    let mut ll = LinkList::new();
    for i in 0..10 {
        ll.push_back(Task::new(i, 1, 0));
        assert_eq!(ll.len(), ll.to_vec().len());
    }
    ll.delete_task(&Task::new(4, 1, 0));
    assert_eq!(ll.len(), ll.to_vec().len());
    ll.pop();
    assert_eq!(ll.len(), ll.to_vec().len());
    ll.pop_back();
    assert_eq!(ll.len(), ll.to_vec().len());
    ll.delete_task(&Task::new(77, 1, 0));
    assert_eq!(ll.len(), 7);
    let ids: Vec<i32> = ll.to_vec().iter().map(|t| t.get_id()).collect();
    assert_eq!(ids, vec![1, 2, 3, 5, 6, 7, 8]);
}

#[test]
fn removal_takes_the_first_of_equal_identities() {
    let mut ll = LinkList::new();
    ll.push_back(Task::new(1, 0, 0));
    ll.push_back(Task::new(2, 0, 10));
    ll.push_back(Task::new(3, 0, 0));
    ll.push_back(Task::new(2, 0, 20));
    assert_eq!(ll.delete_task(&Task::new(2, 0, 0)), Some(Task::new(2, 0, 10)));
    assert_eq!(ll.search_by_task(Task::new(2, 0, 0)).unwrap().get_task().get_state(), 20);
    assert_eq!(ll.to_vec(), vec![Task::new(1, 0, 0), Task::new(3, 0, 0), Task::new(2, 0, 20)]);
}

#[test]
fn reuses_slots_after_removals() {
    let mut ll = LinkList::new();
    for i in 0..6 {
        ll.push_back(Task::new(i, 0, 0));
    }
    ll.delete_task(&Task::new(0, 0, 0));
    ll.delete_task(&Task::new(3, 0, 0));
    ll.push_back(Task::new(6, 0, 0));
    ll.delete_task(&Task::new(5, 0, 0));
    ll.push_back(Task::new(7, 0, 0));
    let ids: Vec<i32> = ll.to_vec().iter().map(|t| t.get_id()).collect();
    assert_eq!(ids, vec![1, 2, 4, 6, 7]);
    let mut back = Vec::new();
    while let Some(t) = ll.pop_back() {
        back.push(t.get_id());
    }
    assert_eq!(back, vec![7, 6, 4, 2, 1]);
}
