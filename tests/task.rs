use rank_tree::Task;

#[test]
fn task_accessors() {
    let t = Task::new(3, -8, 12);
    assert_eq!(t.get_id(), 3);
    assert_eq!(t.get_rank(), -8);
    assert_eq!(t.get_state(), 12);
    assert_eq!(t, Task::new(3, -8, 12));
    assert_ne!(t, Task::new(3, -8, 13));
}
