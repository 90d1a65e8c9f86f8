use lucid_runtime::list_ops::{insert_at, pop_at, pop_range};

#[test]
fn pop_of_a_range_removes_it() {
    let mut xs = vec![1, 2, 3, 4];
    let removed = pop_range(&mut xs, false, 1, 3).unwrap();
    assert_eq!(removed, vec![2, 3]);
    assert_eq!(xs, vec![1, 4]);
    assert_eq!(removed[0] + removed[1] + xs[1], 9);
    let mut ys = vec![1, 2, 3, 4];
    assert_eq!(pop_range(&mut ys, false, -3, -1).unwrap(), vec![2, 3]);
    assert_eq!(pop_range(&mut ys, false, 3, 1).unwrap(), Vec::<i32>::new());
    assert_eq!(ys, vec![1, 4]);
    assert_eq!(pop_range(&mut ys, false, -100, 100).unwrap(), vec![1, 4]);
    assert!(ys.is_empty());
}

#[test]
fn pop_by_index() {
    let mut xs = vec![10, 20, 30];
    assert_eq!(pop_at(&mut xs, false, None).unwrap(), 30);
    assert_eq!(pop_at(&mut xs, false, Some(-2)).unwrap(), 10);
    assert_eq!(xs, vec![20]);
    assert_eq!(pop_at(&mut xs, false, Some(5)).err().unwrap().message, "pop index 5 out of range");
    assert_eq!(pop_at(&mut xs, false, Some(-2)).err().unwrap().message, "pop index -2 out of range");
    assert_eq!(pop_at(&mut xs, false, Some(0)).unwrap(), 20);
    assert_eq!(pop_at(&mut xs, false, None).err().unwrap().message, "pop from empty list");
}

#[test]
fn frozen_lists_refuse_changes() {
    let mut xs = vec![1, 2];
    assert_eq!(pop_at(&mut xs, true, None).err().unwrap().message, "cannot mutate frozen list");
    assert_eq!(pop_range(&mut xs, true, 0, 1).err().unwrap().message, "cannot mutate frozen list");
    assert_eq!(insert_at(&mut xs, true, 0, 9).err().unwrap().message, "cannot mutate frozen list");
    assert_eq!(xs, vec![1, 2]);
}

#[test]
fn insertion_clamps_its_index() {
    let mut xs = vec![1, 2, 3];
    insert_at(&mut xs, false, 1, 9).unwrap();
    assert_eq!(xs, vec![1, 9, 2, 3]);
    insert_at(&mut xs, false, -1, 8).unwrap();
    assert_eq!(xs, vec![1, 9, 2, 8, 3]);
    insert_at(&mut xs, false, 100, 7).unwrap();
    insert_at(&mut xs, false, -100, 0).unwrap();
    assert_eq!(xs, vec![0, 1, 9, 2, 8, 3, 7]);
}
