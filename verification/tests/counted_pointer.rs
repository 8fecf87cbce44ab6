use pointers::rc::{Rc, RcInner};

/// Destroys every handle but the last and checks that none of them frees the
/// cell; then destroys the last one and returns what it said.
fn destroy_all<T>(mut handles: Vec<Rc<T>>, cell: &mut RcInner<T>) -> bool {
    let last = handles.pop().expect("at least one handle");
    for handle in handles {
        assert!(!handle.drop(cell));
    }
    last.drop(cell)
}

#[test]
fn new_cell_has_one_handle() {
    let (handle, mut cell) = Rc::new(41u32);
    assert_eq!(cell.refcount(), 1);
    assert_eq!(*handle.deref(&cell), 41);
    assert!(handle.drop(&mut cell));
}

#[test]
fn clone_counts_the_new_handle() {
    let (first, mut cell) = Rc::new(String::from("shared"));
    let second = first.clone(&mut cell);
    assert_eq!(cell.refcount(), 2);
    let third = second.clone(&mut cell);
    assert_eq!(cell.refcount(), 3);
    assert!(destroy_all(vec![first, second, third], &mut cell));
}

#[test]
fn drop_lowers_the_count_by_one() {
    let (first, mut cell) = Rc::new(7u8);
    let second = first.clone(&mut cell);
    let third = first.clone(&mut cell);
    assert_eq!(cell.refcount(), 3);
    assert!(!second.drop(&mut cell));
    assert_eq!(cell.refcount(), 2);
    assert!(!first.drop(&mut cell));
    assert_eq!(cell.refcount(), 1);
    assert!(third.drop(&mut cell));
    assert_eq!(cell.refcount(), 0);
}

#[test]
fn only_the_last_drop_frees_the_cell() {
    let (first, mut cell) = Rc::new(vec![1, 2, 3]);
    let mut handles = vec![first];
    for _ in 0..9 {
        let copy = handles[0].clone(&mut cell);
        handles.push(copy);
    }
    assert_eq!(cell.refcount(), 10);
    let mut freed = 0;
    while let Some(handle) = handles.pop() {
        let left = handles.len();
        if handle.drop(&mut cell) {
            freed += 1;
            assert_eq!(left, 0);
        }
        assert_eq!(cell.refcount(), left);
    }
    assert_eq!(freed, 1);
}

#[test]
fn count_is_the_number_of_handles_at_every_point() {
    // true: copy the handle at the front; false: destroy the one at the back.
    let history = [true, true, false, true, false, false, true, true, true, false, false];
    let (first, mut cell) = Rc::new('x');
    let mut handles = vec![first];
    for copy in history {
        if copy {
            let handle = handles[0].clone(&mut cell);
            handles.push(handle);
        } else {
            let handle = handles.pop().expect("a handle to destroy");
            assert_eq!(handle.drop(&mut cell), handles.is_empty());
        }
        assert_eq!(cell.refcount(), handles.len());
        assert!(cell.refcount() >= 1);
        assert_eq!(*handles[0].deref(&cell), 'x');
    }
    assert_eq!(cell.refcount(), 2);
    assert!(destroy_all(handles, &mut cell));
}

#[test]
fn value_is_readable_while_a_handle_is_left() {
    let (first, mut cell) = Rc::new(String::from("kept"));
    let second = first.clone(&mut cell);
    assert!(!first.drop(&mut cell));
    assert_eq!(second.deref(&cell), "kept");
    let third = second.clone(&mut cell);
    assert!(!second.drop(&mut cell));
    assert_eq!(third.deref(&cell), "kept");
    assert!(third.drop(&mut cell));
}

#[test]
fn every_handle_reads_the_value_the_cell_was_made_with() {
    let (first, mut cell) = Rc::new((3u64, -4i64));
    let second = first.clone(&mut cell);
    let third = second.clone(&mut cell);
    assert_eq!(*first.deref(&cell), (3, -4));
    assert_eq!(*second.deref(&cell), (3, -4));
    assert_eq!(*third.deref(&cell), (3, -4));
    assert!(!first.drop(&mut cell));
    assert_eq!(*third.deref(&cell), (3, -4));
    assert!(destroy_all(vec![second, third], &mut cell));
}

#[test]
fn deref_leaves_the_count_alone() {
    let (first, mut cell) = Rc::new(5i32);
    let second = first.clone(&mut cell);
    for _ in 0..4 {
        assert_eq!(*first.deref(&cell), 5);
        assert_eq!(*second.deref(&cell), 5);
    }
    assert_eq!(cell.refcount(), 2);
    assert!(destroy_all(vec![first, second], &mut cell));
}

#[test]
fn freeing_the_cell_drops_the_value() {
    let witness = std::rc::Rc::new(());
    let (first, mut cell) = Rc::new(witness.clone());
    let second = first.clone(&mut cell);
    assert_eq!(std::rc::Rc::strong_count(&witness), 2);
    assert!(!first.drop(&mut cell));
    assert_eq!(std::rc::Rc::strong_count(&witness), 2);
    if second.drop(&mut cell) {
        drop(cell);
    }
    assert_eq!(std::rc::Rc::strong_count(&witness), 1);
}

#[test]
fn cells_keep_separate_counts() {
    let (a, mut left) = Rc::new(1u8);
    let (b, mut right) = Rc::new(2u8);
    let a2 = a.clone(&mut left);
    assert_eq!(left.refcount(), 2);
    assert_eq!(right.refcount(), 1);
    assert!(b.drop(&mut right));
    assert_eq!(left.refcount(), 2);
    assert_eq!(*a2.deref(&left), 1);
    assert!(destroy_all(vec![a, a2], &mut left));
}
