use multilist::Multilist;
use multilist::MultilistElement;

fn collect_list(m: &Multilist<i32>, list_index: usize) -> Vec<i32> {
    let mut out: Vec<i32> = Vec::new();
    let mut it = m.iter(list_index);
    while let Some(e) = it.next(m) {
        out.push(*m.get(e));
    }
    out
}

fn nth_element(m: &Multilist<i32>, list_index: usize, n: usize) -> MultilistElement {
    let mut it = m.iter(list_index);
    let mut e = it.next(m).unwrap();
    let mut k: usize = 0;
    while k < n {
        e = it.next(m).unwrap();
        k += 1;
    }
    e
}

#[test]
fn fresh_multilist_has_empty_lists() {
    for count in 1..5usize {
        let m: Multilist<i32> = Multilist::new(count);
        assert_eq!(m.list_count(), count);
        for l in 0..count {
            assert!(m.is_empty(l));
            assert_eq!(collect_list(&m, l), Vec::<i32>::new());
        }
    }
}

#[test]
fn single_insert_is_sole_element() {
    let mut m: Multilist<i32> = Multilist::new(2);
    let e = m.push_back(0, 42);
    assert!(!m.is_empty(0));
    assert!(m.is_empty(1));
    assert_eq!(collect_list(&m, 0), vec![42]);
    assert!(e.is_in_list(&m, 0));
    assert!(!e.is_in_list(&m, 1));
    assert_eq!(*m.get(e), 42);
}

#[test]
fn tail_append_preserves_insertion_order() {
    let mut m: Multilist<i32> = Multilist::new(1);
    m.push_back(0, 10);
    m.push_back(0, 20);
    m.push_back(0, 30);
    assert_eq!(collect_list(&m, 0), vec![10, 20, 30]);
}

#[test]
fn pop_back_removes_from_all_lists() {
    let mut m: Multilist<i32> = Multilist::new(3);
    let a = m.push_back(0, 1);
    let b = m.push_back(0, 2);
    // b joins every list; a stays in list 0 only.
    m.push_back_existing(1, b);
    m.push_back_existing(2, b);
    assert_eq!(collect_list(&m, 0), vec![1, 2]);
    assert_eq!(collect_list(&m, 1), vec![2]);
    assert_eq!(collect_list(&m, 2), vec![2]);
    // b is the tail of list 0 and a member of 3 lists.
    let popped = m.pop_back(0);
    assert_eq!(popped, Some(2));
    assert_eq!(collect_list(&m, 0), vec![1]);
    assert_eq!(collect_list(&m, 1), Vec::<i32>::new());
    assert_eq!(collect_list(&m, 2), Vec::<i32>::new());
    assert!(a.is_in_list(&m, 0));
}

#[test]
fn pop_back_on_empty_list_is_none() {
    let mut m: Multilist<i32> = Multilist::new(2);
    assert_eq!(m.pop_back(0), None);
    m.push_back(1, 7);
    assert_eq!(m.pop_back(0), None);
    assert_eq!(m.pop_back(1), Some(7));
    assert_eq!(m.pop_back(1), None);
}

#[test]
fn duplicate_attachment_is_refused() {
    let mut m: Multilist<i32> = Multilist::new(2);
    let e = m.push_back(0, 5);
    // Already a member of list 0: the checked attach must refuse and leave
    // the structure untouched.
    assert!(!m.try_push_back_existing(0, e));
    assert_eq!(collect_list(&m, 0), vec![5]);
    // A different list is fine.
    assert!(m.try_push_back_existing(1, e));
    assert_eq!(collect_list(&m, 1), vec![5]);
    // And now that one refuses too.
    assert!(!m.try_push_back_existing(1, e));
    assert_eq!(collect_list(&m, 1), vec![5]);
    // Out-of-range list index is refused rather than anything panicking.
    assert!(!m.try_push_back_existing(9, e));
}

#[test]
fn detach_leaves_other_lists_unchanged() {
    let mut m: Multilist<i32> = Multilist::new(3);
    let e = m.push_back(0, 11);
    m.push_back_existing(1, e);
    m.push_back_existing(2, e);
    m.remove_existing(1, e);
    assert!(e.is_in_list(&m, 0));
    assert!(!e.is_in_list(&m, 1));
    assert!(e.is_in_list(&m, 2));
    assert_eq!(collect_list(&m, 0), vec![11]);
    assert_eq!(collect_list(&m, 1), Vec::<i32>::new());
    assert_eq!(collect_list(&m, 2), vec![11]);
}

#[test]
fn detach_from_last_list_leaks_but_keeps_value() {
    let mut m: Multilist<i32> = Multilist::new(2);
    let e = m.push_back(0, 99);
    m.remove_existing(0, e);
    // The element belongs to no list now; its storage is still live (the
    // documented leak), so the handle still reads the value.
    assert!(!e.is_in_list(&m, 0));
    assert!(!e.is_in_list(&m, 1));
    assert!(m.is_empty(0));
    assert_eq!(*m.get(e), 99);
    // The checked detach refuses a second removal.
    assert!(!m.try_remove_existing(0, e));
}

#[test]
fn drain_frees_each_element_exactly_once() {
    let mut m: Multilist<i32> = Multilist::new(2);
    let a = m.push_back(0, 1);
    let b = m.push_back(0, 2);
    m.push_back_existing(1, a);
    m.push_back_existing(1, b);
    m.push_back(1, 3);
    // Drain list 0 first, then list 1, as teardown does.
    let mut freed: Vec<i32> = Vec::new();
    while let Some(v) = m.pop_back(0) {
        freed.push(v);
    }
    while let Some(v) = m.pop_back(1) {
        freed.push(v);
    }
    freed.sort();
    assert_eq!(freed, vec![1, 2, 3]);
    assert!(m.is_empty(0));
    assert!(m.is_empty(1));
}

#[test]
fn clear_empties_every_list() {
    let mut m: Multilist<i32> = Multilist::new(3);
    let a = m.push_back(0, 1);
    m.push_back_existing(2, a);
    m.push_back(1, 2);
    m.push_back(2, 3);
    m.clear();
    for l in 0..3 {
        assert!(m.is_empty(l));
        assert_eq!(collect_list(&m, l), Vec::<i32>::new());
    }
}

#[test]
fn task_and_run_list_scenario() {
    const TASK_LIST: usize = 0;
    const RUN_LIST: usize = 1;
    let mut m: Multilist<i32> = Multilist::new(2);

    // Insert 1, 3, 5 into the task list.
    m.push_back(TASK_LIST, 1);
    m.push_back(TASK_LIST, 3);
    m.push_back(TASK_LIST, 5);
    assert_eq!(collect_list(&m, TASK_LIST), vec![1, 3, 5]);
    assert_eq!(collect_list(&m, RUN_LIST), Vec::<i32>::new());

    // Attach task-list elements at positions 2, 0, 1 into the run list.
    let e2 = nth_element(&m, TASK_LIST, 2);
    m.push_back_existing(RUN_LIST, e2);
    let e0 = nth_element(&m, TASK_LIST, 0);
    m.push_back_existing(RUN_LIST, e0);
    let e1 = nth_element(&m, TASK_LIST, 1);
    m.push_back_existing(RUN_LIST, e1);
    assert_eq!(collect_list(&m, RUN_LIST), vec![5, 1, 3]);
    assert_eq!(collect_list(&m, TASK_LIST), vec![1, 3, 5]);

    // Detach the task list's element at position 1 (value 3) from the task
    // list only.
    let e = nth_element(&m, TASK_LIST, 1);
    m.remove_existing(TASK_LIST, e);
    assert_eq!(collect_list(&m, TASK_LIST), vec![1, 5]);
    assert_eq!(collect_list(&m, RUN_LIST), vec![5, 1, 3]);

    // Insert a new value 7 into the task list.
    m.push_back(TASK_LIST, 7);
    assert_eq!(collect_list(&m, TASK_LIST), vec![1, 5, 7]);

    // Pop the tail of the run list (value 3).
    let popped = m.pop_back(RUN_LIST);
    assert_eq!(popped, Some(3));
    assert_eq!(collect_list(&m, RUN_LIST), vec![5, 1]);
    assert_eq!(collect_list(&m, TASK_LIST), vec![1, 5, 7]);
}

#[test]
fn handles_are_copyable_and_comparable() {
    let mut m: Multilist<i32> = Multilist::new(2);
    let e = m.push_back(0, 4);
    let e2 = e;
    assert!(e == e2);
    let f = m.push_back(0, 6);
    assert!(e != f);
    let first = nth_element(&m, 0, 0);
    assert!(first == e);
}

#[test]
fn link_pair_constructors_are_empty() {
    // The public link-pair and table-entry constructors describe empty
    // links; a multilist built from them (via new) reports empty lists.
    let _pair = multilist::MultilistPointers::new();
    let _table_entry = multilist::MultilistListPointers::new();
    let m: Multilist<u64> = Multilist::new(1);
    assert!(m.is_empty(0));
}
