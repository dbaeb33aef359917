use std::cell::{Cell, RefCell};

use magic_static::{magic_static, Statics, Target};

type Producer<'a> = Box<dyn Fn() -> u32 + 'a>;

#[test]
fn group_runs_cells_in_order() {
    let mut st: Statics<u32, Producer> = Statics::new();
    let a = st.declare(Box::new(|| 12));
    let b = st.declare(Box::new(|| 1337));
    let c = st.declare(Box::new(|| 42));
    assert_eq!(st.len(), 3);
    magic_static(&mut st, &vec![Target::Slot(b), Target::Slot(a), Target::Slot(c)]);
    assert_eq!(st.init_order(), &vec![1, 0, 2]);
    assert_eq!(*st.get(a).read(), 12);
    assert_eq!(*st.get(b).read(), 1337);
    assert_eq!(*st.get(c).read(), 42);
}

#[test]
fn replayed_group_changes_nothing() {
    let runs = Cell::new(0u32);
    let mut st: Statics<u32, Producer> = Statics::new();
    let a = st.declare(Box::new(|| {
        runs.set(runs.get() + 1);
        420
    }));
    let b = st.declare(Box::new(|| {
        runs.set(runs.get() + 1);
        0
    }));
    let group = vec![Target::Slot(a), Target::Group(vec![Target::Slot(b)])];
    magic_static(&mut st, &group);
    assert_eq!(runs.get(), 2);
    magic_static(&mut st, &group);
    assert_eq!(runs.get(), 2);
    assert_eq!(st.init_order(), &vec![0, 1]);
    assert_eq!(*st.get(a).read(), 420);
    assert_eq!(*st.get(b).read(), 0);
}

#[test]
fn dependent_producer_sees_earlier_entry() {
    let set_by_a = Cell::new(0u32);
    let mut st: Statics<u32, Producer> = Statics::new();
    let a = st.declare(Box::new(|| {
        set_by_a.set(5);
        1
    }));
    let b = st.declare(Box::new(|| set_by_a.get() * 10));
    let c = st.declare(Box::new(|| 3));
    magic_static(&mut st, &vec![Target::Slot(a), Target::Slot(b), Target::Slot(c)]);
    assert_eq!(*st.get(b).read(), 50);
}

#[test]
fn reordered_dependency_is_detected() {
    let set_by_a = Cell::new(0u32);
    let mut st: Statics<u32, Producer> = Statics::new();
    let a = st.declare(Box::new(|| {
        set_by_a.set(5);
        1
    }));
    let b = st.declare(Box::new(|| set_by_a.get() * 10));
    let c = st.declare(Box::new(|| 3));
    magic_static(&mut st, &vec![Target::Slot(b), Target::Slot(a), Target::Slot(c)]);
    assert_eq!(*st.get(b).read(), 0);
    assert_ne!(*st.get(b).read(), 50);
}

#[test]
fn nested_groups_run_depth_first() {
    let log = RefCell::new(Vec::new());
    let mut st: Statics<u32, Producer> = Statics::new();
    let mut ids = Vec::new();
    for k in 0..5u32 {
        let log = &log;
        ids.push(st.declare(Box::new(move || {
            log.borrow_mut().push(k);
            k * 100
        })));
    }
    // [ [ s3, [ s0, s4 ] ], s1, [ s2 ] ]: two levels of nesting, five cells.
    let inner = vec![Target::Slot(ids[0]), Target::Slot(ids[4])];
    let outer = vec![Target::Slot(ids[3]), Target::Group(inner)];
    let entries = vec![
        Target::Group(outer),
        Target::Slot(ids[1]),
        Target::Group(vec![Target::Slot(ids[2])]),
    ];
    magic_static(&mut st, &entries);
    assert_eq!(*log.borrow(), vec![3, 0, 4, 1, 2]);
    assert_eq!(st.init_order(), &vec![3, 0, 4, 1, 2]);
    for k in 0..5usize {
        assert_eq!(*st.get(ids[k]).read(), k as u32 * 100);
    }
}

#[test]
fn repeated_entry_counts_once() {
    let runs = Cell::new(0u32);
    let mut st: Statics<u32, Producer> = Statics::new();
    let a = st.declare(Box::new(|| {
        runs.set(runs.get() + 1);
        9
    }));
    magic_static(&mut st, &vec![Target::Slot(a), Target::Group(vec![Target::Slot(a)]), Target::Slot(a)]);
    assert_eq!(runs.get(), 1);
    assert_eq!(st.init_order(), &vec![0]);
}

#[test]
fn empty_group_does_nothing() {
    let mut st: Statics<u32, Producer> = Statics::new();
    let a = st.declare(Box::new(|| 1));
    magic_static(&mut st, &vec![]);
    magic_static(&mut st, &vec![Target::Group(vec![])]);
    assert!(st.init_order().is_empty());
    assert!(!st.get(a).initialized());
}

#[test]
fn single_initialize_through_statics() {
    let mut st: Statics<u32, Producer> = Statics::new();
    let a = st.declare(Box::new(|| 11));
    let b = st.declare(Box::new(|| 12));
    st.initialize(b);
    st.initialize(b);
    assert_eq!(st.init_order(), &vec![1]);
    assert!(!st.get(a).initialized());
    assert_eq!(*st.get(b).read(), 12);
}
