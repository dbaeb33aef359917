use std::cell::Cell;

use magic_static::{after_claim, after_poll, Contention, Phase, SlotState};

#[test]
fn decisions_after_claim_and_poll() {
    assert_eq!(after_claim(SlotState::Uninitialized), Phase::Producing);
    assert_eq!(after_claim(SlotState::Initializing), Phase::Waiting);
    assert_eq!(after_claim(SlotState::Initialized), Phase::Done);
    assert_eq!(after_poll(SlotState::Initializing), Phase::Waiting);
    assert_eq!(after_poll(SlotState::Initialized), Phase::Done);
}

#[test]
fn three_threads_run_the_producer_once() {
    let counter = Cell::new(0u32);
    let mut race = Contention::new(3, || {
        counter.set(counter.get() + 1);
        69usize
    });
    // All three reach the compare-and-set before the winner produces.
    race.run(&vec![1, 0, 2, 0, 2, 1, 0, 2, 1]);
    assert_eq!(counter.get(), 1);
    assert!(race.returned(1));
    assert!(!race.returned(0) && !race.returned(2));
    race.run(&vec![0, 2]);
    assert_eq!(counter.get(), 1);
    for t in 0..3 {
        assert!(race.returned(t));
        assert_eq!(*race.read(t), 69);
    }
}

#[test]
fn every_schedule_of_two_threads_runs_once() {
    // Each thread needs at most three steps of its own; try every order of
    // six steps drawn from two threads.
    for mask in 0u32..64 {
        let counter = Cell::new(0u32);
        let mut race = Contention::new(2, || {
            counter.set(counter.get() + 1);
            counter.get()
        });
        let schedule: Vec<usize> = (0..6).map(|k| ((mask >> k) & 1) as usize).collect();
        race.run(&schedule);
        assert!(counter.get() <= 1);
        for t in 0..2 {
            if race.returned(t) {
                assert_eq!(counter.get(), 1);
                assert_eq!(*race.read(t), 1);
            }
        }
        // Finish: the owner first, then everyone polls again.
        race.run(&vec![0, 0, 0, 1, 1, 1, 0, 1]);
        assert_eq!(counter.get(), 1);
        assert!(race.returned(0) && race.returned(1));
        assert_eq!(*race.read(0), 1);
        assert_eq!(*race.read(1), 1);
    }
}

#[test]
fn waiting_thread_returns_only_after_publication() {
    let mut race = Contention::new(2, || 7u64);
    race.run(&vec![0, 1, 1, 0]);
    // Thread 0 has produced but not published; thread 1 is still spinning.
    assert!(!race.returned(0));
    assert!(!race.returned(1));
    race.step(1);
    assert!(!race.returned(1));
    race.step(0);
    assert!(race.returned(0));
    race.step(1);
    assert!(race.returned(1));
    assert_eq!(*race.read(1), 7);
}

#[test]
fn late_thread_returns_at_once() {
    let counter = Cell::new(0u32);
    let mut race = Contention::new(2, || {
        counter.set(counter.get() + 1);
        3i32
    });
    race.run(&vec![0, 0, 0]);
    assert!(race.returned(0));
    race.step(1);
    assert!(race.returned(1));
    assert_eq!(counter.get(), 1);
    assert_eq!(*race.read(1), 3);
}

#[test]
fn single_thread_race() {
    let counter = Cell::new(0u32);
    let mut race = Contention::new(1, || {
        counter.set(counter.get() + 1);
        1u8
    });
    assert_eq!(race.threads(), 1);
    race.run(&vec![0, 0, 0, 0, 5]);
    assert!(race.returned(0));
    assert!(!race.returned(5));
    assert_eq!(counter.get(), 1);
}
