use vstd::prelude::*;

use crate::slot::{state_rank, MagicStatic, SlotState};

verus! {

/// Where one thread stands inside its `initialize` call on a shared cell.
#[derive(Clone, Copy, Debug, PartialEq, Eq, Structural)]
pub enum Phase {
    /// Not yet at the compare-and-set.
    Idle,
    /// Won the compare-and-set; about to run the producer and write storage.
    Producing,
    /// Storage written; about to publish `Initialized`.
    Publishing,
    /// Lost to a thread that is still initialising; spinning on the tag.
    Waiting,
    /// The call has returned.
    Done,
}

/// The shared part of a race on one cell, and each thread's phase.
/// `written` says whether the storage holds a value.
pub struct RaceState {
    pub shared: SlotState,
    pub written: bool,
    pub runs: nat,
    pub phases: Seq<Phase>,
}

/// `n` threads about to call `initialize` on a fresh cell.
pub open spec fn race_start(n: nat) -> RaceState {
    RaceState {
        shared: SlotState::Uninitialized,
        written: false,
        runs: 0,
        phases: Seq::new(n, |i: int| Phase::Idle),
    }
}

/// Where a thread goes after its compare-and-set saw `seen`.
pub open spec fn claim_phase(seen: SlotState) -> Phase {
    match seen {
        SlotState::Uninitialized => Phase::Producing,
        SlotState::Initializing => Phase::Waiting,
        SlotState::Initialized => Phase::Done,
    }
}

/// Where a spinning thread goes after a load of the tag saw `seen`.
pub open spec fn poll_phase(seen: SlotState) -> Phase {
    if seen is Initialized {
        Phase::Done
    } else {
        Phase::Waiting
    }
}

/// One atomic step of thread `t`. A thread out of range, or one that has
/// returned, changes nothing.
pub open spec fn race_step(s: RaceState, t: usize) -> RaceState {
    if t >= s.phases.len() {
        s
    } else {
        match s.phases[t as int] {
            Phase::Idle => RaceState {
                shared: if s.shared is Uninitialized {
                    SlotState::Initializing
                } else {
                    s.shared
                },
                phases: s.phases.update(t as int, claim_phase(s.shared)),
                ..s
            },
            Phase::Producing => RaceState {
                written: true,
                runs: s.runs + 1,
                phases: s.phases.update(t as int, Phase::Publishing),
                ..s
            },
            Phase::Publishing => RaceState {
                shared: SlotState::Initialized,
                phases: s.phases.update(t as int, Phase::Done),
                ..s
            },
            Phase::Waiting => RaceState {
                phases: s.phases.update(t as int, poll_phase(s.shared)),
                ..s
            },
            Phase::Done => s,
        }
    }
}

/// The steps of `schedule`, one after the other: an interleaving.
pub open spec fn race_run(s: RaceState, schedule: Seq<usize>) -> RaceState
    decreases schedule.len(),
{
    if schedule.len() == 0 {
        s
    } else {
        race_run(race_step(s, schedule[0]), schedule.drop_first())
    }
}

/// A thread that holds the right to initialise.
pub open spec fn is_owner(p: Phase) -> bool {
    p is Producing || p is Publishing
}

/// Every thread has returned from its call.
pub open spec fn all_returned(s: RaceState) -> bool {
    forall|i: int| 0 <= i < s.phases.len() ==> #[trigger] s.phases[i] is Done
}

/// What holds in every reachable state of a race.
pub open spec fn race_inv(s: RaceState) -> bool {
    &&& s.runs <= 1
    &&& (s.written <==> s.runs == 1)
    &&& (s.shared is Uninitialized ==> !s.written)
    &&& (s.shared is Initialized ==> s.written)
    &&& forall|i: int|
        0 <= i < s.phases.len() && is_owner(#[trigger] s.phases[i]) ==> s.shared is Initializing
    &&& forall|i: int, j: int|
        0 <= i < s.phases.len() && 0 <= j < s.phases.len() && is_owner(#[trigger] s.phases[i])
            && is_owner(#[trigger] s.phases[j]) ==> i == j
    &&& forall|i: int| 0 <= i < s.phases.len() && #[trigger] s.phases[i] is Producing ==> !s.written
    &&& forall|i: int| 0 <= i < s.phases.len() && #[trigger] s.phases[i] is Publishing ==> s.written
    &&& forall|i: int|
        0 <= i < s.phases.len() && #[trigger] s.phases[i] is Waiting ==> !(s.shared is Uninitialized)
    &&& forall|i: int| 0 <= i < s.phases.len() && #[trigger] s.phases[i] is Done ==> s.shared is Initialized
}

/// One step keeps the invariant, and never undoes a write or a publication.
pub proof fn lemma_step_keeps_inv(s: RaceState, t: usize)
    requires
        race_inv(s),
    ensures
        race_inv(race_step(s, t)),
        race_step(s, t).phases.len() == s.phases.len(),
        s.written ==> race_step(s, t).written,
        state_rank(s.shared) <= state_rank(race_step(s, t).shared),
        s.runs <= race_step(s, t).runs,
{
    let s2 = race_step(s, t);
    if t < s.phases.len() {
        let p = s.phases[t as int];
        assert forall|i: int| 0 <= i < s2.phases.len() && i != t implies s2.phases[i] == s.phases[i] by {}
        if p is Idle && s.shared is Uninitialized {
            assert forall|i: int| 0 <= i < s.phases.len() implies !is_owner(#[trigger] s.phases[i]) by {}
        }
    }
}

/// The invariant holds after any interleaving from a state where it held.
pub proof fn lemma_run_keeps_inv(s: RaceState, schedule: Seq<usize>)
    requires
        race_inv(s),
    ensures
        race_inv(race_run(s, schedule)),
        race_run(s, schedule).phases.len() == s.phases.len(),
        s.written ==> race_run(s, schedule).written,
    decreases schedule.len(),
{
    if schedule.len() > 0 {
        lemma_step_keeps_inv(s, schedule[0]);
        lemma_run_keeps_inv(race_step(s, schedule[0]), schedule.drop_first());
    }
}

/// Exactly once: however the calls of `n` threads on one fresh cell
/// interleave, the producer runs at most once, and once every call has
/// returned (with at least one thread) it has run exactly once.
pub proof fn lemma_producer_runs_once(n: nat, schedule: Seq<usize>)
    ensures
        race_run(race_start(n), schedule).runs <= 1,
        n >= 1 && all_returned(race_run(race_start(n), schedule)) ==> race_run(
            race_start(n),
            schedule,
        ).runs == 1,
{
    let s0 = race_start(n);
    assert(race_inv(s0));
    lemma_run_keeps_inv(s0, schedule);
    let s = race_run(s0, schedule);
    if n >= 1 && all_returned(s) {
        assert(s.phases[0] is Done);
    }
}

/// Visibility: in any interleaving, a thread whose call has returned sees the
/// tag `Initialized`, and by then the storage has been written in full.
pub proof fn lemma_returned_sees_value(n: nat, schedule: Seq<usize>, t: int)
    requires
        0 <= t < n,
        race_run(race_start(n), schedule).phases[t] is Done,
    ensures
        race_run(race_start(n), schedule).shared is Initialized,
        race_run(race_start(n), schedule).written,
{
    let s0 = race_start(n);
    assert(race_inv(s0));
    lemma_run_keeps_inv(s0, schedule);
}

/// The phase after a compare-and-set that saw `seen`.
pub fn after_claim(seen: SlotState) -> (p: Phase)
    ensures
        p == claim_phase(seen),
{
    match seen {
        SlotState::Uninitialized => Phase::Producing,
        SlotState::Initializing => Phase::Waiting,
        SlotState::Initialized => Phase::Done,
    }
}

/// The phase after a spinning thread's load saw `seen`.
pub fn after_poll(seen: SlotState) -> (p: Phase)
    ensures
        p == poll_phase(seen),
{
    match seen {
        SlotState::Initialized => Phase::Done,
        _ => Phase::Waiting,
    }
}

/// Threads racing to initialise one cell, stepped one atomic action at a
/// time in an order that the caller chooses.
pub struct Contention<T, F> {
    cell: MagicStatic<T, F>,
    phases: Vec<Phase>,
}

impl<T, F: Fn() -> T> Contention<T, F> {
    /// The shared cell.
    pub closed spec fn cell(&self) -> MagicStatic<T, F> {
        self.cell
    }

    /// Each thread's phase.
    pub closed spec fn phases(&self) -> Seq<Phase> {
        self.phases@
    }

    /// The race as the model sees it.
    pub open spec fn model(&self) -> RaceState {
        RaceState {
            shared: self.cell().state(),
            written: self.cell().value() is Some,
            runs: self.cell().runs(),
            phases: self.phases(),
        }
    }

    /// The cell is well formed, the race is in a reachable state, and the
    /// producer can be called.
    pub open spec fn wf(&self) -> bool {
        &&& self.cell().wf()
        &&& race_inv(self.model())
        &&& self.cell().producer().requires(())
    }

    /// `threads` threads, none of which has started its call, on a fresh cell.
    pub fn new(threads: usize, init: F) -> (r: Self)
        requires
            init.requires(()),
        ensures
            r.wf(),
            r.model() == race_start(threads as nat),
            r.cell().producer() == init,
    {
        let cell = MagicStatic::new(init);
        let mut phases: Vec<Phase> = Vec::new();
        let mut i: usize = 0;
        while i < threads
            invariant
                i <= threads,
                phases@ == Seq::new(i as nat, |k: int| Phase::Idle),
            decreases threads - i,
        {
            phases.push(Phase::Idle);
            i = i + 1;
            assert(phases@ =~= Seq::new(i as nat, |k: int| Phase::Idle));
        }
        let r = Contention { cell, phases };
        assert(r.model().phases =~= race_start(threads as nat).phases);
        r
    }

    /// The number of threads.
    pub fn threads(&self) -> (n: usize)
        ensures
            n == self.phases().len(),
    {
        self.phases.len()
    }

    /// One atomic step of thread `t`, as `race_step` describes it. A value,
    /// once written, is never changed.
    pub fn step(&mut self, t: usize)
        requires
            old(self).wf(),
        ensures
            final(self).wf(),
            final(self).model() == race_step(old(self).model(), t),
            final(self).cell().producer() == old(self).cell().producer(),
            old(self).cell().value() is Some ==> final(self).cell().value() == old(
                self,
            ).cell().value(),
    {
        proof {
            lemma_step_keeps_inv(self.model(), t);
        }
        if t < self.phases.len() {
            match self.phases[t] {
                Phase::Idle => {
                    let seen = self.cell.claim();
                    self.phases.set(t, after_claim(seen));
                },
                Phase::Producing => {
                    self.cell.produce();
                    self.phases.set(t, Phase::Publishing);
                },
                Phase::Publishing => {
                    self.cell.publish();
                    self.phases.set(t, Phase::Done);
                },
                Phase::Waiting => {
                    let seen = self.cell.observe();
                    self.phases.set(t, after_poll(seen));
                },
                Phase::Done => {},
            }
        }
        assert(self.model() =~= race_step(old(self).model(), t));
    }

    /// The steps of `schedule`, in order.
    pub fn run(&mut self, schedule: &Vec<usize>)
        requires
            old(self).wf(),
        ensures
            final(self).wf(),
            final(self).model() == race_run(old(self).model(), schedule@),
            final(self).cell().producer() == old(self).cell().producer(),
            old(self).cell().value() is Some ==> final(self).cell().value() == old(
                self,
            ).cell().value(),
    {
        let mut i: usize = 0;
        assert(schedule@.skip(0) =~= schedule@);
        while i < schedule.len()
            invariant
                i <= schedule.len(),
                self.wf(),
                race_run(self.model(), schedule@.skip(i as int)) == race_run(
                    old(self).model(),
                    schedule@,
                ),
                self.cell().producer() == old(self).cell().producer(),
                old(self).cell().value() is Some ==> self.cell().value() == old(
                    self,
                ).cell().value(),
            decreases schedule.len() - i,
        {
            assert(schedule@.skip(i as int).drop_first() =~= schedule@.skip(i + 1));
            self.step(schedule[i]);
            i = i + 1;
        }
        assert(schedule@.skip(i as int) =~= Seq::<usize>::empty());
    }

    /// Whether thread `t`'s call has returned.
    pub fn returned(&self, t: usize) -> (r: bool)
        ensures
            r == (t < self.phases().len() && self.phases()[t as int] is Done),
    {
        t < self.phases.len() && match self.phases[t] {
            Phase::Done => true,
            _ => false,
        }
    }

    /// What thread `t` reads after its call has returned: the value that the
    /// one run of the producer wrote.
    pub fn read(&self, t: usize) -> (r: &T)
        requires
            self.wf(),
            t < self.phases().len(),
            self.phases()[t as int] is Done,
        ensures
            self.cell().value() == Some(*r),
            self.cell().producer().ensures((), *r),
    {
        self.cell.read()
    }
}

} // verus!
