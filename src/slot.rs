use vstd::prelude::*;

verus! {

/// The state tag of a cell. It only ever moves forward:
/// `Uninitialized -> Initializing -> Initialized`.
#[derive(Clone, Copy, Debug, PartialEq, Eq, Structural)]
pub enum SlotState {
    Uninitialized,
    Initializing,
    Initialized,
}

/// The ways the caller of a cell can break its contract.
#[derive(Clone, Copy, Debug, PartialEq, Eq, Structural)]
pub enum InitError {
    /// A second initialisation in an environment where no race can happen.
    DoubleInitialization,
    /// A read before the value was published.
    UninitializedRead,
}

/// How far a cell has come: the tag only ever grows. It is also the byte
/// that stands for the state in an atomic tag.
pub open spec fn state_rank(s: SlotState) -> u8 {
    match s {
        SlotState::Uninitialized => 0,
        SlotState::Initializing => 1,
        SlotState::Initialized => 2,
    }
}

impl SlotState {
    /// The byte that stands for this state.
    pub fn to_tag(self) -> (r: u8)
        ensures
            r == state_rank(self),
    {
        match self {
            SlotState::Uninitialized => 0,
            SlotState::Initializing => 1,
            SlotState::Initialized => 2,
        }
    }

    /// The state that `tag` stands for; `None` for a byte that stands for none.
    pub fn from_tag(tag: u8) -> (r: Option<SlotState>)
        ensures
            r is None <==> tag > 2,
            r matches Some(s) ==> state_rank(s) == tag,
    {
        match tag {
            0 => Some(SlotState::Uninitialized),
            1 => Some(SlotState::Initializing),
            2 => Some(SlotState::Initialized),
            _ => None,
        }
    }
}

/// A value computed once, by its producer, and read afterwards.
pub struct MagicStatic<T, F> {
    state: SlotState,
    value: Option<T>,
    init: F,
    runs: Ghost<nat>,
}

impl<T, F: Fn() -> T> MagicStatic<T, F> {
    /// The state tag.
    pub closed spec fn state(&self) -> SlotState {
        self.state
    }

    /// What the storage holds: `None` while it is logically uninitialised.
    pub closed spec fn value(&self) -> Option<T> {
        self.value
    }

    /// The producer.
    pub closed spec fn producer(&self) -> F {
        self.init
    }

    /// How many times the producer has been run.
    pub closed spec fn runs(&self) -> nat {
        self.runs@
    }

    /// The storage is written only by one run of the producer, and the tag
    /// says how far that run has come.
    pub open spec fn wf(&self) -> bool {
        &&& self.runs() <= 1
        &&& (self.value() is Some <==> self.runs() == 1)
        &&& (self.state() is Uninitialized ==> self.runs() == 0)
        &&& (self.state() is Initialized ==> self.value() is Some)
        &&& (self.value() is Some ==> self.producer().ensures((), self.value()->Some_0))
    }

    /// `self` is `before` after its producer ran once and its value was published.
    pub open spec fn produced_from(&self, before: &Self) -> bool {
        &&& self.wf()
        &&& self.state() is Initialized
        &&& self.runs() == 1
        &&& self.producer() == before.producer()
    }

    /// A fresh cell: nothing stored, producer not yet run.
    pub fn new(init: F) -> (r: Self)
        ensures
            r.wf(),
            r.state() is Uninitialized,
            r.value() is None,
            r.runs() == 0,
            r.producer() == init,
    {
        MagicStatic { state: SlotState::Uninitialized, value: None, init, runs: Ghost(0) }
    }

    /// Whether the value has been published.
    pub fn initialized(&self) -> (r: bool)
        ensures
            r == (self.state() is Initialized),
    {
        match self.state {
            SlotState::Initialized => true,
            _ => false,
        }
    }

    /// The state tag, as a load of it would see it.
    pub fn observe(&self) -> (r: SlotState)
        ensures
            r == self.state(),
    {
        self.state
    }

    /// The compare-and-set `Uninitialized -> Initializing`. Returns the state
    /// seen before: the caller won the right to run the producer exactly when
    /// that is `Uninitialized`.
    pub fn claim(&mut self) -> (seen: SlotState)
        requires
            old(self).wf(),
        ensures
            seen == old(self).state(),
            final(self).wf(),
            final(self).value() == old(self).value(),
            final(self).runs() == old(self).runs(),
            final(self).producer() == old(self).producer(),
            final(self).state() == (if seen is Uninitialized {
                SlotState::Initializing
            } else {
                seen
            }),
    {
        let seen = self.state;
        if let SlotState::Uninitialized = seen {
            self.state = SlotState::Initializing;
        }
        seen
    }

    /// Runs the producer and writes its result into the storage. Only the
    /// claimant does this, once.
    pub fn produce(&mut self)
        requires
            old(self).wf(),
            old(self).state() is Initializing,
            old(self).value() is None,
            old(self).producer().requires(()),
        ensures
            final(self).wf(),
            final(self).state() is Initializing,
            final(self).value() is Some,
            final(self).runs() == old(self).runs() + 1,
            final(self).producer() == old(self).producer(),
    {
        let v = (self.init)();
        self.value = Some(v);
        self.runs = Ghost(self.runs@ + 1);
    }

    /// Publishes the written value: `Initializing -> Initialized`.
    pub fn publish(&mut self)
        requires
            old(self).wf(),
            old(self).state() is Initializing,
            old(self).value() is Some,
        ensures
            final(self).wf(),
            final(self).state() is Initialized,
            final(self).value() == old(self).value(),
            final(self).runs() == old(self).runs(),
            final(self).producer() == old(self).producer(),
    {
        self.state = SlotState::Initialized;
    }

    /// Initialises the cell unless some call already started to. Calling it
    /// again is a no-op, so the producer runs at most once. With exclusive
    /// access no other call can be under way, so a cell found `Initializing`
    /// is one whose producer failed: it is not retried.
    pub fn initialize(&mut self)
        requires
            old(self).wf(),
            old(self).state() is Uninitialized ==> old(self).producer().requires(()),
        ensures
            old(self).state() is Uninitialized ==> final(self).produced_from(old(self)),
            !(old(self).state() is Uninitialized) ==> *final(self) == *old(self),
            final(self).wf(),
    {
        let seen = self.claim();
        if let SlotState::Uninitialized = seen {
            self.produce();
            self.publish();
        }
    }

    /// Initialisation where no race can happen: a second call is a caller
    /// error, reported as `DoubleInitialization`, and leaves the cell as it was.
    pub fn initialize_bare_metal(&mut self) -> (r: Result<(), InitError>)
        requires
            old(self).wf(),
            old(self).state() is Uninitialized ==> old(self).producer().requires(()),
        ensures
            final(self).wf(),
            r is Ok <==> old(self).state() is Uninitialized,
            r is Ok ==> final(self).produced_from(old(self)),
            r is Err ==> r == Err::<(), InitError>(InitError::DoubleInitialization)
                && *final(self) == *old(self),
    {
        match self.state {
            SlotState::Uninitialized => {
                self.initialize();
                Ok(())
            },
            _ => Err(InitError::DoubleInitialization),
        }
    }

    /// The published value. Reading before initialisation is a caller error.
    pub fn read(&self) -> (r: &T)
        requires
            self.wf(),
            self.state() is Initialized,
        ensures
            self.value() == Some(*r),
    {
        self.value.as_ref().unwrap()
    }

    /// The published value, or `UninitializedRead` before it is published.
    pub fn try_read(&self) -> (r: Result<&T, InitError>)
        requires
            self.wf(),
        ensures
            r is Ok <==> self.state() is Initialized,
            r matches Ok(v) ==> self.value() == Some(*v),
            r is Err ==> r == Err::<&T, InitError>(InitError::UninitializedRead),
    {
        match self.state {
            SlotState::Initialized => Ok(self.read()),
            _ => Err(InitError::UninitializedRead),
        }
    }
}

} // verus!
