use vstd::prelude::*;
use crate::removal::batch::Removal;

verus! {

/// The status of a run that deleted what it could.
pub const EXIT_SUCCESS: i32 = 0;

/// The status of a run that could not start: bad arguments or an unreadable root.
pub const EXIT_USAGE: i32 = 1;

/// The status of a run stopped by a termination signal.
pub const EXIT_INTERRUPTED: i32 = 130;

/// Where a run stands.
#[derive(Clone, Copy, Debug, PartialEq, Eq, Structural)]
pub enum Phase {
    /// Chunks of files are being removed.
    Files,
    /// The traversal is over; chunks of directories are being removed.
    Directories,
    /// Every chunk was handed out.
    Completed,
    /// A stop was requested between two batches.
    Interrupted,
}

/// Where a run stands with respect to the current batch.
#[derive(Clone, Copy, Debug, PartialEq, Eq, Structural)]
pub enum Stage {
    /// No batch is in flight: the cancellation latch may be polled.
    Between,
    /// A chunk was asked for and has not been reported yet.
    Fetching,
    /// A batch was submitted and its completions are not drained yet.
    InFlight,
}

/// What the run asks of its driver.
#[derive(Clone, Copy, Debug, PartialEq, Eq, Structural)]
pub enum Action {
    /// Fetch the next chunk of files and report its length.
    FetchFiles,
    /// Fetch the next chunk of directories and report its length.
    FetchDirectories,
    /// The run is over: end with this status.
    Exit(i32),
}

/// A run as the contracts speak of it.
pub struct RunView {
    pub phase: Phase,
    pub stage: Stage,
    /// The kind of every batch submitted so far, in order.
    pub submitted: Seq<Removal>,
}

/// The state of a run that has not started.
pub open spec fn initial() -> RunView {
    RunView { phase: Phase::Files, stage: Stage::Between, submitted: seq![] }
}

/// What a poll of the cancellation latch between two batches does.
pub open spec fn poll(v: RunView, stop_requested: bool) -> (RunView, Action) {
    match v.phase {
        Phase::Completed => (v, Action::Exit(EXIT_SUCCESS)),
        Phase::Interrupted => (v, Action::Exit(EXIT_INTERRUPTED)),
        Phase::Files => if stop_requested {
            (RunView { phase: Phase::Interrupted, ..v }, Action::Exit(EXIT_INTERRUPTED))
        } else {
            (RunView { stage: Stage::Fetching, ..v }, Action::FetchFiles)
        },
        Phase::Directories => if stop_requested {
            (RunView { phase: Phase::Interrupted, ..v }, Action::Exit(EXIT_INTERRUPTED))
        } else {
            (RunView { stage: Stage::Fetching, ..v }, Action::FetchDirectories)
        },
    }
}

/// The kind of batch that a running phase submits.
pub open spec fn batch_kind(phase: Phase) -> Removal {
    if phase == Phase::Files {
        Removal::File
    } else {
        Removal::Directory
    }
}

/// What the report of a fetched chunk does: a chunk with entries is
/// submitted; an empty one ends its phase.
pub open spec fn fetched(v: RunView, chunk_len: nat) -> (RunView, bool) {
    if chunk_len > 0 {
        (
            RunView {
                stage: Stage::InFlight,
                submitted: v.submitted.push(batch_kind(v.phase)),
                ..v
            },
            true,
        )
    } else if v.phase == Phase::Files {
        (RunView { phase: Phase::Directories, stage: Stage::Between, ..v }, false)
    } else {
        (RunView { phase: Phase::Completed, stage: Stage::Between, ..v }, false)
    }
}

/// One thing that can happen to a run.
pub enum Event {
    /// The latch was polled and read as given.
    Poll(bool),
    /// A chunk of the given length was fetched.
    Fetched(nat),
    /// The batch in flight was drained.
    Drained,
}

/// A run after one event; an event out of turn leaves it unchanged.
pub open spec fn step(v: RunView, e: Event) -> RunView {
    match e {
        Event::Poll(stop) => if v.stage == Stage::Between {
            poll(v, stop).0
        } else {
            v
        },
        Event::Fetched(n) => if v.stage == Stage::Fetching {
            fetched(v, n).0
        } else {
            v
        },
        Event::Drained => if v.stage == Stage::InFlight {
            RunView { stage: Stage::Between, ..v }
        } else {
            v
        },
    }
}

/// A run after a sequence of events.
pub open spec fn replay(v: RunView, events: Seq<Event>) -> RunView
    decreases events.len(),
{
    if events.len() == 0 {
        v
    } else {
        step(replay(v, events.drop_last()), events.last())
    }
}

/// The run-level state machine: it decides between batches whether to go on,
/// which kind of chunk comes next, and when the run is over. Its driver
/// performs the actions and reports what happened.
pub struct Run {
    phase: Phase,
    stage: Stage,
    submitted: Ghost<Seq<Removal>>,
}

impl View for Run {
    type V = RunView;

    closed spec fn view(&self) -> RunView {
        RunView { phase: self.phase, stage: self.stage, submitted: self.submitted@ }
    }
}

impl Run {
    /// A run that starts with the files.
    pub fn new() -> (r: Run)
        ensures
            r@ == initial(),
    {
        Run { phase: Phase::Files, stage: Stage::Between, submitted: Ghost(Seq::empty()) }
    }

    /// The phase of the run.
    pub fn phase(&self) -> (r: Phase)
        ensures
            r == self@.phase,
    {
        self.phase
    }

    /// Where the run stands with respect to the current batch.
    pub fn stage(&self) -> (r: Stage)
        ensures
            r == self@.stage,
    {
        self.stage
    }

    /// Between two batches: a stop request ends a running run; otherwise the
    /// run asks for the chunk of its phase, or gives its exit status.
    pub fn next_action(&mut self, stop_requested: bool) -> (r: Action)
        requires
            old(self)@.stage == Stage::Between,
        ensures
            (final(self)@, r) == poll(old(self)@, stop_requested),
    {
        match self.phase {
            Phase::Completed => Action::Exit(EXIT_SUCCESS),
            Phase::Interrupted => Action::Exit(EXIT_INTERRUPTED),
            Phase::Files => {
                if stop_requested {
                    self.phase = Phase::Interrupted;
                    Action::Exit(EXIT_INTERRUPTED)
                } else {
                    self.stage = Stage::Fetching;
                    Action::FetchFiles
                }
            },
            Phase::Directories => {
                if stop_requested {
                    self.phase = Phase::Interrupted;
                    Action::Exit(EXIT_INTERRUPTED)
                } else {
                    self.stage = Stage::Fetching;
                    Action::FetchDirectories
                }
            },
        }
    }

    /// Reports the length of the chunk fetched; the result says whether the
    /// chunk is to be submitted as a batch.
    pub fn chunk_fetched(&mut self, chunk_len: usize) -> (r: bool)
        requires
            old(self)@.stage == Stage::Fetching,
        ensures
            (final(self)@, r) == fetched(old(self)@, chunk_len as nat),
    {
        if chunk_len > 0 {
            proof {
                self.submitted@ = self.submitted@.push(batch_kind(self.phase));
            }
            self.stage = Stage::InFlight;
            true
        } else {
            self.stage = Stage::Between;
            if self.phase == Phase::Files {
                self.phase = Phase::Directories;
            } else {
                self.phase = Phase::Completed;
            }
            false
        }
    }

    /// Reports that every completion of the batch in flight was drained.
    pub fn batch_drained(&mut self)
        requires
            old(self)@.stage == Stage::InFlight,
        ensures
            final(self)@ == (RunView { stage: Stage::Between, ..old(self)@ }),
    {
        self.stage = Stage::Between;
    }
}


/// True when no batch of files comes after a batch of directories.
pub open spec fn files_first(s: Seq<Removal>) -> bool {
    forall|i: int, j: int|
        0 <= i < j < s.len() && #[trigger] s[j] == Removal::File ==> #[trigger] s[i] == Removal::File
}

proof fn lemma_over_stays_over(v: RunView, events: Seq<Event>)
    requires
        v.stage == Stage::Between,
        v.phase == Phase::Interrupted || v.phase == Phase::Completed,
    ensures
        replay(v, events) == v,
    decreases events.len(),
{
    if events.len() > 0 {
        lemma_over_stays_over(v, events.drop_last());
    }
}

/// A stop request seen between two batches ends the run: the run gives the
/// exit status at once, and whatever happens afterwards no further batch is
/// submitted. The latch is never read while a batch is in flight: a poll
/// then changes nothing, and the batch stays in flight until it is drained.
pub proof fn lemma_stop_is_final(v: RunView, events: Seq<Event>, stop: bool)
    requires
        v.stage == Stage::Between,
    ensures
        poll(v, true).1 is Exit,
        v.phase == Phase::Files || v.phase == Phase::Directories ==> poll(v, true).1 == Action::Exit(
            EXIT_INTERRUPTED,
        ),
        replay(poll(v, true).0, events).submitted == v.submitted,
        forall|w: RunView|
            w.stage == Stage::InFlight ==> step(w, Event::Poll(stop)) == w && step(
                w,
                Event::Drained,
            ).stage == Stage::Between,
{
    lemma_over_stays_over(poll(v, true).0, events);
}

proof fn lemma_files_first_replay(events: Seq<Event>)
    ensures
        files_first(replay(initial(), events).submitted),
        replay(initial(), events).phase == Phase::Files ==> forall|i: int|
            0 <= i < replay(initial(), events).submitted.len() ==> #[trigger] replay(
                initial(),
                events,
            ).submitted[i] == Removal::File,
    decreases events.len(),
{
    if events.len() > 0 {
        lemma_files_first_replay(events.drop_last());
        let v = replay(initial(), events.drop_last());
        let w = replay(initial(), events);
        assert(w == step(v, events.last()));
        if w.submitted != v.submitted {
            assert(w.submitted == v.submitted.push(batch_kind(v.phase)));
            assert forall|i: int, j: int|
                0 <= i < j < w.submitted.len() && #[trigger] w.submitted[j]
                    == Removal::File implies #[trigger] w.submitted[i] == Removal::File by {
                if j == v.submitted.len() {
                    assert(v.phase == Phase::Files);
                    assert(w.submitted[i] == v.submitted[i]);
                } else {
                    assert(w.submitted[i] == v.submitted[i] && w.submitted[j] == v.submitted[j]);
                }
            }
            if w.phase == Phase::Files {
                assert forall|i: int| 0 <= i < w.submitted.len() implies #[trigger] w.submitted[i]
                    == Removal::File by {
                    if i < v.submitted.len() {
                        assert(w.submitted[i] == v.submitted[i]);
                    }
                }
            }
        }
    }
}

/// Every batch of files of a run is submitted before any batch of
/// directories, whatever the events, so no directory is submitted before a
/// file that the traversal found.
pub proof fn lemma_files_before_directories(events: Seq<Event>)
    ensures
        files_first(replay(initial(), events).submitted),
{
    lemma_files_first_replay(events);
}

} // verus!
