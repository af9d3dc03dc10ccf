//! The streaming dispatcher as a state machine.
//!
//! The machine decides, the caller does the work: it reads the source and
//! writes to the sinks. The caller performs the action that the machine asks
//! for, reports what came of it as an [`Event`], and gets the next action
//! back. Only one line is in flight at any time.
//!
//! Flushing stops at the first sink that fails to flush: the sinks after it
//! are not flushed.
use vstd::prelude::*;
use vstd::arithmetic::div_mod::lemma_small_mod;
use crate::ring::{lemma_position_advances, route, routes_into};
use crate::split::SplitError;

verus! {

/// Where a split stands.
#[derive(Debug, Clone, Copy, PartialEq, Eq, Structural)]
pub enum Phase {
    /// Lines are read from the source and written to their destinations.
    Reading,
    /// The source is exhausted and the sinks are flushed in destination order.
    Flushing,
    /// Every line is written and every sink is flushed.
    Done,
    /// A read, a write or a flush failed, or there was a line and no ring.
    Failed,
}

/// What came of the action that the machine asked for.
#[derive(Debug, Clone, Copy, PartialEq, Eq, Structural)]
pub enum Event {
    /// The source handed out its next line.
    Line,
    /// The source is exhausted.
    EndOfInput,
    /// The source failed to hand out its next line.
    ReadFailed,
    /// The line was written, followed by a newline.
    Written,
    /// The sink failed to take the line.
    WriteFailed,
    /// The sink was flushed.
    Flushed,
    /// The sink failed to flush.
    FlushFailed,
}

/// What the caller is to do next.
#[derive(Debug, Clone, Copy, PartialEq, Eq)]
pub enum Action {
    /// Read the next line of the source and report [`Event::Line`],
    /// [`Event::EndOfInput`] or [`Event::ReadFailed`].
    ReadLine,
    /// Write the line that was read, and one newline, to the sink of this
    /// destination and report [`Event::Written`] or [`Event::WriteFailed`].
    WriteLine { destination: usize },
    /// Flush the sink of this destination and report [`Event::Flushed`] or
    /// [`Event::FlushFailed`].
    Flush { destination: usize },
    /// Stop: the split is over, with this result.
    Stop(Result<(), SplitError>),
}

/// The state of the machine.
pub struct State {
    /// The assignment table that routes the lines.
    pub table: Seq<usize>,
    /// The number of destinations.
    pub destinations: nat,
    /// Where the split stands.
    pub phase: Phase,
    /// The number of lines written so far, which is the index of the next.
    pub lines: nat,
    /// Whether a line has been read that is not written yet.
    pub writing: bool,
    /// The number of sinks flushed so far, which is the index of the next.
    pub flushed: nat,
    /// Why the split failed, if it did.
    pub failure: Option<SplitError>,
}

impl State {
    /// The state before the first line is read.
    pub open spec fn initial(table: Seq<usize>, destinations: nat) -> State {
        State {
            table,
            destinations,
            phase: Phase::Reading,
            lines: 0,
            writing: false,
            flushed: 0,
            failure: None,
        }
    }

    /// This state, failed for the given reason.
    pub open spec fn failed(self, reason: SplitError) -> State {
        State { phase: Phase::Failed, writing: false, failure: Some(reason), ..self }
    }

    /// What the machine holds to be true of itself in every state that it
    /// reaches.
    pub open spec fn valid(self) -> bool {
        &&& routes_into(self.table, self.destinations)
        &&& self.destinations <= usize::MAX
        &&& self.flushed <= self.destinations
        &&& self.phase == Phase::Flushing ==> self.flushed < self.destinations
        &&& self.phase == Phase::Done ==> self.flushed == self.destinations
        &&& self.phase == Phase::Reading ==> self.flushed == 0
        &&& self.writing ==> self.phase == Phase::Reading && self.table.len() > 0
        &&& self.failure is Some <==> self.phase == Phase::Failed
    }

    /// The action that the machine is waiting for in this state.
    pub open spec fn action(self) -> Action {
        match self.phase {
            Phase::Reading => if self.writing {
                Action::WriteLine { destination: route(self.table, self.lines) }
            } else {
                Action::ReadLine
            },
            Phase::Flushing => Action::Flush { destination: self.flushed as usize },
            Phase::Done => Action::Stop(Ok(())),
            Phase::Failed => Action::Stop(Err(self.failure.unwrap())),
        }
    }

    /// The state after `event`. An event that does not answer the action
    /// that the machine is waiting for changes nothing, and neither does
    /// any event once the split is over.
    pub open spec fn next(self, event: Event) -> State {
        match self.phase {
            Phase::Reading => if self.writing {
                match event {
                    Event::Written => State { lines: self.lines + 1, writing: false, ..self },
                    Event::WriteFailed => self.failed(
                        SplitError::Write { destination: route(self.table, self.lines) },
                    ),
                    _ => self,
                }
            } else {
                match event {
                    Event::Line => if self.table.len() == 0 {
                        self.failed(SplitError::EmptyRing)
                    } else {
                        State { writing: true, ..self }
                    },
                    Event::EndOfInput => if self.destinations == 0 {
                        State { phase: Phase::Done, ..self }
                    } else {
                        State { phase: Phase::Flushing, ..self }
                    },
                    Event::ReadFailed => self.failed(SplitError::Read),
                    _ => self,
                }
            },
            Phase::Flushing => match event {
                Event::Flushed => if self.flushed + 1 == self.destinations {
                    State { phase: Phase::Done, flushed: self.flushed + 1, ..self }
                } else {
                    State { flushed: self.flushed + 1, ..self }
                },
                Event::FlushFailed => self.failed(
                    SplitError::Flush { destination: self.flushed as usize },
                ),
                _ => self,
            },
            Phase::Done => self,
            Phase::Failed => self,
        }
    }
}

/// The streaming dispatcher: the assignment table and where the split
/// stands.
pub struct Dispatcher {
    table: Vec<usize>,
    destinations: usize,
    phase: Phase,
    writing: bool,
    position: usize,
    flushed: usize,
    failure: Option<SplitError>,
    lines: Ghost<nat>,
}

impl View for Dispatcher {
    type V = State;

    closed spec fn view(&self) -> State {
        State {
            table: self.table@,
            destinations: self.destinations as nat,
            phase: self.phase,
            lines: self.lines@,
            writing: self.writing,
            flushed: self.flushed as nat,
            failure: self.failure,
        }
    }
}

impl Dispatcher {
    /// Whether the dispatcher is in a state that the machine can reach.
    /// Every dispatcher that this module hands out is.
    pub closed spec fn wf(&self) -> bool {
        &&& self@.valid()
        &&& self.table@.len() > 0 ==> self.position < self.table@.len() && self.position
            == self.lines@ % self.table@.len()
    }

    /// A dispatcher for `destinations` sinks that routes by
    /// `mapped_line_destinations`, before the first line.
    pub fn new(mapped_line_destinations: Vec<usize>, destinations: usize) -> (dispatcher: Self)
        requires
            routes_into(mapped_line_destinations@, destinations as nat),
        ensures
            dispatcher.wf(),
            dispatcher@ == State::initial(mapped_line_destinations@, destinations as nat),
    {
        proof {
            if mapped_line_destinations@.len() > 0 {
                lemma_small_mod(0, mapped_line_destinations@.len());
            }
        }
        Dispatcher {
            table: mapped_line_destinations,
            destinations,
            phase: Phase::Reading,
            writing: false,
            position: 0,
            flushed: 0,
            failure: None,
            lines: Ghost(0),
        }
    }

    /// Where the split stands.
    pub fn phase(&self) -> (phase: Phase)
        ensures
            phase == self@.phase,
    {
        self.phase
    }

    /// The action that the machine is waiting for.
    pub fn action(&self) -> (action: Action)
        requires
            self.wf(),
        ensures
            action == self@.action(),
    {
        match self.phase {
            Phase::Reading => if self.writing {
                Action::WriteLine { destination: self.table[self.position] }
            } else {
                Action::ReadLine
            },
            Phase::Flushing => Action::Flush { destination: self.flushed },
            Phase::Done => Action::Stop(Ok(())),
            Phase::Failed => match self.failure {
                Some(reason) => Action::Stop(Err(reason)),
                None => Action::Stop(Ok(())),
            },
        }
    }

    /// Takes in what came of the last action and returns the next one.
    pub fn handle(&mut self, event: Event) -> (action: Action)
        requires
            old(self).wf(),
        ensures
            final(self).wf(),
            final(self)@ == old(self)@.next(event),
            action == final(self)@.action(),
    {
        match self.phase {
            Phase::Reading => if self.writing {
                match event {
                    Event::Written => {
                        let line_ring_size = self.table.len();
                        proof {
                            lemma_position_advances(self.lines@, self.table@.len());
                        }
                        self.position = if self.position + 1 == line_ring_size {
                            0
                        } else {
                            self.position + 1
                        };
                        self.lines = Ghost((self.lines@ + 1) as nat);
                        self.writing = false;
                    },
                    Event::WriteFailed => {
                        self.failure = Some(
                            SplitError::Write { destination: self.table[self.position] },
                        );
                        self.phase = Phase::Failed;
                        self.writing = false;
                    },
                    _ => {},
                }
            } else {
                match event {
                    Event::Line => if self.table.len() == 0 {
                        self.failure = Some(SplitError::EmptyRing);
                        self.phase = Phase::Failed;
                    } else {
                        self.writing = true;
                    },
                    Event::EndOfInput => if self.destinations == 0 {
                        self.phase = Phase::Done;
                    } else {
                        self.phase = Phase::Flushing;
                    },
                    Event::ReadFailed => {
                        self.failure = Some(SplitError::Read);
                        self.phase = Phase::Failed;
                    },
                    _ => {},
                }
            },
            Phase::Flushing => match event {
                Event::Flushed => {
                    self.flushed = self.flushed + 1;
                    if self.flushed == self.destinations {
                        self.phase = Phase::Done;
                    }
                },
                Event::FlushFailed => {
                    self.failure = Some(SplitError::Flush { destination: self.flushed });
                    self.phase = Phase::Failed;
                },
                _ => {},
            },
            Phase::Done => {},
            Phase::Failed => {},
        }
        self.action()
    }
}

impl State {
    /// The state after all of `events`, taken in one after the other.
    pub open spec fn run(self, events: Seq<Event>) -> State
        decreases events.len(),
    {
        if events.len() == 0 {
            self
        } else {
            self.run(events.drop_last()).next(events.last())
        }
    }

    /// Whether the split is over, for better or worse.
    pub open spec fn is_over(self) -> bool {
        self.phase == Phase::Done || self.phase == Phase::Failed
    }
}

/// The events of a split of `lines` lines into `destinations` sinks in which
/// nothing fails: every line is read and written, then the source is
/// exhausted, then every sink is flushed.
pub open spec fn uneventful(lines: nat, destinations: nat) -> Seq<Event> {
    Seq::new(
        2 * lines + 1 + destinations,
        |at: int|
            if at < 2 * lines {
                if at % 2 == 0 {
                    Event::Line
                } else {
                    Event::Written
                }
            } else if at == 2 * lines {
                Event::EndOfInput
            } else {
                Event::Flushed
            },
    )
}

/// Where a split in which nothing fails stands after its first `count`
/// events.
pub open spec fn progress(table: Seq<usize>, destinations: nat, lines: nat, count: nat) -> State {
    if count <= 2 * lines {
        State { lines: count / 2, writing: count % 2 == 1, ..State::initial(table, destinations) }
    } else {
        let flushed = (count - 2 * lines - 1) as nat;
        State {
            phase: if flushed == destinations {
                Phase::Done
            } else {
                Phase::Flushing
            },
            lines,
            flushed,
            ..State::initial(table, destinations)
        }
    }
}

/// Every state that the machine reaches is valid.
pub proof fn lemma_next_valid(state: State, event: Event)
    requires
        state.valid(),
    ensures
        state.next(event).valid(),
{
}

/// Once the split is over, no event changes the state: a failure is final,
/// and so is success.
pub proof fn lemma_over_is_final(state: State, events: Seq<Event>)
    requires
        state.is_over(),
    ensures
        state.run(events) == state,
    decreases events.len(),
{
    if events.len() > 0 {
        lemma_over_is_final(state, events.drop_last());
    }
}

/// A split in which nothing fails goes through the states of [`progress`].
pub proof fn lemma_uneventful_progress(
    table: Seq<usize>,
    destinations: nat,
    lines: nat,
    count: nat,
)
    requires
        table.len() > 0 || lines == 0,
        count <= 2 * lines + 1 + destinations,
    ensures
        State::initial(table, destinations).run(uneventful(lines, destinations).take(count as int))
            == progress(table, destinations, lines, count),
    decreases count,
{
    let events = uneventful(lines, destinations);
    if count > 0 {
        lemma_uneventful_progress(table, destinations, lines, (count - 1) as nat);
        assert(events.take(count as int).drop_last() =~= events.take(count - 1));
        assert(events.take(count as int).last() == events[count - 1]);
    }
}

/// What a split in which nothing fails asks of its caller, whatever the
/// weights are and however many lines there are:
///
/// - line `line` is written to the destination that the table routes it to;
/// - after the last line, every sink is flushed once, in destination order,
///   also one that no line was routed to;
/// - then the split is done and reports success, with every line written.
///
/// This holds with an empty ring too, as long as there is no line.
pub proof fn lemma_uneventful_split(table: Seq<usize>, destinations: nat, lines: nat)
    requires
        table.len() > 0 || lines == 0,
    ensures
        forall|line: int|
            0 <= line < lines ==> (#[trigger] State::initial(table, destinations).run(
                uneventful(lines, destinations).take(2 * line + 1),
            )).action() == (Action::WriteLine { destination: route(table, line as nat) }),
        forall|sink: int|
            0 <= sink < destinations ==> (#[trigger] State::initial(table, destinations).run(
                uneventful(lines, destinations).take(2 * lines + 1 + sink),
            )).action() == (Action::Flush { destination: sink as usize }),
        State::initial(table, destinations).run(uneventful(lines, destinations)).phase
            == Phase::Done,
        State::initial(table, destinations).run(uneventful(lines, destinations)).lines == lines,
        State::initial(table, destinations).run(uneventful(lines, destinations)).action()
            == Action::Stop(Ok(())),
{
    let start = State::initial(table, destinations);
    let events = uneventful(lines, destinations);
    assert forall|line: int| 0 <= line < lines implies (#[trigger] start.run(
        events.take(2 * line + 1),
    )).action() == (Action::WriteLine { destination: route(table, line as nat) }) by {
        lemma_uneventful_progress(table, destinations, lines, (2 * line + 1) as nat);
    }
    assert forall|sink: int| 0 <= sink < destinations implies (#[trigger] start.run(
        events.take(2 * lines + 1 + sink),
    )).action() == (Action::Flush { destination: sink as usize }) by {
        lemma_uneventful_progress(table, destinations, lines, (2 * lines + 1 + sink) as nat);
    }
    lemma_uneventful_progress(table, destinations, lines, 2 * lines + 1 + destinations);
    assert(events.take(events.len() as int) =~= events);
}

} // verus!
