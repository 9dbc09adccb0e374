//! Event loops: ordered bindings that are run once per poll, and the cached
//! boolean events that are built on them.
use vstd::prelude::*;
use crate::command::{Command, SchedulerContext};
use crate::controller::Trigger;
use crate::lemmas::lemma_skip_grows;
use crate::model::SchedulerView;
use crate::scheduler::CommandSchedulerState;
use crate::subsystem::Subsystem;
use crate::{AnyCommand, CommandError};

verus! {

/// A boolean that can be read again and again, such as the state of a
/// button. Reading it may change it and may fail.
pub trait Signal {
    fn sample(&mut self) -> (outcome: Result<bool, CommandError>);
}

/// Something to do when an event loop is polled, or when a hook of a command
/// is called. It sees the scheduler through `scheduler` and can leave
/// requests there. It may fail.
pub trait Action {
    fn run(&mut self, scheduler: &mut SchedulerContext<'_>) -> (outcome: Result<(), CommandError>);
}

/// A boolean condition of an event loop, built from signals, from the cached
/// values of boolean events, and from other conditions of the same loop.
#[derive(Clone, Copy, Debug, PartialEq, Eq, Structural)]
pub enum Condition {
    /// The signal in the given slot, sampled whenever the condition is
    /// evaluated.
    Source(usize),
    /// The cached value in the given cell.
    Cached(usize),
    /// Both of the conditions in the given slots. The second is evaluated
    /// only if the first holds.
    And(usize, usize),
    /// One of the conditions in the given slots. The second is evaluated only
    /// if the first does not hold.
    Or(usize, usize),
    /// The opposite of the condition in the given slot.
    Not(usize),
}

/// How a cached boolean event is derived from others.
#[derive(Clone, Copy, Debug, PartialEq, Eq, Structural)]
pub enum Derivation {
    /// True in the poll in which the source turns true.
    Rising,
    /// True in the poll in which the source turns false.
    Falling,
    /// The opposite of the source.
    Negate,
    /// Both sources.
    And,
    /// One of the sources.
    Or,
}

/// Which change of a condition a trigger binding reacts to, and how.
#[derive(Clone, Copy, Debug, PartialEq, Eq, Structural)]
pub enum Edge {
    /// Schedule when the condition turns true.
    OnTrue,
    /// Schedule when the condition turns false.
    OnFalse,
    /// Schedule when the condition turns true, cancel when it turns false.
    WhileTrue,
    /// Schedule when the condition turns false, cancel when it turns true.
    WhileFalse,
    /// When the condition turns true: cancel if scheduled, else schedule.
    ToggleOnTrue,
    /// When the condition turns false: cancel if scheduled, else schedule.
    ToggleOnFalse,
}

/// What a trigger binding asks of the scheduler in one poll.
#[derive(Clone, Copy, Debug, PartialEq, Eq, Structural)]
pub enum EdgeAction {
    Nothing,
    Schedule,
    Cancel,
}

/// One call that a poll made into a signal, an action or a condition.
pub enum LoopCall {
    /// The action in the given slot was run.
    Ran(usize),
    /// The signal in the given slot was sampled for its boolean event.
    Sampled(usize),
    /// The condition in the given slot was evaluated for a trigger binding.
    Evaluated(usize),
}

/// One value that a signal gave when a condition was evaluated.
pub struct Sample {
    /// The slot of the signal.
    pub signal: usize,
    /// The value it gave.
    pub value: bool,
}

/// What the condition in slot `i` comes to when the signals give `samples`,
/// one after the other: its value, together with the samples that it did not
/// need. A signal takes the next sample, which has to be one of that signal.
/// The second part of an `And` or an `Or` takes samples only if the first
/// part does not decide. There is no value where the samples do not fit.
pub open spec fn condition_reads(
    conditions: Seq<Condition>,
    cells: Seq<bool>,
    i: int,
    samples: Seq<Sample>,
) -> Option<(bool, Seq<Sample>)>
    decreases i,
{
    if 0 <= i < conditions.len() {
        match conditions[i] {
            Condition::Source(signal) => if samples.len() > 0 && samples[0].signal == signal {
                Some((samples[0].value, samples.skip(1)))
            } else {
                None
            },
            Condition::Cached(cell) => if cell < cells.len() {
                Some((cells[cell as int], samples))
            } else {
                None
            },
            Condition::And(first, second) => if first < i && second < i {
                match condition_reads(conditions, cells, first as int, samples) {
                    Some((true, rest)) => condition_reads(conditions, cells, second as int, rest),
                    Some((false, rest)) => Some((false, rest)),
                    None => None,
                }
            } else {
                None
            },
            Condition::Or(first, second) => if first < i && second < i {
                match condition_reads(conditions, cells, first as int, samples) {
                    Some((true, rest)) => Some((true, rest)),
                    Some((false, rest)) => condition_reads(conditions, cells, second as int, rest),
                    None => None,
                }
            } else {
                None
            },
            Condition::Not(inner) => if inner < i {
                match condition_reads(conditions, cells, inner as int, samples) {
                    Some((value, rest)) => Some((!value, rest)),
                    None => None,
                }
            } else {
                None
            },
        }
    } else {
        None
    }
}

/// A condition that comes to a value with some samples comes to the same
/// value when more samples follow, and leaves those as well.
pub proof fn lemma_reads_more(
    conditions: Seq<Condition>,
    cells: Seq<bool>,
    i: int,
    samples: Seq<Sample>,
    more: Seq<Sample>,
)
    requires
        condition_reads(conditions, cells, i, samples) is Some,
    ensures
        condition_reads(conditions, cells, i, samples + more) == Some(
            (
                condition_reads(conditions, cells, i, samples).unwrap().0,
                condition_reads(conditions, cells, i, samples).unwrap().1 + more,
            ),
        ),
    decreases i,
{
    match conditions[i] {
        Condition::Source(signal) => {
            assert((samples + more)[0] == samples[0]);
            assert((samples + more).skip(1) =~= samples.skip(1) + more);
        },
        Condition::Cached(cell) => {},
        Condition::And(first, second) => {
            lemma_reads_more(conditions, cells, first as int, samples, more);
            let rest = condition_reads(conditions, cells, first as int, samples).unwrap().1;
            if condition_reads(conditions, cells, first as int, samples).unwrap().0 {
                lemma_reads_more(conditions, cells, second as int, rest, more);
            }
        },
        Condition::Or(first, second) => {
            lemma_reads_more(conditions, cells, first as int, samples, more);
            let rest = condition_reads(conditions, cells, first as int, samples).unwrap().1;
            if !condition_reads(conditions, cells, first as int, samples).unwrap().0 {
                lemma_reads_more(conditions, cells, second as int, rest, more);
            }
        },
        Condition::Not(inner) => {
            lemma_reads_more(conditions, cells, inner as int, samples, more);
        },
    }
}

/// One binding of an event loop.
#[derive(Clone, Copy, Debug, PartialEq, Eq, Structural)]
pub enum Binding {
    /// Runs the action in slot `action`.
    Custom { action: usize },
    /// Samples the signal in slot `signal` and caches the value in `cell`.
    Sample { signal: usize, cell: usize },
    /// Computes a value from the cells `first` and `second` and from the
    /// value that `first` had in the poll before, which the binding
    /// remembers, and caches it in `cell`.
    Derive { derivation: Derivation, first: usize, second: usize, cell: usize },
    /// Runs the action in slot `action` if the value cached in `cell` is
    /// true.
    IfHigh { cell: usize, action: usize },
    /// Evaluates the condition in slot `condition`, compares it with its
    /// value in the poll before, which the binding remembers, and schedules
    /// or cancels `command`.
    Trigger { edge: Edge, condition: usize, command: AnyCommand },
}

impl Edge {
    /// Whether bindings of this kind wake up when the condition turns true;
    /// the others wake up when it turns false.
    pub open spec fn wakes_on_true(self) -> bool {
        self is OnTrue || self is WhileTrue || self is ToggleOnTrue
    }

    /// Whether bindings of this kind cancel the command when the condition
    /// turns back.
    pub open spec fn holds(self) -> bool {
        self is WhileTrue || self is WhileFalse
    }

    /// Whether bindings of this kind cancel a scheduled command when they
    /// wake up, where the others schedule it.
    pub open spec fn toggles(self) -> bool {
        self is ToggleOnTrue || self is ToggleOnFalse
    }
}

/// What a trigger binding asks for when its condition was `pressed_last` in
/// the poll before and is `pressed` now, and the command is or is not
/// `scheduled`.
///
/// Nothing, unless the condition has changed. When it has turned the way on
/// which the binding wakes up, the command is scheduled, or, by a toggle that
/// finds it scheduled, cancelled. When it has turned the other way, a binding
/// that holds cancels the command.
pub open spec fn edge_decision(edge: Edge, pressed_last: bool, pressed: bool, scheduled: bool) -> EdgeAction {
    if pressed == pressed_last {
        EdgeAction::Nothing
    } else if pressed == edge.wakes_on_true() {
        if edge.toggles() && scheduled {
            EdgeAction::Cancel
        } else {
            EdgeAction::Schedule
        }
    } else if edge.holds() {
        EdgeAction::Cancel
    } else {
        EdgeAction::Nothing
    }
}

/// Decides what a trigger binding asks for in one poll.
pub fn edge_action(edge: Edge, pressed_last: bool, pressed: bool, scheduled: bool) -> (action:
    EdgeAction)
    ensures
        action == edge_decision(edge, pressed_last, pressed, scheduled),
{
    let turned_true = !pressed_last && pressed;
    let turned_false = pressed_last && !pressed;
    match edge {
        Edge::OnTrue => if turned_true {
            EdgeAction::Schedule
        } else {
            EdgeAction::Nothing
        },
        Edge::OnFalse => if turned_false {
            EdgeAction::Schedule
        } else {
            EdgeAction::Nothing
        },
        Edge::WhileTrue => if turned_true {
            EdgeAction::Schedule
        } else if turned_false {
            EdgeAction::Cancel
        } else {
            EdgeAction::Nothing
        },
        Edge::WhileFalse => if turned_false {
            EdgeAction::Schedule
        } else if turned_true {
            EdgeAction::Cancel
        } else {
            EdgeAction::Nothing
        },
        Edge::ToggleOnTrue => if turned_true {
            if scheduled {
                EdgeAction::Cancel
            } else {
                EdgeAction::Schedule
            }
        } else {
            EdgeAction::Nothing
        },
        Edge::ToggleOnFalse => if turned_false {
            if scheduled {
                EdgeAction::Cancel
            } else {
                EdgeAction::Schedule
            }
        } else {
            EdgeAction::Nothing
        },
    }
}

/// The value of a derived event whose sources are `first` and `second` now
/// and whose first source was `previous` in the poll before.
pub open spec fn derived_value(derivation: Derivation, previous: bool, first: bool, second: bool) -> bool {
    match derivation {
        Derivation::Rising => !previous && first,
        Derivation::Falling => previous && !first,
        Derivation::Negate => !first,
        Derivation::And => first && second,
        Derivation::Or => first || second,
    }
}

/// Computes the value of a derived event.
pub fn derive_value(derivation: Derivation, previous: bool, first: bool, second: bool) -> (value: bool)
    ensures
        value == derived_value(derivation, previous, first, second),
{
    match derivation {
        Derivation::Rising => !previous && first,
        Derivation::Falling => previous && !first,
        Derivation::Negate => !first,
        Derivation::And => first && second,
        Derivation::Or => first || second,
    }
}

impl Binding {
    /// The cell that the binding writes in every poll, if it writes one.
    pub open spec fn written_cell(self) -> Option<usize> {
        match self {
            Binding::Sample { cell, .. } => Some(cell),
            Binding::Derive { cell, .. } => Some(cell),
            _ => None,
        }
    }
}

/// Whether a trigger binding for `command` whose condition was `last` and is
/// `now` leads from the scheduler `before` to `after`: the scheduler is asked
/// to schedule or to cancel the command, or is left alone, as
/// [`edge_decision`] says.
pub open spec fn trigger_applied(
    edge: Edge,
    command: AnyCommand,
    last: bool,
    now: bool,
    before: SchedulerView,
    after: SchedulerView,
    went_well: bool,
) -> bool {
    match edge_decision(edge, last, now, before.scheduled.contains(command.0)) {
        EdgeAction::Schedule => before.schedule_requested(after, command, went_well),
        EdgeAction::Cancel => before.cancel_requested(after, command, went_well),
        EdgeAction::Nothing => went_well && after == before,
    }
}

/// Whether an action of an event loop leads from the scheduler `before` to
/// `after`. If the action fails, the scheduler is left as it was. Otherwise
/// the requests that the action left are applied at once, those to schedule
/// before those to cancel, as [`SchedulerView::requests_applied`] says.
pub open spec fn action_applied(before: SchedulerView, after: SchedulerView, went_well: bool) -> bool {
    ||| !went_well && after == before
    ||| exists|to_schedule: Seq<AnyCommand>, to_cancel: Seq<AnyCommand>, steps: Seq<SchedulerView>| #[trigger]
        before.requests_applied(after, to_schedule, to_cancel, steps, went_well)
}

/// An event loop and the scheduler that its trigger bindings act on, at one
/// moment of a poll.
pub struct PollState {
    pub bindings: EventLoopView,
    pub scheduler: SchedulerView,
}

/// An event loop as mathematics.
pub struct EventLoopView {
    /// How many signals the loop holds.
    pub signals: nat,
    /// How many actions the loop holds.
    pub actions: nat,
    /// The conditions, by slot.
    pub conditions: Seq<Condition>,
    /// The cached values, by cell.
    pub cells: Seq<bool>,
    /// The bindings, in the order in which they were bound.
    pub events: Seq<Binding>,
    /// What each binding remembers from the poll before: a derived event the
    /// value of its first source, a trigger binding the value of its
    /// condition. The other bindings remember nothing, and their entry stays
    /// false.
    pub memory: Seq<bool>,
    /// Every call that the polls have made so far, oldest first.
    pub calls: Seq<LoopCall>,
    /// Every value that a signal gave when a condition was evaluated, oldest
    /// first.
    pub samples: Seq<Sample>,
}

impl EventLoopView {
    /// Whether the condition in slot `i` refers only to what the loop holds,
    /// and to conditions in earlier slots.
    pub open spec fn condition_ok(self, i: int) -> bool {
        match self.conditions[i] {
            Condition::Source(signal) => signal < self.signals,
            Condition::Cached(cell) => cell < self.cells.len(),
            Condition::And(first, second) => first < i && second < i,
            Condition::Or(first, second) => first < i && second < i,
            Condition::Not(inner) => inner < i,
        }
    }

    /// Whether the binding in position `k` refers only to what the loop
    /// holds, and a derived event only to cells before its own.
    pub open spec fn binding_ok(self, k: int) -> bool {
        match self.events[k] {
            Binding::Custom { action } => action < self.actions,
            Binding::Sample { signal, cell } => signal < self.signals && cell < self.cells.len(),
            Binding::Derive { first, second, cell, .. } => first < cell && second < cell && cell
                < self.cells.len(),
            Binding::IfHigh { cell, action } => cell < self.cells.len() && action < self.actions,
            Binding::Trigger { condition, .. } => condition < self.conditions.len(),
        }
    }

    /// Every condition and binding refers to what the loop holds, and the
    /// bindings write ever later cells, so that no cell is written twice in
    /// one poll and a derived event is computed after its sources.
    pub open spec fn wf(self) -> bool {
        &&& self.memory.len() == self.events.len()
        &&& forall|i: int| 0 <= i < self.conditions.len() ==> #[trigger] self.condition_ok(i)
        &&& forall|k: int| 0 <= k < self.events.len() ==> #[trigger] self.binding_ok(k)
        &&& forall|j: int, k: int|
            0 <= j < k < self.events.len() && (#[trigger] self.events[j]).written_cell() is Some
                && (#[trigger] self.events[k]).written_cell() is Some
                ==> self.events[j].written_cell().unwrap() < self.events[k].written_cell().unwrap()
    }

    /// The value cached in `cell`.
    pub open spec fn cached(self, cell: usize) -> bool
        recommends
            cell < self.cells.len(),
    {
        self.cells[cell as int]
    }

    /// Whether `after` is this loop with `binding` bound behind the others,
    /// remembering a value that its condition can take.
    pub open spec fn bound(self, after: Self, binding: Binding) -> bool {
        &&& after.memory.len() == self.memory.len() + 1
        &&& self.samples.is_prefix_of(after.samples)
        &&& after == (EventLoopView {
            events: self.events.push(binding),
            memory: self.memory.push(after.memory.last()),
            samples: after.samples,
            ..self
        })
        &&& binding matches Binding::Trigger { condition, .. } ==> self.can_be(
            condition as int,
            after.memory.last(),
        ) && self.read(after, condition as int, after.memory.last())
    }

    /// Whether `after` is this loop with more samples taken, and nothing else
    /// changed.
    pub open spec fn sampled(self, after: Self) -> bool {
        &&& self.samples.is_prefix_of(after.samples)
        &&& after == (EventLoopView { samples: after.samples, ..self })
    }

    /// Whether the samples that were taken between this loop and `after`
    /// are those that the condition in slot `i` needs, and make it come to
    /// `value`.
    pub open spec fn read(self, after: Self, i: int, value: bool) -> bool {
        condition_reads(
            self.conditions,
            self.cells,
            i,
            after.samples.skip(self.samples.len() as int),
        ) == Some((value, Seq::<Sample>::empty()))
    }

    /// Whether `after` differs from this loop in its cached values, in what
    /// its bindings remember, in the calls made and in the samples taken, and
    /// in nothing else.
    pub open spec fn same_bindings(self, after: Self) -> bool {
        &&& after == (EventLoopView {
            cells: after.cells,
            memory: after.memory,
            calls: after.calls,
            samples: after.samples,
            ..self
        })
        &&& after.cells.len() == self.cells.len()
        &&& after.memory.len() == self.memory.len()
    }

    /// The calls that the binding in position `k` makes when it is run while
    /// the cells are as they are.
    pub open spec fn binding_calls(self, k: int) -> Seq<LoopCall> {
        match self.events[k] {
            Binding::Custom { action } => seq![LoopCall::Ran(action)],
            Binding::Sample { signal, .. } => seq![LoopCall::Sampled(signal)],
            Binding::Derive { .. } => Seq::empty(),
            Binding::IfHigh { cell, action } => if self.cached(cell) {
                seq![LoopCall::Ran(action)]
            } else {
                Seq::empty()
            },
            Binding::Trigger { condition, .. } => seq![LoopCall::Evaluated(condition)],
        }
    }

    /// Whether running the binding in position `k` leads from this loop and
    /// from the scheduler `scheduler` to `after` and `scheduler_after`.
    ///
    /// The binding makes its calls. An action leaves the loop as it is, and
    /// what it asks of the scheduler is applied at once. A sample is cached
    /// unless the signal fails. A derived event
    /// gets the value that follows from its sources, and remembers its first
    /// source. A trigger binding whose condition can be evaluated remembers
    /// the value and has the scheduler do what [`edge_decision`] says for the
    /// step from the remembered value to the new one.
    pub open spec fn fired(
        self,
        after: Self,
        k: int,
        scheduler: SchedulerView,
        scheduler_after: SchedulerView,
        went_well: bool,
    ) -> bool {
        &&& self.same_bindings(after)
        &&& after.calls == self.calls + self.binding_calls(k)
        &&& match self.events[k] {
            Binding::Custom { .. } => after.cells == self.cells && after.memory == self.memory
                && action_applied(scheduler, scheduler_after, went_well),
            Binding::IfHigh { cell, .. } => after.cells == self.cells && after.memory == self.memory
                && if self.cached(cell) {
                action_applied(scheduler, scheduler_after, went_well)
            } else {
                went_well && scheduler_after == scheduler
            },
            Binding::Sample { cell, .. } => after.memory == self.memory && scheduler_after
                == scheduler && after.cells == if went_well {
                self.cells.update(cell as int, after.cached(cell))
            } else {
                self.cells
            },
            Binding::Derive { derivation, first, second, cell } => went_well && scheduler_after
                == scheduler && after.memory == self.memory.update(k, self.cached(first))
                && after.cells == self.cells.update(
                cell as int,
                derived_value(derivation, self.memory[k], self.cached(first), self.cached(second)),
            ),
            Binding::Trigger { edge, condition, command } => after.cells == self.cells && ({
                ||| !went_well && after.memory == self.memory && scheduler_after == scheduler
                ||| {
                    &&& after.memory == self.memory.update(k, after.memory[k])
                    &&& self.can_be(condition as int, after.memory[k])
                    &&& self.read(after, condition as int, after.memory[k])
                    &&& trigger_applied(
                        edge,
                        command,
                        self.memory[k],
                        after.memory[k],
                        scheduler,
                        scheduler_after,
                        went_well,
                    )
                }
            }),
        }
    }

    /// Whether a poll leads from this loop and the scheduler `scheduler` to
    /// `after` and `scheduler_after` by way of `steps`: the state before each
    /// binding that was run, and at the end the state after the last. If the
    /// poll went well, every binding was run, in the order in which they were
    /// bound; otherwise the last binding that was run failed.
    pub open spec fn polling(
        self,
        scheduler: SchedulerView,
        after: Self,
        scheduler_after: SchedulerView,
        steps: Seq<PollState>,
        went_well: bool,
    ) -> bool {
        &&& 1 <= steps.len() <= self.events.len() + 1
        &&& steps[0] == (PollState { bindings: self, scheduler })
        &&& steps.last() == (PollState { bindings: after, scheduler: scheduler_after })
        &&& went_well ==> steps.len() == self.events.len() + 1
        &&& !went_well ==> steps.len() >= 2
        &&& forall|k: int|
            0 <= k < steps.len() - 1 ==> (#[trigger] steps[k]).bindings.fired(
                steps[k + 1].bindings,
                k,
                steps[k].scheduler,
                steps[k + 1].scheduler,
                went_well || k < steps.len() - 2,
            )
    }

    /// Whether `after` is what a poll in which nothing failed leaves: every
    /// derived event has the value that follows from the values that its
    /// sources have after the poll and from what it remembered before, and
    /// now remembers its first source; and a cell that no binding writes is
    /// as it was.
    pub open spec fn polled(self, after: Self) -> bool {
        &&& self.same_bindings(after)
        &&& forall|k: int|
            0 <= k < self.events.len() ==> match #[trigger] self.events[k] {
                Binding::Derive { derivation, first, second, cell } => after.cached(cell)
                    == derived_value(
                    derivation,
                    self.memory[k],
                    after.cached(first),
                    after.cached(second),
                ) && after.memory[k] == after.cached(first),
                Binding::Trigger { .. } => true,
                _ => after.memory[k] == self.memory[k],
            }
        &&& forall|cell: usize|
            cell < self.cells.len() && (forall|k: int|
                0 <= k < self.events.len() ==> (#[trigger] self.events[k]).written_cell() != Some(
                    cell,
                )) ==> #[trigger] after.cached(cell) == self.cached(cell)
    }

    /// Whether `value` is a value that the condition in slot `i` can take
    /// while the cells are as they are: a signal can give any value, and the
    /// other conditions follow from their parts.
    pub open spec fn can_be(self, i: int, value: bool) -> bool
        decreases i,
    {
        if 0 <= i < self.conditions.len() {
            match self.conditions[i] {
                Condition::Source(_) => true,
                Condition::Cached(cell) => cell < self.cells.len() && value == self.cells[cell as int],
                Condition::And(first, second) => first < i && second < i && if value {
                    self.can_be(first as int, true) && self.can_be(second as int, true)
                } else {
                    self.can_be(first as int, false) || (self.can_be(first as int, true)
                        && self.can_be(second as int, false))
                },
                Condition::Or(first, second) => first < i && second < i && if value {
                    self.can_be(first as int, true) || (self.can_be(first as int, false)
                        && self.can_be(second as int, true))
                } else {
                    self.can_be(first as int, false) && self.can_be(second as int, false)
                },
                Condition::Not(inner) => inner < i && self.can_be(inner as int, !value),
            }
        } else {
            false
        }
    }

    /// The value of the condition in slot `i` where it samples no signal:
    /// what follows from the cells alone.
    pub open spec fn value_of(self, i: int) -> bool
        recommends
            self.source_free(i),
        decreases i,
    {
        if 0 <= i < self.conditions.len() {
            match self.conditions[i] {
                Condition::Source(_) => false,
                Condition::Cached(cell) => self.cached(cell),
                Condition::And(first, second) => first < i && second < i && self.value_of(
                    first as int,
                ) && self.value_of(second as int),
                Condition::Or(first, second) => first < i && second < i && (self.value_of(
                    first as int,
                ) || self.value_of(second as int)),
                Condition::Not(inner) => inner < i && !self.value_of(inner as int),
            }
        } else {
            false
        }
    }

    /// Whether the condition in slot `i` samples no signal, so that its value
    /// follows from the cells alone.
    pub open spec fn source_free(self, i: int) -> bool
        decreases i,
    {
        if 0 <= i < self.conditions.len() {
            match self.conditions[i] {
                Condition::Source(_) => false,
                Condition::Cached(cell) => true,
                Condition::And(first, second) => first < i && second < i && self.source_free(
                    first as int,
                ) && self.source_free(second as int),
                Condition::Or(first, second) => first < i && second < i && self.source_free(
                    first as int,
                ) && self.source_free(second as int),
                Condition::Not(inner) => inner < i && self.source_free(inner as int),
            }
        } else {
            false
        }
    }
}

/// A loop stays well formed when it takes in more signals, actions or cells.
pub proof fn lemma_wf_grows(before: EventLoopView, after: EventLoopView)
    requires
        before.wf(),
        after.events == before.events,
        after.memory == before.memory,
        after.conditions == before.conditions,
        after.signals >= before.signals,
        after.actions >= before.actions,
        after.cells.len() >= before.cells.len(),
    ensures
        after.wf(),
{
    assert forall|i: int| 0 <= i < after.conditions.len() implies #[trigger] after.condition_ok(i) by {
        assert(before.condition_ok(i));
    }
    assert forall|k: int| 0 <= k < after.events.len() implies #[trigger] after.binding_ok(k) by {
        assert(before.binding_ok(k));
    }
}

/// A loop stays well formed when its cached values and what its bindings
/// remember change.
pub proof fn lemma_wf_remembers(before: EventLoopView, after: EventLoopView)
    requires
        before.wf(),
        before.same_bindings(after),
    ensures
        after.wf(),
{
    assert forall|i: int| 0 <= i < after.conditions.len() implies #[trigger] after.condition_ok(i) by {
        assert(before.condition_ok(i));
    }
    assert forall|k: int| 0 <= k < after.events.len() implies #[trigger] after.binding_ok(k) by {
        assert(before.binding_ok(k));
    }
}

/// What a condition can be depends on the conditions and the cells only.
pub proof fn lemma_can_be_same_cells(a: EventLoopView, b: EventLoopView, i: int, value: bool)
    requires
        a.conditions == b.conditions,
        a.cells == b.cells,
    ensures
        a.can_be(i, value) == b.can_be(i, value),
    decreases i,
{
    if 0 <= i < a.conditions.len() {
        match a.conditions[i] {
            Condition::And(first, second) => {
                if first < i && second < i {
                    lemma_can_be_same_cells(a, b, first as int, true);
                    lemma_can_be_same_cells(a, b, first as int, false);
                    lemma_can_be_same_cells(a, b, second as int, true);
                    lemma_can_be_same_cells(a, b, second as int, false);
                }
            },
            Condition::Or(first, second) => {
                if first < i && second < i {
                    lemma_can_be_same_cells(a, b, first as int, true);
                    lemma_can_be_same_cells(a, b, first as int, false);
                    lemma_can_be_same_cells(a, b, second as int, true);
                    lemma_can_be_same_cells(a, b, second as int, false);
                }
            },
            Condition::Not(inner) => {
                if inner < i {
                    lemma_can_be_same_cells(a, b, inner as int, !value);
                }
            },
            _ => {},
        }
    }
}

/// Whether a condition samples no signal, and its value if it does not,
/// depend on the conditions and the cells only.
pub proof fn lemma_value_same_cells(a: EventLoopView, b: EventLoopView, i: int)
    requires
        a.conditions == b.conditions,
        a.cells == b.cells,
    ensures
        a.source_free(i) == b.source_free(i),
        a.value_of(i) == b.value_of(i),
    decreases i,
{
    if 0 <= i < a.conditions.len() {
        match a.conditions[i] {
            Condition::And(first, second) => {
                if first < i && second < i {
                    lemma_value_same_cells(a, b, first as int);
                    lemma_value_same_cells(a, b, second as int);
                }
            },
            Condition::Or(first, second) => {
                if first < i && second < i {
                    lemma_value_same_cells(a, b, first as int);
                    lemma_value_same_cells(a, b, second as int);
                }
            },
            Condition::Not(inner) => {
                if inner < i {
                    lemma_value_same_cells(a, b, inner as int);
                }
            },
            _ => {},
        }
    }
}

/// An ordered list of bindings, run once per poll in the order in which they
/// were bound, together with the signals, actions, conditions and cached
/// values that the bindings use.
pub struct EventLoop<G, A> {
    signals: Vec<G>,
    actions: Vec<A>,
    conditions: Vec<Condition>,
    cells: Vec<bool>,
    events: Vec<Binding>,
    memory: Vec<bool>,
    calls: Ghost<Seq<LoopCall>>,
    samples: Ghost<Seq<Sample>>,
}

/// A boolean event of an event loop: a signal that is sampled once per poll
/// and whose value is cached, so that everything derived from it sees the
/// same value within one poll.
#[derive(Clone, Copy, Debug, PartialEq, Eq, Structural)]
pub struct BooleanEvent {
    /// The cell of the event loop that caches the value.
    pub cell: usize,
}

impl<G: Signal, A: Action> EventLoop<G, A> {
    /// The loop as mathematics.
    pub closed spec fn view(&self) -> EventLoopView {
        EventLoopView {
            signals: self.signals@.len(),
            actions: self.actions@.len(),
            conditions: self.conditions@,
            cells: self.cells@,
            events: self.events@,
            memory: self.memory@,
            calls: self.calls@,
            samples: self.samples@,
        }
    }

    /// A loop without bindings.
    pub fn new() -> (event_loop: Self)
        ensures
            event_loop@.wf(),
            event_loop@.signals == 0,
            event_loop@.actions == 0,
            event_loop@.conditions == Seq::<Condition>::empty(),
            event_loop@.cells == Seq::<bool>::empty(),
            event_loop@.events == Seq::<Binding>::empty(),
            event_loop@.memory == Seq::<bool>::empty(),
            event_loop@.calls == Seq::<LoopCall>::empty(),
            event_loop@.samples == Seq::<Sample>::empty(),
    {
        EventLoop {
            signals: Vec::new(),
            actions: Vec::new(),
            conditions: Vec::new(),
            cells: Vec::new(),
            events: Vec::new(),
            memory: Vec::new(),
            calls: Ghost(Seq::empty()),
            samples: Ghost(Seq::empty()),
        }
    }

    /// Whether the loop has the cell `cell`, which is to say whether a
    /// boolean event with that cell belongs to this loop.
    pub fn has_cell(&self, cell: usize) -> (held: bool)
        ensures
            held == (cell < self@.cells.len()),
    {
        cell < self.cells.len()
    }

    /// Whether the loop has a condition in slot `condition`, which is to say
    /// whether a trigger with that condition belongs to this loop.
    pub fn has_condition(&self, condition: usize) -> (held: bool)
        ensures
            held == (condition < self@.conditions.len()),
    {
        condition < self.conditions.len()
    }

    /// Binds an action: it is run once in every poll, after the bindings
    /// bound before it.
    pub fn bind(&mut self, action: A)
        requires
            old(self)@.wf(),
        ensures
            final(self)@.wf(),
            final(self)@ == (EventLoopView {
                actions: old(self)@.actions + 1,
                events: old(self)@.events.push(Binding::Custom { action: old(self)@.actions as usize }),
                memory: old(self)@.memory.push(false),
                ..old(self)@
            }),
    {
        let slot = self.actions.len();
        self.actions.push(action);
        proof {
            lemma_wf_grows(old(self)@, self@);
        }
        self.push_binding(Binding::Custom { action: slot }, false);
    }

    /// Removes every binding. The cached values stay as they are and are no
    /// longer refreshed.
    pub fn clear(&mut self)
        requires
            old(self)@.wf(),
        ensures
            final(self)@.wf(),
            final(self)@ == (EventLoopView {
                events: Seq::empty(),
                memory: Seq::empty(),
                ..old(self)@
            }),
    {
        self.events.clear();
        self.memory.clear();
        proof {
            assert forall|i: int| 0 <= i < self@.conditions.len() implies #[trigger] self@.condition_ok(
                i,
            ) by {
                assert(old(self)@.condition_ok(i));
            }
        }
    }

    /// Takes note of what a sample of the signal in slot `signal` came to,
    /// taken for a condition: a value joins the samples, a failure changes
    /// nothing. What the signal returned is returned.
    pub fn note_sample(&mut self, signal: usize, sampled: Result<bool, CommandError>) -> (outcome: Result<
        bool,
        CommandError,
    >)
        ensures
            outcome == sampled,
            final(self)@ == (EventLoopView {
                samples: match sampled {
                    Ok(value) => old(self)@.samples.push(Sample { signal, value }),
                    Err(_) => old(self)@.samples,
                },
                ..old(self)@
            }),
    {
        proof {
            if let Ok(value) = sampled {
                self.samples@ = self.samples@.push(Sample { signal, value });
            }
        }
        sampled
    }

    /// Evaluates the condition in slot `condition`. A signal is sampled each
    /// time a condition that names it is evaluated; the second part of an
    /// `And` or an `Or` is evaluated only if the first does not decide. The
    /// value is what the condition comes to with the samples taken, as
    /// [`condition_reads`] says. The first signal that fails ends the
    /// evaluation with its failure.
    pub fn evaluate(&mut self, condition: usize) -> (outcome: Result<bool, CommandError>)
        requires
            old(self)@.wf(),
            condition < old(self)@.conditions.len(),
        ensures
            final(self)@.wf(),
            old(self)@.sampled(final(self)@),
            outcome matches Ok(value) ==> old(self)@.can_be(condition as int, value) && old(self)@.read(
                final(self)@,
                condition as int,
                value,
            ),
            old(self)@.source_free(condition as int) ==> outcome == Ok::<bool, CommandError>(
                old(self)@.value_of(condition as int),
            ),
        decreases condition,
    {
        proof {
            assert(self@.condition_ok(condition as int));
            assert(self@.samples.skip(self@.samples.len() as int) =~= Seq::<Sample>::empty());
            assert(self@.samples =~= self@.samples.subrange(0, self@.samples.len() as int));
        }
        match self.conditions[condition] {
            Condition::Source(signal) => {
                let sampled = self.signals[signal].sample();
                let outcome = self.note_sample(signal, sampled);
                proof {
                    lemma_wf_remembers(old(self)@, self@);
                    if let Ok(value) = outcome {
                        let taken = self@.samples.skip(old(self)@.samples.len() as int);
                        assert(taken =~= seq![Sample { signal, value }]);
                        assert(taken.skip(1) =~= Seq::<Sample>::empty());
                        assert(old(self)@.samples =~= self@.samples.subrange(
                            0,
                            old(self)@.samples.len() as int,
                        ));
                    }
                }
                outcome
            },
            Condition::Cached(cell) => Ok(self.cells[cell]),
            Condition::And(first, second) => {
                let left = match self.evaluate(first) {
                    Ok(left) => left,
                    Err(failure) => {
                        return Err(failure);
                    },
                };
                let ghost middle = self@;
                if left {
                    let right = self.evaluate(second);
                    proof {
                        self.lemma_two_parts(old(self)@, middle, first as int);
                        lemma_value_same_cells(middle, old(self)@, second as int);
                        if let Ok(value) = right {
                            lemma_can_be_same_cells(middle, old(self)@, second as int, value);
                        }
                    }
                    right
                } else {
                    Ok(false)
                }
            },
            Condition::Or(first, second) => {
                let left = match self.evaluate(first) {
                    Ok(left) => left,
                    Err(failure) => {
                        return Err(failure);
                    },
                };
                let ghost middle = self@;
                if left {
                    Ok(true)
                } else {
                    let right = self.evaluate(second);
                    proof {
                        self.lemma_two_parts(old(self)@, middle, first as int);
                        lemma_value_same_cells(middle, old(self)@, second as int);
                        if let Ok(value) = right {
                            lemma_can_be_same_cells(middle, old(self)@, second as int, value);
                        }
                    }
                    right
                }
            },
            Condition::Not(inner) => {
                let value = match self.evaluate(inner) {
                    Ok(value) => value,
                    Err(failure) => {
                        return Err(failure);
                    },
                };
                Ok(!value)
            },
        }
    }

    /// Where a first part was evaluated between `start` and `middle` and a
    /// second part between `middle` and now, the first part, read with the
    /// samples of both, comes to its value and leaves the samples of the
    /// second.
    proof fn lemma_two_parts(&self, start: EventLoopView, middle: EventLoopView, first: int)
        requires
            start.sampled(middle),
            middle.sampled(self@),
            condition_reads(
                start.conditions,
                start.cells,
                first,
                middle.samples.skip(start.samples.len() as int),
            ) is Some,
            condition_reads(
                start.conditions,
                start.cells,
                first,
                middle.samples.skip(start.samples.len() as int),
            ).unwrap().1 == Seq::<Sample>::empty(),
        ensures
            start.sampled(self@),
            condition_reads(
                start.conditions,
                start.cells,
                first,
                self@.samples.skip(start.samples.len() as int),
            ) == Some(
                (
                    condition_reads(
                        start.conditions,
                        start.cells,
                        first,
                        middle.samples.skip(start.samples.len() as int),
                    ).unwrap().0,
                    self@.samples.skip(middle.samples.len() as int),
                ),
            ),
    {
        let one = middle.samples.skip(start.samples.len() as int);
        let two = self@.samples.skip(middle.samples.len() as int);
        crate::lemmas::lemma_prefix_transitive(start.samples, middle.samples, self@.samples);
        lemma_skip_grows(start.samples, middle.samples, self@.samples);
        lemma_reads_more(start.conditions, start.cells, first, one, two);
        assert(Seq::<Sample>::empty() + two =~= two);
    }

    /// Caches in `cell` what a sample of a signal came to: the value, if the
    /// signal gave one. If the signal failed, the cell stays as it is and the
    /// failure is returned.
    pub fn cache(&mut self, cell: usize, sampled: Result<bool, CommandError>) -> (outcome: Result<
        (),
        CommandError,
    >)
        requires
            old(self)@.wf(),
            cell < old(self)@.cells.len(),
        ensures
            final(self)@.wf(),
            match sampled {
                Ok(value) => outcome == Ok::<(), CommandError>(()) && final(self)@ == (EventLoopView {
                    cells: old(self)@.cells.update(cell as int, value),
                    ..old(self)@
                }),
                Err(failure) => outcome == Err::<(), CommandError>(failure) && final(self)@ == old(self)@,
            },
    {
        match sampled {
            Ok(value) => {
                self.cells[cell] = value;
                proof {
                    lemma_wf_remembers(old(self)@, self@);
                }
                Ok(())
            },
            Err(failure) => Err(failure),
        }
    }

    /// Runs the binding in position `k`.
    fn fire<S: Subsystem<C>, C: Command>(
        &mut self,
        k: usize,
        scheduler: &mut CommandSchedulerState<S, C>,
    ) -> (outcome: Result<(), CommandError>)
        requires
            old(self)@.wf(),
            k < old(self)@.events.len(),
            old(scheduler)@.wf(),
        ensures
            final(self)@.wf(),
            final(scheduler)@.wf(),
            old(scheduler)@.same_setup(final(scheduler)@),
            old(self)@.fired(
                final(self)@,
                k as int,
                old(scheduler)@,
                final(scheduler)@,
                outcome is Ok,
            ),
    {
        proof {
            assert(self@.binding_ok(k as int));
            self.calls@ = self.calls@ + self@.binding_calls(k as int);
            lemma_wf_remembers(old(self)@, self@);
        }
        let ghost called = self@;
        match self.events[k] {
            Binding::Custom { action } => {
                let mut context = scheduler.context();
                let acted = self.actions[action].run(&mut context);
                let (to_schedule, to_cancel) = context.into_requests();
                scheduler.apply_requests(acted, to_schedule, to_cancel)
            },
            Binding::Sample { signal, cell } => {
                let sampled = self.signals[signal].sample();
                self.cache(cell, sampled)
            },
            Binding::Derive { derivation, first, second, cell } => {
                let previous = self.memory[k];
                let value = derive_value(derivation, previous, self.cells[first], self.cells[second]);
                self.memory[k] = self.cells[first];
                self.cells[cell] = value;
                proof {
                    lemma_wf_remembers(called, self@);
                }
                Ok(())
            },
            Binding::IfHigh { cell, action } => {
                if self.cells[cell] {
                    let mut context = scheduler.context();
                    let acted = self.actions[action].run(&mut context);
                    let (to_schedule, to_cancel) = context.into_requests();
                    scheduler.apply_requests(acted, to_schedule, to_cancel)
                } else {
                    Ok(())
                }
            },
            Binding::Trigger { edge, condition, command } => {
                let pressed = match self.evaluate(condition) {
                    Ok(pressed) => pressed,
                    Err(failure) => {
                        return Err(failure);
                    },
                };
                let pressed_last = self.memory[k];
                self.memory[k] = pressed;
                proof {
                    lemma_wf_remembers(old(self)@, self@);
                    assert(old(self)@.can_be(condition as int, pressed)) by {
                        lemma_can_be_same_cells(called, old(self)@, condition as int, pressed);
                    }
                }
                match edge_action(edge, pressed_last, pressed, scheduler.is_scheduled(command)) {
                    EdgeAction::Schedule => scheduler.schedule(command),
                    EdgeAction::Cancel => scheduler.cancel(command),
                    EdgeAction::Nothing => Ok(()),
                }
            },
        }
    }

    /// Polls the loop: runs every binding once, in the order in which they
    /// were bound. An action is run, and what it asks of `scheduler` is
    /// applied at once; a signal is sampled and its value cached; a derived event is computed from the cached values of its
    /// sources; a trigger binding evaluates its condition, remembers the
    /// value, and schedules or cancels its command on `scheduler` as
    /// [`edge_decision`] says. The first binding that fails stops the poll,
    /// and its failure is returned.
    pub fn poll<S: Subsystem<C>, C: Command>(
        &mut self,
        scheduler: &mut CommandSchedulerState<S, C>,
    ) -> (outcome: Result<(), CommandError>)
        requires
            old(self)@.wf(),
            old(scheduler)@.wf(),
        ensures
            final(self)@.wf(),
            old(self)@.same_bindings(final(self)@),
            final(scheduler)@.wf(),
            old(scheduler)@.same_setup(final(scheduler)@),
            exists|steps: Seq<PollState>| #[trigger]
                old(self)@.polling(
                    old(scheduler)@,
                    final(self)@,
                    final(scheduler)@,
                    steps,
                    outcome is Ok,
                ),
    {
        let ghost mut steps: Seq<PollState> = seq![
            PollState { bindings: self@, scheduler: scheduler@ },
        ];
        let mut k: usize = 0;
        while k < self.events.len()
            invariant
                k <= self@.events.len(),
                self@.wf(),
                old(self)@.same_bindings(self@),
                scheduler@.wf(),
                old(scheduler)@.same_setup(scheduler@),
                steps.len() == k + 1,
                steps[0] == (PollState { bindings: old(self)@, scheduler: old(scheduler)@ }),
                steps.last() == (PollState { bindings: self@, scheduler: scheduler@ }),
                forall|j: int|
                    0 <= j < k ==> (#[trigger] steps[j]).bindings.fired(
                        steps[j + 1].bindings,
                        j,
                        steps[j].scheduler,
                        steps[j + 1].scheduler,
                        true,
                    ),
            decreases self@.events.len() - k,
        {
            let ghost earlier = steps;
            let fired = self.fire(k, scheduler);
            proof {
                steps = steps.push(PollState { bindings: self@, scheduler: scheduler@ });
                assert forall|j: int| 0 <= j < k implies (#[trigger] steps[j]).bindings.fired(
                    steps[j + 1].bindings,
                    j,
                    steps[j].scheduler,
                    steps[j + 1].scheduler,
                    true,
                ) by {
                    assert(steps[j] == earlier[j]);
                    assert(steps[j + 1] == earlier[j + 1]);
                }
            }
            if fired.is_err() {
                proof {
                    let went_well = fired is Ok;
                    assert(old(self)@.polling(old(scheduler)@, self@, scheduler@, steps, went_well));
                }
                return fired;
            }
            k += 1;
        }
        let outcome = Ok(());
        proof {
            let went_well = outcome is Ok;
            assert(old(self)@.polling(old(scheduler)@, self@, scheduler@, steps, went_well));
        }
        outcome
    }

    /// Adds a condition that refers only to what the loop holds and returns
    /// its slot.
    pub(crate) fn push_condition(&mut self, condition: Condition) -> (slot: usize)
        requires
            old(self)@.wf(),
            (EventLoopView {
                conditions: old(self)@.conditions.push(condition),
                ..old(self)@
            }).condition_ok(old(self)@.conditions.len() as int),
        ensures
            final(self)@.wf(),
            slot == old(self)@.conditions.len(),
            final(self)@ == (EventLoopView {
                conditions: old(self)@.conditions.push(condition),
                ..old(self)@
            }),
    {
        let slot = self.conditions.len();
        self.conditions.push(condition);
        proof {
            let before = old(self)@;
            let after = self@;
            assert forall|i: int| 0 <= i < after.conditions.len() implies #[trigger] after.condition_ok(
                i,
            ) by {
                if i < before.conditions.len() {
                    assert(before.condition_ok(i));
                }
            }
            assert forall|k: int| 0 <= k < after.events.len() implies #[trigger] after.binding_ok(
                k,
            ) by {
                assert(before.binding_ok(k));
            }
        }
        slot
    }

    /// Takes a signal into the loop and returns its slot.
    pub(crate) fn push_signal(&mut self, signal: G) -> (slot: usize)
        requires
            old(self)@.wf(),
        ensures
            final(self)@.wf(),
            slot == old(self)@.signals,
            final(self)@ == (EventLoopView { signals: old(self)@.signals + 1, ..old(self)@ }),
    {
        let slot = self.signals.len();
        self.signals.push(signal);
        proof {
            lemma_wf_grows(old(self)@, self@);
        }
        slot
    }

    /// Binds a trigger: in every poll the condition in slot `condition` is
    /// evaluated and compared with `pressed_last`, its value in the poll
    /// before.
    pub(crate) fn bind_trigger(
        &mut self,
        edge: Edge,
        condition: usize,
        pressed_last: bool,
        command: AnyCommand,
    )
        requires
            old(self)@.wf(),
            condition < old(self)@.conditions.len(),
        ensures
            final(self)@.wf(),
            final(self)@ == (EventLoopView {
                events: old(self)@.events.push(Binding::Trigger { edge, condition, command }),
                memory: old(self)@.memory.push(pressed_last),
                ..old(self)@
            }),
    {
        self.push_binding(Binding::Trigger { edge, condition, command }, pressed_last);
    }

    /// Appends a binding that refers only to what the loop holds and that
    /// writes, if it writes, the last cell.
    fn push_binding(&mut self, binding: Binding, remembered: bool)
        requires
            old(self)@.wf(),
            (EventLoopView { events: seq![binding], ..old(self)@ }).binding_ok(0),
            binding.written_cell() is Some ==> binding.written_cell().unwrap() + 1
                == old(self)@.cells.len() && forall|k: int|
                0 <= k < old(self)@.events.len() && (#[trigger] old(self)@.events[k]).written_cell()
                    is Some ==> old(self)@.events[k].written_cell().unwrap() + 1 < old(self)@.cells.len(),
        ensures
            final(self)@.wf(),
            final(self)@ == (EventLoopView {
                events: old(self)@.events.push(binding),
                memory: old(self)@.memory.push(remembered),
                ..old(self)@
            }),
    {
        self.events.push(binding);
        self.memory.push(remembered);
        proof {
            let before = old(self)@;
            let after = self@;
            assert forall|i: int| 0 <= i < after.conditions.len() implies #[trigger] after.condition_ok(
                i,
            ) by {
                assert(before.condition_ok(i));
            }
            assert forall|k: int| 0 <= k < after.events.len() implies #[trigger] after.binding_ok(
                k,
            ) by {
                if k < before.events.len() {
                    assert(before.binding_ok(k));
                } else {
                    assert((EventLoopView { events: seq![binding], ..before }).binding_ok(0));
                }
            }
        }
    }

    /// Appends a cell that holds `value` and returns its number.
    fn push_cell(&mut self, value: bool) -> (cell: usize)
        requires
            old(self)@.wf(),
        ensures
            final(self)@.wf(),
            cell == old(self)@.cells.len(),
            final(self)@ == (EventLoopView { cells: old(self)@.cells.push(value), ..old(self)@ }),
            forall|k: int|
                0 <= k < final(self)@.events.len() && (#[trigger] final(self)@.events[k]).written_cell()
                    is Some ==> final(self)@.events[k].written_cell().unwrap() + 1 < final(self)@.cells.len(),
    {
        let cell = self.cells.len();
        self.cells.push(value);
        proof {
            lemma_wf_grows(old(self)@, self@);
            assert forall|k: int|
                0 <= k < self@.events.len() && (#[trigger] self@.events[k]).written_cell()
                    is Some implies self@.events[k].written_cell().unwrap() + 1
                < self@.cells.len() by {
                assert(old(self)@.binding_ok(k));
            }
        }
        cell
    }
}

impl<G: Signal, A: Action> Default for EventLoop<G, A> {
    /// A loop without bindings.
    fn default() -> (event_loop: Self)
        ensures
            event_loop@.wf(),
            event_loop@.signals == 0,
            event_loop@.actions == 0,
            event_loop@.conditions == Seq::<Condition>::empty(),
            event_loop@.cells == Seq::<bool>::empty(),
            event_loop@.events == Seq::<Binding>::empty(),
            event_loop@.memory == Seq::<bool>::empty(),
            event_loop@.calls == Seq::<LoopCall>::empty(),
            event_loop@.samples == Seq::<Sample>::empty(),
    {
        EventLoop::new()
    }
}

impl BooleanEvent {
    /// Makes a boolean event of `signal` on `event_loop`. The signal is
    /// sampled once now, and from then on once in every poll, and the value
    /// is cached. If the first sample fails, its failure is returned and the
    /// loop stays as it was.
    pub fn new<G: Signal, A: Action>(event_loop: &mut EventLoop<G, A>, signal: G) -> (outcome: Result<
        BooleanEvent,
        CommandError,
    >)
        requires
            old(event_loop)@.wf(),
        ensures
            final(event_loop)@.wf(),
            outcome is Err ==> final(event_loop)@ == old(event_loop)@,
            outcome matches Ok(event) ==> event.cell == old(event_loop)@.cells.len() && final(event_loop)@
                == (EventLoopView {
                signals: old(event_loop)@.signals + 1,
                cells: old(event_loop)@.cells.push(final(event_loop)@.cached(event.cell)),
                events: old(event_loop)@.events.push(
                    Binding::Sample { signal: old(event_loop)@.signals as usize, cell: event.cell },
                ),
                memory: old(event_loop)@.memory.push(false),
                ..old(event_loop)@
            }),
    {
        let mut signal = signal;
        let first = signal.sample();
        Self::from_sample(event_loop, signal, first)
    }

    /// Makes a boolean event of `signal` on `event_loop`, given what the first
    /// sample of the signal came to.
    ///
    /// If the sample failed, its failure is returned and the loop stays as it
    /// was. Otherwise the signal joins the loop, the sampled value is cached
    /// in a new cell, and a binding is bound that samples the signal anew and
    /// caches the value in every poll. The event names the new cell.
    pub fn from_sample<G: Signal, A: Action>(
        event_loop: &mut EventLoop<G, A>,
        signal: G,
        first: Result<bool, CommandError>,
    ) -> (outcome: Result<BooleanEvent, CommandError>)
        requires
            old(event_loop)@.wf(),
        ensures
            final(event_loop)@.wf(),
            match first {
                Err(failure) => outcome == Err::<BooleanEvent, CommandError>(failure) && final(event_loop)@ == old(event_loop)@,
                Ok(value) => outcome matches Ok(event) && event.cell == old(event_loop)@.cells.len()
                    && final(event_loop)@ == (EventLoopView {
                    signals: old(event_loop)@.signals + 1,
                    cells: old(event_loop)@.cells.push(value),
                    events: old(event_loop)@.events.push(
                        Binding::Sample {
                            signal: old(event_loop)@.signals as usize,
                            cell: event.cell,
                        },
                    ),
                    memory: old(event_loop)@.memory.push(false),
                    ..old(event_loop)@
                }),
            },
    {
        match first {
            Err(failure) => Err(failure),
            Ok(value) => {
                let slot = event_loop.push_signal(signal);
                let cell = event_loop.push_cell(value);
                event_loop.push_binding(Binding::Sample { signal: slot, cell }, false);
                Ok(BooleanEvent { cell })
            },
        }
    }

    /// The value that was cached last.
    pub fn current_state<G: Signal, A: Action>(&self, event_loop: &EventLoop<G, A>) -> (state: bool)
        requires
            self.cell < event_loop@.cells.len(),
        ensures
            state == event_loop@.cached(self.cell),
    {
        event_loop.cells[self.cell]
    }

    /// Binds `action` to run in every poll in which the cached value is true.
    pub fn if_high<G: Signal, A: Action>(&self, event_loop: &mut EventLoop<G, A>, action: A)
        requires
            old(event_loop)@.wf(),
            self.cell < old(event_loop)@.cells.len(),
        ensures
            final(event_loop)@.wf(),
            final(event_loop)@ == (EventLoopView {
                actions: old(event_loop)@.actions + 1,
                events: old(event_loop)@.events.push(
                    Binding::IfHigh { cell: self.cell, action: old(event_loop)@.actions as usize },
                ),
                memory: old(event_loop)@.memory.push(false),
                ..old(event_loop)@
            }),
    {
        let slot = event_loop.actions.len();
        event_loop.actions.push(action);
        proof {
            lemma_wf_grows(old(event_loop)@, event_loop@);
        }
        event_loop.push_binding(Binding::IfHigh { cell: self.cell, action: slot }, false);
    }

    /// The trigger whose condition is the cached value of this event.
    pub fn as_trigger<G: Signal, A: Action>(&self, event_loop: &mut EventLoop<G, A>) -> (trigger: Trigger)
        requires
            old(event_loop)@.wf(),
            self.cell < old(event_loop)@.cells.len(),
        ensures
            final(event_loop)@.wf(),
            trigger.condition == old(event_loop)@.conditions.len(),
            final(event_loop)@ == (EventLoopView {
                conditions: old(event_loop)@.conditions.push(Condition::Cached(self.cell)),
                ..old(event_loop)@
            }),
    {
        Trigger { condition: event_loop.push_condition(Condition::Cached(self.cell)) }
    }

    /// Makes the event that is derived from `self` and `other` in the given
    /// way. Its value is computed once now, from the cached values and as if
    /// the first source had held its present value in the poll before, and
    /// from then on once in every poll, after its sources, from their cached
    /// values.
    pub fn derive<G: Signal, A: Action>(
        &self,
        event_loop: &mut EventLoop<G, A>,
        derivation: Derivation,
        other: &BooleanEvent,
    ) -> (event: BooleanEvent)
        requires
            old(event_loop)@.wf(),
            self.cell < old(event_loop)@.cells.len(),
            other.cell < old(event_loop)@.cells.len(),
        ensures
            final(event_loop)@.wf(),
            event.cell == old(event_loop)@.cells.len(),
            final(event_loop)@ == (EventLoopView {
                cells: old(event_loop)@.cells.push(
                    derived_value(
                        derivation,
                        old(event_loop)@.cached(self.cell),
                        old(event_loop)@.cached(self.cell),
                        old(event_loop)@.cached(other.cell),
                    ),
                ),
                events: old(event_loop)@.events.push(
                    Binding::Derive {
                        derivation,
                        first: self.cell,
                        second: other.cell,
                        cell: event.cell,
                    },
                ),
                memory: old(event_loop)@.memory.push(old(event_loop)@.cached(self.cell)),
                ..old(event_loop)@
            }),
    {
        let previous = event_loop.cells[self.cell];
        let second = event_loop.cells[other.cell];
        let value = derive_value(derivation, previous, previous, second);
        let cell = event_loop.push_cell(value);
        event_loop.push_binding(
            Binding::Derive { derivation, first: self.cell, second: other.cell, cell },
            previous,
        );
        BooleanEvent { cell }
    }

    /// The event that is true in the poll in which `self` turns true.
    pub fn rising<G: Signal, A: Action>(&self, event_loop: &mut EventLoop<G, A>) -> (event: BooleanEvent)
        requires
            old(event_loop)@.wf(),
            self.cell < old(event_loop)@.cells.len(),
        ensures
            final(event_loop)@.wf(),
            event.cell == old(event_loop)@.cells.len(),
            final(event_loop)@ == (EventLoopView {
                cells: old(event_loop)@.cells.push(false),
                events: old(event_loop)@.events.push(
                    Binding::Derive {
                        derivation: Derivation::Rising,
                        first: self.cell,
                        second: self.cell,
                        cell: event.cell,
                    },
                ),
                memory: old(event_loop)@.memory.push(old(event_loop)@.cached(self.cell)),
                ..old(event_loop)@
            }),
    {
        self.derive(event_loop, Derivation::Rising, self)
    }

    /// The event that is true in the poll in which `self` turns false.
    pub fn falling<G: Signal, A: Action>(&self, event_loop: &mut EventLoop<G, A>) -> (event: BooleanEvent)
        requires
            old(event_loop)@.wf(),
            self.cell < old(event_loop)@.cells.len(),
        ensures
            final(event_loop)@.wf(),
            event.cell == old(event_loop)@.cells.len(),
            final(event_loop)@ == (EventLoopView {
                cells: old(event_loop)@.cells.push(false),
                events: old(event_loop)@.events.push(
                    Binding::Derive {
                        derivation: Derivation::Falling,
                        first: self.cell,
                        second: self.cell,
                        cell: event.cell,
                    },
                ),
                memory: old(event_loop)@.memory.push(old(event_loop)@.cached(self.cell)),
                ..old(event_loop)@
            }),
    {
        self.derive(event_loop, Derivation::Falling, self)
    }

    /// The event that is true whenever `self` is false.
    pub fn negate<G: Signal, A: Action>(&self, event_loop: &mut EventLoop<G, A>) -> (event: BooleanEvent)
        requires
            old(event_loop)@.wf(),
            self.cell < old(event_loop)@.cells.len(),
        ensures
            final(event_loop)@.wf(),
            event.cell == old(event_loop)@.cells.len(),
            final(event_loop)@ == (EventLoopView {
                cells: old(event_loop)@.cells.push(!old(event_loop)@.cached(self.cell)),
                events: old(event_loop)@.events.push(
                    Binding::Derive {
                        derivation: Derivation::Negate,
                        first: self.cell,
                        second: self.cell,
                        cell: event.cell,
                    },
                ),
                memory: old(event_loop)@.memory.push(old(event_loop)@.cached(self.cell)),
                ..old(event_loop)@
            }),
    {
        self.derive(event_loop, Derivation::Negate, self)
    }

    /// The event that is true whenever `self` and `other` both are.
    pub fn and<G: Signal, A: Action>(&self, event_loop: &mut EventLoop<G, A>, other: &BooleanEvent) -> (event:
        BooleanEvent)
        requires
            old(event_loop)@.wf(),
            self.cell < old(event_loop)@.cells.len(),
            other.cell < old(event_loop)@.cells.len(),
        ensures
            final(event_loop)@.wf(),
            event.cell == old(event_loop)@.cells.len(),
            final(event_loop)@ == (EventLoopView {
                cells: old(event_loop)@.cells.push(
                    old(event_loop)@.cached(self.cell) && old(event_loop)@.cached(other.cell),
                ),
                events: old(event_loop)@.events.push(
                    Binding::Derive {
                        derivation: Derivation::And,
                        first: self.cell,
                        second: other.cell,
                        cell: event.cell,
                    },
                ),
                memory: old(event_loop)@.memory.push(old(event_loop)@.cached(self.cell)),
                ..old(event_loop)@
            }),
    {
        self.derive(event_loop, Derivation::And, other)
    }

    /// The event that is true whenever `self` or `other` is.
    pub fn or<G: Signal, A: Action>(&self, event_loop: &mut EventLoop<G, A>, other: &BooleanEvent) -> (event:
        BooleanEvent)
        requires
            old(event_loop)@.wf(),
            self.cell < old(event_loop)@.cells.len(),
            other.cell < old(event_loop)@.cells.len(),
        ensures
            final(event_loop)@.wf(),
            event.cell == old(event_loop)@.cells.len(),
            final(event_loop)@ == (EventLoopView {
                cells: old(event_loop)@.cells.push(
                    old(event_loop)@.cached(self.cell) || old(event_loop)@.cached(other.cell),
                ),
                events: old(event_loop)@.events.push(
                    Binding::Derive {
                        derivation: Derivation::Or,
                        first: self.cell,
                        second: other.cell,
                        cell: event.cell,
                    },
                ),
                memory: old(event_loop)@.memory.push(old(event_loop)@.cached(self.cell)),
                ..old(event_loop)@
            }),
    {
        self.derive(event_loop, Derivation::Or, other)
    }
}

} // verus!
