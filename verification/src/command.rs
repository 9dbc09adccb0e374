//! Commands: units of behaviour with a requirement set and lifecycle hooks.
use vstd::prelude::*;
use crate::collections::{IdSet, id_set_contents, id_set_contains};
use crate::event::Action;
use crate::scheduler::CommandSchedulerState;
use crate::subsystem::Subsystem;
use crate::{AnyCommand, AnySubsystem, CommandError};

verus! {

/// What happens when a newly scheduled command needs a subsystem that a
/// scheduled command already owns.
#[derive(Clone, Copy, Debug, PartialEq, Eq, Structural)]
pub enum InterruptionBehavior {
    /// The owner is cancelled to make room for the incoming command.
    CancelSelf,
    /// The incoming command is rejected and the owner keeps running.
    CancelIncoming,
}

impl Default for InterruptionBehavior {
    fn default() -> (behavior: Self)
        ensures
            behavior == InterruptionBehavior::CancelSelf,
    {
        InterruptionBehavior::CancelSelf
    }
}

/// The scheduler as a hook of a command or an action of an event loop sees
/// it.
///
/// Neither can change which commands are scheduled. Both can ask whether a
/// command is scheduled, and both can leave requests to schedule and to
/// cancel commands. What a hook of a command leaves, the scheduler puts at
/// the end of its queues when the hook has returned; it is applied when the
/// queues are applied, after a tick's pass over the scheduled commands. What
/// an action of an event loop leaves is applied as soon as the action has
/// returned, the requests to schedule before the requests to cancel.
pub struct SchedulerContext<'a> {
    scheduled: &'a IdSet,
    ending: &'a IdSet,
    to_schedule: Vec<AnyCommand>,
    to_cancel: Vec<AnyCommand>,
}

impl<'a> SchedulerContext<'a> {
    /// The slots of the commands that are scheduled while the hook runs.
    pub closed spec fn scheduled(&self) -> Set<usize> {
        id_set_contents(*self.scheduled)
    }

    /// The slots of the commands that are inside their own `end`.
    pub closed spec fn ending(&self) -> Set<usize> {
        id_set_contents(*self.ending)
    }

    /// The commands the hook has asked to schedule, oldest first.
    pub closed spec fn schedule_requests(&self) -> Seq<AnyCommand> {
        self.to_schedule@
    }

    /// The commands the hook has asked to cancel, oldest first.
    pub closed spec fn cancel_requests(&self) -> Seq<AnyCommand> {
        self.to_cancel@
    }

    pub(crate) fn new(scheduled: &'a IdSet, ending: &'a IdSet) -> (context: Self)
        ensures
            context.scheduled() == id_set_contents(*scheduled),
            context.ending() == id_set_contents(*ending),
            context.schedule_requests() == Seq::<AnyCommand>::empty(),
            context.cancel_requests() == Seq::<AnyCommand>::empty(),
    {
        SchedulerContext { scheduled, ending, to_schedule: Vec::new(), to_cancel: Vec::new() }
    }

    pub(crate) fn into_requests(self) -> (requests: (Vec<AnyCommand>, Vec<AnyCommand>))
        ensures
            requests.0@ == self.schedule_requests(),
            requests.1@ == self.cancel_requests(),
    {
        (self.to_schedule, self.to_cancel)
    }

    /// Asks for `command` to be scheduled. The set of scheduled commands
    /// stays as it is; the request joins the queue.
    pub fn schedule(&mut self, command: AnyCommand)
        ensures
            final(self).scheduled() == old(self).scheduled(),
            final(self).ending() == old(self).ending(),
            final(self).schedule_requests() == old(self).schedule_requests().push(command),
            final(self).cancel_requests() == old(self).cancel_requests(),
    {
        self.to_schedule.push(command);
    }

    /// Asks for `command` to be cancelled. A command that is inside its own
    /// `end` is already on its way out, and the request is dropped.
    pub fn cancel(&mut self, command: AnyCommand)
        ensures
            final(self).scheduled() == old(self).scheduled(),
            final(self).ending() == old(self).ending(),
            final(self).schedule_requests() == old(self).schedule_requests(),
            final(self).cancel_requests() == if old(self).ending().contains(command.0) {
                old(self).cancel_requests()
            } else {
                old(self).cancel_requests().push(command)
            },
    {
        if !id_set_contains(self.ending, command.0) {
            self.to_cancel.push(command);
        }
    }

    /// Whether `command` is scheduled while the hook runs.
    pub fn is_scheduled(&self, command: AnyCommand) -> (scheduled: bool)
        ensures
            scheduled == self.scheduled().contains(command.0),
    {
        id_set_contains(self.scheduled, command.0)
    }
}

/// What a command declares about itself. The declaration holds for as long as
/// the command exists: no hook changes it.
pub struct CommandInfo {
    /// The subsystems the command needs for itself while it is scheduled.
    pub requirements: Seq<AnySubsystem>,
    /// What the command does to a later command that needs one of its
    /// subsystems.
    pub interruption_behavior: InterruptionBehavior,
    /// Whether the command keeps running while the robot is disabled.
    pub runs_when_disabled: bool,
}

/// An action the robot can perform. It runs from the moment it is scheduled
/// until it finishes or is interrupted.
pub trait Command {
    /// What this command declares about itself. A command that says nothing
    /// else requires no subsystem, lets itself be interrupted and does not
    /// run while the robot is disabled.
    open spec fn info(&self) -> CommandInfo {
        CommandInfo {
            requirements: Seq::empty(),
            interruption_behavior: InterruptionBehavior::CancelSelf,
            runs_when_disabled: false,
        }
    }

    /// The subsystems this command needs for itself while it is scheduled.
    fn get_requirements(&self) -> (requirements: &[AnySubsystem])
        ensures
            requirements@ == self.info().requirements,
    ;

    /// Called once when the command is admitted. Does nothing unless the
    /// command says otherwise.
    fn initialize(&mut self, scheduler: &mut SchedulerContext<'_>) -> (outcome: Result<(), CommandError>)
        ensures
            final(self).info() == old(self).info(),
    {
        Ok(())
    }

    /// Called once per tick while the command is scheduled. Does nothing
    /// unless the command says otherwise.
    fn execute(&mut self, scheduler: &mut SchedulerContext<'_>) -> (outcome: Result<(), CommandError>)
        ensures
            final(self).info() == old(self).info(),
    {
        Ok(())
    }

    /// Called once when the command leaves the schedule: with `interrupted`
    /// false when it finished by itself, true when it was cancelled. Does
    /// nothing unless the command says otherwise.
    fn end(&mut self, interrupted: bool, scheduler: &mut SchedulerContext<'_>) -> (outcome: Result<
        (),
        CommandError,
    >)
        ensures
            final(self).info() == old(self).info(),
    {
        Ok(())
    }

    /// Asked after every `execute`: whether the command is done. It never is
    /// unless the command says otherwise.
    fn is_finished(&self, scheduler: &SchedulerContext<'_>) -> (outcome: Result<bool, CommandError>) {
        Ok(false)
    }

    /// Whether this command keeps running while the robot is disabled.
    fn runs_when_disabled(&self) -> (allowed: bool)
        ensures
            allowed == self.info().runs_when_disabled,
    ;

    /// What this command does to a later command that needs one of its
    /// subsystems.
    fn get_interruption_behavior(&self) -> (behavior: InterruptionBehavior)
        ensures
            behavior == self.info().interruption_behavior,
    ;
}

/// Shorthands on a command's handle for what the scheduler does with it.
pub trait CommandRefExt {
    /// The handle itself.
    spec fn handle(&self) -> AnyCommand;

    /// Schedules the command on `scheduler`.
    fn schedule<S: Subsystem<C>, C: Command>(&self, scheduler: &mut CommandSchedulerState<S, C>) -> (outcome:
        Result<(), CommandError>)
        requires
            old(scheduler)@.wf(),
        ensures
            final(scheduler)@.wf(),
            old(scheduler)@.same_setup(final(scheduler)@),
            old(scheduler)@.schedule_requested(final(scheduler)@, self.handle(), outcome is Ok),
    ;

    /// Cancels the command on `scheduler`.
    fn cancel<S: Subsystem<C>, C: Command>(&self, scheduler: &mut CommandSchedulerState<S, C>) -> (outcome:
        Result<(), CommandError>)
        requires
            old(scheduler)@.wf(),
        ensures
            final(scheduler)@.wf(),
            old(scheduler)@.same_setup(final(scheduler)@),
            old(scheduler)@.cancel_requested(final(scheduler)@, self.handle(), outcome is Ok),
    ;

    /// Whether the command is scheduled on `scheduler`.
    fn is_scheduled<S: Subsystem<C>, C: Command>(
        &self,
        scheduler: &CommandSchedulerState<S, C>,
    ) -> (scheduled: bool)
        ensures
            scheduled == scheduler@.scheduled.contains(self.handle().0),
    ;
}

impl CommandRefExt for AnyCommand {
    open spec fn handle(&self) -> AnyCommand {
        *self
    }

    fn schedule<S: Subsystem<C>, C: Command>(&self, scheduler: &mut CommandSchedulerState<S, C>) -> (outcome:
        Result<(), CommandError>) {
        scheduler.schedule(*self)
    }

    fn cancel<S: Subsystem<C>, C: Command>(&self, scheduler: &mut CommandSchedulerState<S, C>) -> (outcome:
        Result<(), CommandError>) {
        scheduler.cancel(*self)
    }

    fn is_scheduled<S: Subsystem<C>, C: Command>(
        &self,
        scheduler: &CommandSchedulerState<S, C>,
    ) -> (scheduled: bool) {
        scheduler.is_scheduled(*self)
    }
}

/// What to do when a command ends. It is told whether the command was
/// interrupted, it sees the scheduler as the command's hook does, and it may
/// fail.
pub trait EndAction {
    fn run(&mut self, interrupted: bool, scheduler: &mut SchedulerContext<'_>) -> (outcome: Result<
        (),
        CommandError,
    >);
}

/// A question that can be asked again and again without changing anything.
/// It sees the scheduler as the command's hook does. Asking may fail.
pub trait Check {
    fn check(&self, scheduler: &SchedulerContext<'_>) -> (outcome: Result<bool, CommandError>);
}

/// When a [`FunctionalCommand`] is finished.
pub enum Completion<F> {
    /// Never: the command runs until it is cancelled.
    Never,
    /// At once: the command ends in the tick of its first `execute`.
    AtOnce,
    /// When the check says so.
    When(F),
}

/// One run of a part of a [`FunctionalCommand`].
pub enum PartRun {
    /// The action for `initialize` was run.
    Init,
    /// The action for `execute` was run.
    Execute,
    /// The action for `end` was run and told whether the command was
    /// interrupted.
    End(bool),
}

/// Which hooks of a [`FunctionalCommand`] do something.
pub struct CommandShape {
    /// Whether `initialize` runs an action.
    pub initializes: bool,
    /// Whether `execute` runs an action.
    pub executes: bool,
    /// Whether `end` runs an action.
    pub ends: bool,
    /// What `is_finished` says, unless it asks a check.
    pub finished: Option<bool>,
}

/// A command put together from parts: an action for `initialize`, one for
/// `execute`, one for `end`, a check for `is_finished`, and the subsystems it
/// requires. A part that is left out does nothing and succeeds.
pub struct FunctionalCommand<A, E, F> {
    on_init: Option<A>,
    on_execute: Option<A>,
    on_end: Option<E>,
    is_finished: Completion<F>,
    requirements: Vec<AnySubsystem>,
    runs: Ghost<Seq<PartRun>>,
}

impl<A: Action, E: EndAction, F: Check> FunctionalCommand<A, E, F> {
    /// Every run of a part so far, oldest first.
    pub closed spec fn runs(&self) -> Seq<PartRun> {
        self.runs@
    }

    /// Which hooks of the command do something.
    pub closed spec fn shape(&self) -> CommandShape {
        CommandShape {
            initializes: self.on_init is Some,
            executes: self.on_execute is Some,
            ends: self.on_end is Some,
            finished: match self.is_finished {
                Completion::Never => Some(false),
                Completion::AtOnce => Some(true),
                Completion::When(_) => None,
            },
        }
    }

    /// The subsystems the command requires.
    pub closed spec fn required(&self) -> Seq<AnySubsystem> {
        self.requirements@
    }

    /// A command all of whose hooks are given.
    pub fn new(
        on_init: A,
        on_execute: A,
        on_end: E,
        is_finished: F,
        requirements: Vec<AnySubsystem>,
    ) -> (command: Self)
        ensures
            command.required() == requirements@,
            command.runs() == Seq::<PartRun>::empty(),
            command.shape() == (CommandShape {
                initializes: true,
                executes: true,
                ends: true,
                finished: None,
            }),
    {
        FunctionalCommand {
            on_init: Some(on_init),
            on_execute: Some(on_execute),
            on_end: Some(on_end),
            is_finished: Completion::When(is_finished),
            requirements,
            runs: Ghost(Seq::empty()),
        }
    }

    /// A command that runs `action` when it is initialized and is finished
    /// at once.
    pub fn run_once(action: A, requirements: Vec<AnySubsystem>) -> (command: Self)
        ensures
            command.required() == requirements@,
            command.runs() == Seq::<PartRun>::empty(),
            command.shape() == (CommandShape {
                initializes: true,
                executes: false,
                ends: false,
                finished: Some(true),
            }),
    {
        FunctionalCommand {
            on_init: Some(action),
            on_execute: None,
            on_end: None,
            is_finished: Completion::AtOnce,
            requirements,
            runs: Ghost(Seq::empty()),
        }
    }

    /// A command that runs `action` in every tick until it is cancelled.
    pub fn run(action: A, requirements: Vec<AnySubsystem>) -> (command: Self)
        ensures
            command.required() == requirements@,
            command.runs() == Seq::<PartRun>::empty(),
            command.shape() == (CommandShape {
                initializes: false,
                executes: true,
                ends: false,
                finished: Some(false),
            }),
    {
        FunctionalCommand {
            on_init: None,
            on_execute: Some(action),
            on_end: None,
            is_finished: Completion::Never,
            requirements,
            runs: Ghost(Seq::empty()),
        }
    }

    /// A command that runs `start` when it is initialized and `end` when it
    /// is cancelled.
    pub fn start_end(start: A, end: E, requirements: Vec<AnySubsystem>) -> (command: Self)
        ensures
            command.required() == requirements@,
            command.runs() == Seq::<PartRun>::empty(),
            command.shape() == (CommandShape {
                initializes: true,
                executes: false,
                ends: true,
                finished: Some(false),
            }),
    {
        FunctionalCommand {
            on_init: Some(start),
            on_execute: None,
            on_end: Some(end),
            is_finished: Completion::Never,
            requirements,
            runs: Ghost(Seq::empty()),
        }
    }

    /// A command that runs `run` in every tick and `end` when it is
    /// cancelled.
    pub fn run_end(run: A, end: E, requirements: Vec<AnySubsystem>) -> (command: Self)
        ensures
            command.required() == requirements@,
            command.runs() == Seq::<PartRun>::empty(),
            command.shape() == (CommandShape {
                initializes: false,
                executes: true,
                ends: true,
                finished: Some(false),
            }),
    {
        FunctionalCommand {
            on_init: None,
            on_execute: Some(run),
            on_end: Some(end),
            is_finished: Completion::Never,
            requirements,
            runs: Ghost(Seq::empty()),
        }
    }
}

impl<A: Action, E: EndAction, F: Check> Command for FunctionalCommand<A, E, F> {
    open spec fn info(&self) -> CommandInfo {
        CommandInfo {
            requirements: self.required(),
            interruption_behavior: InterruptionBehavior::CancelSelf,
            runs_when_disabled: false,
        }
    }

    fn get_requirements(&self) -> (requirements: &[AnySubsystem]) {
        self.requirements.as_slice()
    }

    fn initialize(&mut self, scheduler: &mut SchedulerContext<'_>) -> (outcome: Result<(), CommandError>)
        ensures
            final(self).shape() == old(self).shape(),
            final(self).runs() == if old(self).shape().initializes {
                old(self).runs().push(PartRun::Init)
            } else {
                old(self).runs()
            },
            !old(self).shape().initializes ==> outcome is Ok,
    {
        match &mut self.on_init {
            Some(action) => {
                proof {
                    self.runs@ = self.runs@.push(PartRun::Init);
                }
                action.run(scheduler)
            },
            None => Ok(()),
        }
    }

    fn execute(&mut self, scheduler: &mut SchedulerContext<'_>) -> (outcome: Result<(), CommandError>)
        ensures
            final(self).shape() == old(self).shape(),
            final(self).runs() == if old(self).shape().executes {
                old(self).runs().push(PartRun::Execute)
            } else {
                old(self).runs()
            },
            !old(self).shape().executes ==> outcome is Ok,
    {
        match &mut self.on_execute {
            Some(action) => {
                proof {
                    self.runs@ = self.runs@.push(PartRun::Execute);
                }
                action.run(scheduler)
            },
            None => Ok(()),
        }
    }

    fn end(&mut self, interrupted: bool, scheduler: &mut SchedulerContext<'_>) -> (outcome: Result<
        (),
        CommandError,
    >)
        ensures
            final(self).shape() == old(self).shape(),
            final(self).runs() == if old(self).shape().ends {
                old(self).runs().push(PartRun::End(interrupted))
            } else {
                old(self).runs()
            },
            !old(self).shape().ends ==> outcome is Ok,
    {
        match &mut self.on_end {
            Some(action) => {
                proof {
                    self.runs@ = self.runs@.push(PartRun::End(interrupted));
                }
                action.run(interrupted, scheduler)
            },
            None => Ok(()),
        }
    }

    fn is_finished(&self, scheduler: &SchedulerContext<'_>) -> (outcome: Result<bool, CommandError>)
        ensures
            self.shape().finished matches Some(finished) ==> outcome == Ok::<bool, CommandError>(finished),
    {
        match &self.is_finished {
            Completion::Never => Ok(false),
            Completion::AtOnce => Ok(true),
            Completion::When(check) => check.check(scheduler),
        }
    }

    fn runs_when_disabled(&self) -> (allowed: bool) {
        false
    }

    fn get_interruption_behavior(&self) -> (behavior: InterruptionBehavior) {
        InterruptionBehavior::CancelSelf
    }
}

} // verus!
