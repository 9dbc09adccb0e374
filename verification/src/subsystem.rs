//! Subsystems: the hardware units that commands take turns to use.
use vstd::prelude::*;
use crate::command::{Check, Command, CommandShape, EndAction, FunctionalCommand, PartRun};
use crate::event::Action;
use crate::AnySubsystem;

verus! {

/// A collection of robot parts and other hardware that act together as a
/// whole. `C` is the type of the commands that can run on it.
pub trait Subsystem<C> {
    /// Called once per scheduler run, whether or not a command owns the
    /// subsystem. `this` is the subsystem's own handle.
    fn periodic(&mut self, this: AnySubsystem) {
    }

    /// Called once per scheduler run after `periodic`, but only in simulation.
    fn sim_periodic(&mut self, this: AnySubsystem) {
    }

    /// The command to run whenever no other command owns the subsystem. Asked
    /// once, when the subsystem is registered. There is none unless the
    /// subsystem says otherwise.
    fn default_command(&self, this: AnySubsystem) -> (command: Option<C>) {
        None
    }
}

/// Shorthands on a subsystem's handle for commands that require exactly that
/// subsystem.
pub trait SubsystemRefExt {
    /// The handle itself.
    spec fn handle(&self) -> AnySubsystem;

    /// A command on this subsystem that runs `action` when it is initialized
    /// and is finished at once.
    fn run_once<A: Action, E: EndAction, F: Check>(&self, action: A) -> (command: FunctionalCommand<A, E, F>)
        ensures
            command.info().requirements == seq![self.handle()],
            command.runs() == Seq::<PartRun>::empty(),
            command.shape() == (CommandShape {
                initializes: true,
                executes: false,
                ends: false,
                finished: Some(true),
            }),
    ;

    /// A command on this subsystem that runs `action` in every tick until it
    /// is cancelled.
    fn run<A: Action, E: EndAction, F: Check>(&self, action: A) -> (command: FunctionalCommand<A, E, F>)
        ensures
            command.info().requirements == seq![self.handle()],
            command.runs() == Seq::<PartRun>::empty(),
            command.shape() == (CommandShape {
                initializes: false,
                executes: true,
                ends: false,
                finished: Some(false),
            }),
    ;

    /// A command on this subsystem that runs `start` when it is initialized
    /// and `end` when it is cancelled.
    fn start_end<A: Action, E: EndAction, F: Check>(&self, start: A, end: E) -> (command: FunctionalCommand<
        A,
        E,
        F,
    >)
        ensures
            command.info().requirements == seq![self.handle()],
            command.runs() == Seq::<PartRun>::empty(),
            command.shape() == (CommandShape {
                initializes: true,
                executes: false,
                ends: true,
                finished: Some(false),
            }),
    ;

    /// A command on this subsystem that runs `run` in every tick and `end`
    /// when it is cancelled.
    fn run_end<A: Action, E: EndAction, F: Check>(&self, run: A, end: E) -> (command: FunctionalCommand<
        A,
        E,
        F,
    >)
        ensures
            command.info().requirements == seq![self.handle()],
            command.runs() == Seq::<PartRun>::empty(),
            command.shape() == (CommandShape {
                initializes: false,
                executes: true,
                ends: true,
                finished: Some(false),
            }),
    ;
}

impl SubsystemRefExt for AnySubsystem {
    open spec fn handle(&self) -> AnySubsystem {
        *self
    }

    fn run_once<A: Action, E: EndAction, F: Check>(&self, action: A) -> (command: FunctionalCommand<
        A,
        E,
        F,
    >) {
        FunctionalCommand::run_once(action, only(*self))
    }

    fn run<A: Action, E: EndAction, F: Check>(&self, action: A) -> (command: FunctionalCommand<A, E, F>) {
        FunctionalCommand::run(action, only(*self))
    }

    fn start_end<A: Action, E: EndAction, F: Check>(&self, start: A, end: E) -> (command: FunctionalCommand<
        A,
        E,
        F,
    >) {
        FunctionalCommand::start_end(start, end, only(*self))
    }

    fn run_end<A: Action, E: EndAction, F: Check>(&self, run: A, end: E) -> (command: FunctionalCommand<
        A,
        E,
        F,
    >) {
        FunctionalCommand::run_end(run, end, only(*self))
    }
}

/// The requirement list that holds `subsystem` and nothing else.
fn only(subsystem: AnySubsystem) -> (requirements: Vec<AnySubsystem>)
    ensures
        requirements@ == seq![subsystem],
{
    let mut requirements: Vec<AnySubsystem> = Vec::new();
    requirements.push(subsystem);
    proof {
        assert(requirements@ =~= seq![subsystem]);
    }
    requirements
}

} // verus!
