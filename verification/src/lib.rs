//! A cooperative, requirement-based command scheduler for robot control
//! loops.
//!
//! Subsystems and commands live in arenas owned by the scheduler and are
//! named by handles. A command declares the subsystems it requires; the
//! scheduler admits a command only once it owns all of them, so that no two
//! scheduled commands ever share a subsystem.
//!
//! - [`scheduler`] holds the scheduler itself, [`model`] what it is as
//!   mathematics, and [`lemmas`] and [`theorems`] what is proved of it.
//! - [`command`] and [`subsystem`] hold the traits that a robot implements.
//! - [`event`] and [`controller`] hold the event loop, the cached boolean
//!   events, and the triggers that bind commands to conditions.
//! - [`robot`] holds the phases of the control loop.
//! - [`collections`] holds the hash tables that the scheduler keeps its
//!   books in.
use vstd::prelude::*;

pub use crate::scheduler::{CommandScheduler, CommandSchedulerState};

pub mod collections;
pub mod command;
pub mod controller;
pub mod event;
pub mod lemmas;
pub mod model;
pub mod robot;
pub mod scheduler;
pub mod subsystem;
pub mod theorems;

verus! {

/// Names a subsystem by the arena slot it was registered in.
///
/// Two handles are equal exactly when they name the same slot, whatever the
/// state of the subsystem behind it.
#[derive(Clone, Copy, Debug, PartialEq, Eq, Structural, Hash)]
pub struct AnySubsystem(pub usize);

/// Names a command by the arena slot it was added in.
///
/// Two handles are equal exactly when they name the same slot, whatever the
/// state of the command behind it.
#[derive(Clone, Copy, Debug, PartialEq, Eq, Structural, Hash)]
pub struct AnyCommand(pub usize);

/// Why a default command could not be installed.
#[derive(Clone, Copy, Debug, PartialEq, Eq, Structural)]
pub enum SetDefaultCommandError {
    /// Default commands must require their subsystem.
    MustRequireSubsystem,
    /// Cannot set the default command on a subsystem that is not registered.
    NotRegistered,
}

impl SetDefaultCommandError {
    /// The message that describes this error.
    pub fn message(&self) -> (text: &'static str)
        ensures
            text@ == match *self {
                SetDefaultCommandError::MustRequireSubsystem =>
                    "Default commands must require their subsystem"@,
                SetDefaultCommandError::NotRegistered =>
                    "Cannot set the default command on a subsystem that is not registered."@,
            },
    {
        match self {
            SetDefaultCommandError::MustRequireSubsystem =>
                "Default commands must require their subsystem",
            SetDefaultCommandError::NotRegistered =>
                "Cannot set the default command on a subsystem that is not registered.",
        }
    }
}

/// A failure reported by a command, a signal or an action.
///
/// The scheduler never looks inside: it hands the failure to the caller of
/// the operation during which it arose.
#[derive(Clone, Debug, PartialEq, Eq)]
pub struct CommandError {
    pub message: String,
}

} // verus!
