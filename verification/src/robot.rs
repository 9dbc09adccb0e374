//! The phases of a robot's control loop: which hooks one iteration calls.
use vstd::prelude::*;
use crate::CommandError;

verus! {

/// The milliseconds from the start of one iteration of the control loop to
/// the start of the next.
pub const ITERATION_PERIOD_MS: u64 = 20;

/// The phase of a competition that the robot is in.
#[derive(Clone, Copy, Debug, PartialEq, Eq, Structural)]
pub enum CompetitionMode {
    Disabled,
    Autonomous,
    Opcontrol,
}

/// The hooks of a robot that runs in phases. Each may fail, and each does
/// nothing unless the robot says otherwise.
pub trait ScheduledRobot {
    /// Called in every iteration, after the hooks of the phase.
    fn periodic(&mut self) -> (outcome: Result<(), CommandError>) {
        Ok(())
    }

    /// Called in every iteration after `periodic`, but only in simulation.
    fn sim_periodic(&mut self) -> (outcome: Result<(), CommandError>) {
        Ok(())
    }

    /// Called in the first iteration in which the robot is disabled.
    fn disabled_init(&mut self) -> (outcome: Result<(), CommandError>) {
        Ok(())
    }

    /// Called in every iteration in which the robot is disabled.
    fn disabled_periodic(&mut self) -> (outcome: Result<(), CommandError>) {
        Ok(())
    }

    /// Called in the first iteration in which the robot is autonomous.
    fn autonomous_init(&mut self) -> (outcome: Result<(), CommandError>) {
        Ok(())
    }

    /// Called in every iteration in which the robot is autonomous.
    fn autonomous_periodic(&mut self) -> (outcome: Result<(), CommandError>) {
        Ok(())
    }

    /// Called in the first iteration in which the robot is under operator
    /// control.
    fn opcontrol_init(&mut self) -> (outcome: Result<(), CommandError>) {
        Ok(())
    }

    /// Called in every iteration in which the robot is under operator
    /// control.
    fn opcontrol_periodic(&mut self) -> (outcome: Result<(), CommandError>) {
        Ok(())
    }
}

/// One hook of a [`ScheduledRobot`].
#[derive(Clone, Copy, Debug, PartialEq, Eq, Structural)]
pub enum RobotHook {
    Periodic,
    SimPeriodic,
    DisabledInit,
    DisabledPeriodic,
    AutonomousInit,
    AutonomousPeriodic,
    OpcontrolInit,
    OpcontrolPeriodic,
}

/// The hook that opens a phase.
pub open spec fn init_hook(mode: CompetitionMode) -> RobotHook {
    match mode {
        CompetitionMode::Disabled => RobotHook::DisabledInit,
        CompetitionMode::Autonomous => RobotHook::AutonomousInit,
        CompetitionMode::Opcontrol => RobotHook::OpcontrolInit,
    }
}

/// The hook that a phase calls in every iteration.
pub open spec fn periodic_hook(mode: CompetitionMode) -> RobotHook {
    match mode {
        CompetitionMode::Disabled => RobotHook::DisabledPeriodic,
        CompetitionMode::Autonomous => RobotHook::AutonomousPeriodic,
        CompetitionMode::Opcontrol => RobotHook::OpcontrolPeriodic,
    }
}

/// The hooks of the phase that one iteration calls: the hook that opens the
/// phase, if the iteration before was in another phase or there was none,
/// and then the phase's periodic hook.
pub open spec fn phase_hooks(previous: Option<CompetitionMode>, current: CompetitionMode) -> Seq<RobotHook> {
    if previous == Some(current) {
        seq![periodic_hook(current)]
    } else {
        seq![init_hook(current), periodic_hook(current)]
    }
}

/// The hooks that one iteration calls, in order: those of the phase, then
/// `periodic`, and in simulation `sim_periodic`.
pub open spec fn iteration_hooks(
    previous: Option<CompetitionMode>,
    current: CompetitionMode,
    simulated: bool,
) -> Seq<RobotHook> {
    phase_hooks(previous, current) + if simulated {
        seq![RobotHook::Periodic, RobotHook::SimPeriodic]
    } else {
        seq![RobotHook::Periodic]
    }
}

/// Lists the hooks that one iteration calls, in order.
pub fn plan_iteration(previous: Option<CompetitionMode>, current: CompetitionMode, simulated: bool) -> (hooks:
    Vec<RobotHook>)
    ensures
        hooks@ == iteration_hooks(previous, current, simulated),
{
    let mut hooks: Vec<RobotHook> = Vec::new();
    let entered = match previous {
        Some(mode) => !same_mode(mode, current),
        None => true,
    };
    match current {
        CompetitionMode::Disabled => {
            if entered {
                hooks.push(RobotHook::DisabledInit);
            }
            hooks.push(RobotHook::DisabledPeriodic);
        },
        CompetitionMode::Autonomous => {
            if entered {
                hooks.push(RobotHook::AutonomousInit);
            }
            hooks.push(RobotHook::AutonomousPeriodic);
        },
        CompetitionMode::Opcontrol => {
            if entered {
                hooks.push(RobotHook::OpcontrolInit);
            }
            hooks.push(RobotHook::OpcontrolPeriodic);
        },
    }
    hooks.push(RobotHook::Periodic);
    if simulated {
        hooks.push(RobotHook::SimPeriodic);
    }
    proof {
        assert(hooks@ =~= iteration_hooks(previous, current, simulated));
    }
    hooks
}

/// Whether two phases are the same.
pub fn same_mode(a: CompetitionMode, b: CompetitionMode) -> (same: bool)
    ensures
        same == (a == b),
{
    match (a, b) {
        (CompetitionMode::Disabled, CompetitionMode::Disabled) => true,
        (CompetitionMode::Autonomous, CompetitionMode::Autonomous) => true,
        (CompetitionMode::Opcontrol, CompetitionMode::Opcontrol) => true,
        _ => false,
    }
}

/// A robot together with what its control loop has to remember from one
/// iteration to the next.
pub struct RobotRunner<R> {
    robot: R,
    previous_mode: Option<CompetitionMode>,
    calls: Ghost<Seq<RobotHook>>,
}

impl<R: ScheduledRobot> RobotRunner<R> {
    /// The phase of the iteration before, if there was one.
    pub closed spec fn previous_mode(&self) -> Option<CompetitionMode> {
        self.previous_mode
    }

    /// Every hook called so far, oldest first.
    pub closed spec fn calls(&self) -> Seq<RobotHook> {
        self.calls@
    }

    /// A runner for `robot` that has not run an iteration yet.
    pub fn new(robot: R) -> (runner: Self)
        ensures
            runner.previous_mode() == None::<CompetitionMode>,
            runner.calls() == Seq::<RobotHook>::empty(),
    {
        RobotRunner { robot, previous_mode: None, calls: Ghost(Seq::empty()) }
    }

    /// The robot, as mathematics.
    pub closed spec fn inner(&self) -> R {
        self.robot
    }

    /// The robot.
    pub fn robot(&self) -> (robot: &R)
        ensures
            *robot == self.inner(),
    {
        &self.robot
    }

    /// Calls one hook of the robot.
    fn call(&mut self, hook: RobotHook) -> (outcome: Result<(), CommandError>)
        ensures
            final(self).previous_mode() == old(self).previous_mode(),
            final(self).calls() == old(self).calls().push(hook),
    {
        proof {
            self.calls@ = self.calls@.push(hook);
        }
        match hook {
            RobotHook::Periodic => self.robot.periodic(),
            RobotHook::SimPeriodic => self.robot.sim_periodic(),
            RobotHook::DisabledInit => self.robot.disabled_init(),
            RobotHook::DisabledPeriodic => self.robot.disabled_periodic(),
            RobotHook::AutonomousInit => self.robot.autonomous_init(),
            RobotHook::AutonomousPeriodic => self.robot.autonomous_periodic(),
            RobotHook::OpcontrolInit => self.robot.opcontrol_init(),
            RobotHook::OpcontrolPeriodic => self.robot.opcontrol_periodic(),
        }
    }

    /// Runs one iteration of the control loop in the phase `current`: calls
    /// the hooks that [`iteration_hooks`] lists, in order. The phase is
    /// remembered once its own hooks have succeeded. The first hook that
    /// fails ends the iteration, and its failure is returned.
    pub fn step(&mut self, current: CompetitionMode, simulated: bool) -> (outcome: Result<(), CommandError>)
        ensures
            exists|done: int| #[trigger]
                iteration_reached(
                    old(self).previous_mode(),
                    old(self).calls(),
                    current,
                    simulated,
                    done,
                    outcome is Ok,
                    final(self).previous_mode(),
                    final(self).calls(),
                ),
    {
        let hooks = plan_iteration(self.previous_mode, current, simulated);
        let phase: usize = match self.previous_mode {
            Some(mode) => if same_mode(mode, current) {
                1
            } else {
                2
            },
            None => 2,
        };
        let ghost before = self.previous_mode;
        proof {
            assert(phase == phase_hooks(before, current).len());
        }
        let mut i: usize = 0;
        while i < hooks.len()
            invariant
                i <= hooks@.len(),
                hooks@ == iteration_hooks(before, current, simulated),
                before == old(self).previous_mode(),
                phase == phase_hooks(before, current).len(),
                self.calls() == old(self).calls() + hooks@.take(i as int),
                self.previous_mode() == if i >= phase {
                    Some(current)
                } else {
                    before
                },
            decreases hooks@.len() - i,
        {
            let called = self.call(hooks[i]);
            proof {
                assert(self.calls() =~= old(self).calls() + hooks@.take(i + 1));
            }
            if called.is_err() {
                proof {
                    let went_well = called is Ok;
                    assert(iteration_reached(
                        before,
                        old(self).calls(),
                        current,
                        simulated,
                        i + 1,
                        went_well,
                        self.previous_mode(),
                        self.calls(),
                    ));
                }
                return called;
            }
            i += 1;
            if i == phase {
                self.previous_mode = Some(current);
            }
        }
        let outcome = Ok(());
        proof {
            let went_well = outcome is Ok;
            assert(iteration_reached(
                before,
                old(self).calls(),
                current,
                simulated,
                i as int,
                went_well,
                self.previous_mode(),
                self.calls(),
            ));
        }
        outcome
    }
}

/// Whether an iteration in the phase `current` that made `done` hook calls
/// leads from the remembered phase `previous` and the calls `calls` to
/// `previous_after` and `calls_after`: all the calls if it went well, and
/// otherwise those up to the one that failed. The phase is remembered if the
/// hooks of the phase are among the calls that succeeded.
pub open spec fn iteration_reached(
    previous: Option<CompetitionMode>,
    calls: Seq<RobotHook>,
    current: CompetitionMode,
    simulated: bool,
    done: int,
    went_well: bool,
    previous_after: Option<CompetitionMode>,
    calls_after: Seq<RobotHook>,
) -> bool {
    let hooks = iteration_hooks(previous, current, simulated);
    let succeeded = if went_well {
        done
    } else {
        done - 1
    };
    &&& 1 <= done <= hooks.len()
    &&& went_well ==> done == hooks.len()
    &&& calls_after == calls + hooks.take(done)
    &&& previous_after == if succeeded >= phase_hooks(previous, current).len() {
        Some(current)
    } else {
        previous
    }
}

} // verus!
