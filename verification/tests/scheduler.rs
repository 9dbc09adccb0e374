use std::cell::RefCell;
use std::rc::Rc;

use pros_command::command::{Command, CommandRefExt, InterruptionBehavior, SchedulerContext};
use pros_command::event::{Action, Signal};
use pros_command::robot::CompetitionMode;
use pros_command::scheduler::{CommandScheduler, CommandSchedulerState};
use pros_command::subsystem::Subsystem;
use pros_command::{AnyCommand, AnySubsystem, CommandError, SetDefaultCommandError};

type Log = Rc<RefCell<Vec<String>>>;

fn new_log() -> Log {
    Rc::new(RefCell::new(Vec::new()))
}

fn entries(log: &Log) -> Vec<String> {
    log.borrow().clone()
}

fn failure(message: &str) -> CommandError {
    CommandError { message: message.to_string() }
}

/// What a recorder asks of the scheduler from inside a hook.
#[derive(Clone, Copy)]
enum Ask {
    Schedule(AnyCommand),
    Cancel(AnyCommand),
}

struct Recorder {
    name: &'static str,
    log: Log,
    requirements: Vec<AnySubsystem>,
    behavior: InterruptionBehavior,
    when_disabled: bool,
    finish_after: Option<u32>,
    executed: u32,
    fail_in: Option<&'static str>,
    ask_in_execute: Vec<Ask>,
    ask_in_end: Vec<Ask>,
    seen_scheduled: Rc<RefCell<Vec<bool>>>,
    watch: Option<AnyCommand>,
}

impl Recorder {
    fn new(name: &'static str, log: &Log, requirements: Vec<AnySubsystem>) -> Self {
        Recorder {
            name,
            log: log.clone(),
            requirements,
            behavior: InterruptionBehavior::CancelSelf,
            when_disabled: false,
            finish_after: None,
            executed: 0,
            fail_in: None,
            ask_in_execute: Vec::new(),
            ask_in_end: Vec::new(),
            seen_scheduled: Rc::new(RefCell::new(Vec::new())),
            watch: None,
        }
    }

    fn refusing(mut self) -> Self {
        self.behavior = InterruptionBehavior::CancelIncoming;
        self
    }

    fn finishing_after(mut self, ticks: u32) -> Self {
        self.finish_after = Some(ticks);
        self
    }

    fn failing_in(mut self, hook: &'static str) -> Self {
        self.fail_in = Some(hook);
        self
    }

    fn running_when_disabled(mut self) -> Self {
        self.when_disabled = true;
        self
    }

    fn outcome(&self, hook: &'static str) -> Result<(), CommandError> {
        if self.fail_in == Some(hook) {
            Err(failure(hook))
        } else {
            Ok(())
        }
    }
}

fn ask_all(asks: &[Ask], scheduler: &mut SchedulerContext<'_>) {
    for ask in asks {
        match ask {
            Ask::Schedule(command) => scheduler.schedule(*command),
            Ask::Cancel(command) => scheduler.cancel(*command),
        }
    }
}

impl Command for Recorder {
    fn get_requirements(&self) -> &[AnySubsystem] {
        &self.requirements
    }

    fn initialize(&mut self, scheduler: &mut SchedulerContext<'_>) -> Result<(), CommandError> {
        self.log.borrow_mut().push(format!("{}.initialize", self.name));
        if let Some(watched) = self.watch {
            self.seen_scheduled.borrow_mut().push(scheduler.is_scheduled(watched));
        }
        self.outcome("initialize")
    }

    fn execute(&mut self, scheduler: &mut SchedulerContext<'_>) -> Result<(), CommandError> {
        self.executed += 1;
        self.log.borrow_mut().push(format!("{}.execute", self.name));
        ask_all(&self.ask_in_execute, scheduler);
        if let Some(watched) = self.watch {
            self.seen_scheduled.borrow_mut().push(scheduler.is_scheduled(watched));
        }
        self.outcome("execute")
    }

    fn end(&mut self, interrupted: bool, scheduler: &mut SchedulerContext<'_>) -> Result<(), CommandError> {
        self.log.borrow_mut().push(format!("{}.end({})", self.name, interrupted));
        ask_all(&self.ask_in_end, scheduler);
        self.outcome("end")
    }

    fn is_finished(&self, _scheduler: &SchedulerContext<'_>) -> Result<bool, CommandError> {
        if self.fail_in == Some("is_finished") {
            return Err(failure("is_finished"));
        }
        Ok(match self.finish_after {
            Some(ticks) => self.executed >= ticks,
            None => false,
        })
    }

    fn runs_when_disabled(&self) -> bool {
        self.when_disabled
    }

    fn get_interruption_behavior(&self) -> InterruptionBehavior {
        self.behavior
    }
}

struct Part {
    name: &'static str,
    log: Log,
    default: RefCell<Option<Recorder>>,
}

impl Part {
    fn new(name: &'static str, log: &Log) -> Self {
        Part { name, log: log.clone(), default: RefCell::new(None) }
    }
}

impl Subsystem<Recorder> for Part {
    fn periodic(&mut self, this: AnySubsystem) {
        self.log.borrow_mut().push(format!("{}.periodic({})", self.name, this.0));
    }

    fn sim_periodic(&mut self, this: AnySubsystem) {
        self.log.borrow_mut().push(format!("{}.sim_periodic({})", self.name, this.0));
    }

    fn default_command(&self, _this: AnySubsystem) -> Option<Recorder> {
        self.default.borrow_mut().take()
    }
}

struct Never;

impl Signal for Never {
    fn sample(&mut self) -> Result<bool, CommandError> {
        Ok(false)
    }
}

struct Idle;

impl Action for Idle {
    fn run(&mut self, _scheduler: &mut SchedulerContext<'_>) -> Result<(), CommandError> {
        Ok(())
    }
}

type Scheduler = CommandScheduler<Part, Recorder, Never, Idle>;
type State = CommandSchedulerState<Part, Recorder>;

fn quiet() -> Log {
    new_log()
}

#[test]
fn newer_command_interrupts_the_owner_before_it_starts() {
    let log = new_log();
    let mut scheduler = Scheduler::new();
    let arm = scheduler.register(Part::new("arm", &quiet()));
    let c = scheduler.add_command(Recorder::new("c", &log, vec![arm]));
    let d = scheduler.add_command(Recorder::new("d", &log, vec![arm]));
    assert_eq!(scheduler.schedule(c), Ok(()));
    assert_eq!(scheduler.schedule(d), Ok(()));
    assert_eq!(entries(&log), vec!["c.initialize", "c.end(true)", "d.initialize"]);
    assert!(!scheduler.is_scheduled(c));
    assert!(scheduler.is_scheduled(d));
}

#[test]
fn owner_that_refuses_keeps_the_incoming_command_out() {
    let log = new_log();
    let mut scheduler = Scheduler::new();
    let arm = scheduler.register(Part::new("arm", &quiet()));
    let c = scheduler.add_command(Recorder::new("c", &log, vec![arm]).refusing());
    let d = scheduler.add_command(Recorder::new("d", &log, vec![arm]));
    assert_eq!(scheduler.schedule(c), Ok(()));
    assert_eq!(scheduler.schedule(d), Ok(()));
    assert_eq!(entries(&log), vec!["c.initialize"]);
    assert!(scheduler.is_scheduled(c));
    assert!(!scheduler.is_scheduled(d));
}

#[test]
fn one_refusing_owner_among_several_rejects_without_cancelling_any() {
    let log = new_log();
    let mut state = State::new();
    let arm = state.register(Part::new("arm", &quiet()));
    let claw = state.register(Part::new("claw", &quiet()));
    let a = state.add_command(Recorder::new("a", &log, vec![arm]));
    let b = state.add_command(Recorder::new("b", &log, vec![claw]).refusing());
    let both = state.add_command(Recorder::new("both", &log, vec![arm, claw]));
    assert_eq!(state.schedule(a), Ok(()));
    assert_eq!(state.schedule(b), Ok(()));
    assert_eq!(state.schedule(both), Ok(()));
    assert_eq!(entries(&log), vec!["a.initialize", "b.initialize"]);
    assert_eq!(state.requiring(arm), Some(a));
    assert_eq!(state.requiring(claw), Some(b));
    assert!(!state.is_scheduled(both));
}

#[test]
fn incoming_command_interrupts_every_owner_in_requirement_order() {
    let log = new_log();
    let mut state = State::new();
    let arm = state.register(Part::new("arm", &quiet()));
    let claw = state.register(Part::new("claw", &quiet()));
    let lift = state.register(Part::new("lift", &quiet()));
    let a = state.add_command(Recorder::new("a", &log, vec![arm, lift]));
    let b = state.add_command(Recorder::new("b", &log, vec![claw]));
    let all = state.add_command(Recorder::new("all", &log, vec![claw, arm, lift]));
    assert_eq!(state.schedule(a), Ok(()));
    assert_eq!(state.schedule(b), Ok(()));
    assert_eq!(state.schedule(all), Ok(()));
    assert_eq!(
        entries(&log),
        vec!["a.initialize", "b.initialize", "b.end(true)", "a.end(true)", "all.initialize"]
    );
    assert_eq!(state.requiring(arm), Some(all));
    assert_eq!(state.requiring(claw), Some(all));
    assert_eq!(state.requiring(lift), Some(all));
    assert!(!state.is_scheduled(a));
    assert!(!state.is_scheduled(b));
}

#[test]
fn scheduling_a_scheduled_command_again_does_nothing() {
    let log = new_log();
    let mut scheduler = Scheduler::new();
    let arm = scheduler.register(Part::new("arm", &quiet()));
    let c = scheduler.add_command(Recorder::new("c", &log, vec![arm]));
    assert_eq!(scheduler.schedule(c), Ok(()));
    assert_eq!(scheduler.schedule(c), Ok(()));
    assert_eq!(entries(&log), vec!["c.initialize"]);
    assert!(scheduler.is_scheduled(c));
}

#[test]
fn command_without_requirements_is_admitted_beside_others() {
    let log = new_log();
    let mut state = State::new();
    let arm = state.register(Part::new("arm", &quiet()));
    let a = state.add_command(Recorder::new("a", &log, vec![arm]));
    let free = state.add_command(Recorder::new("free", &log, vec![]));
    assert_eq!(state.schedule(a), Ok(()));
    assert_eq!(state.schedule(free), Ok(()));
    assert!(state.is_scheduled(a));
    assert!(state.is_scheduled(free));
    assert_eq!(entries(&log), vec!["a.initialize", "free.initialize"]);
}

#[test]
fn handle_without_a_command_is_ignored() {
    let mut state = State::new();
    let stranger = AnyCommand(7);
    assert_eq!(state.schedule(stranger), Ok(()));
    assert!(!state.is_scheduled(stranger));
    assert_eq!(state.cancel(stranger), Ok(()));
    assert_eq!(state.requiring(AnySubsystem(3)), None);
}

#[test]
fn finished_command_ends_once_and_frees_its_subsystem_within_the_tick() {
    let log = new_log();
    let mut scheduler = Scheduler::new();
    let arm = scheduler.register(Part::new("arm", &quiet()));
    let once = scheduler.add_command(Recorder::new("once", &log, vec![arm]).finishing_after(2));
    let mut waiting = Recorder::new("waiting", &log, vec![arm]);
    waiting.watch = Some(once);
    let seen = waiting.seen_scheduled.clone();
    let waiting = scheduler.add_command(waiting);
    let mut asker = Recorder::new("asker", &log, vec![]);
    asker.ask_in_execute = vec![Ask::Schedule(waiting)];
    asker.finish_after = Some(1);
    let asker = scheduler.add_command(asker);
    assert_eq!(scheduler.schedule(once), Ok(()));
    assert_eq!(scheduler.run(CompetitionMode::Opcontrol, false), Ok(()));
    assert!(scheduler.is_scheduled(once));
    assert_eq!(scheduler.schedule(asker), Ok(()));
    assert_eq!(scheduler.run(CompetitionMode::Opcontrol, false), Ok(()));
    let all = entries(&log);
    assert_eq!(all.iter().filter(|entry| entry.as_str() == "once.end(false)").count(), 1);
    assert_eq!(all.iter().filter(|entry| entry.as_str() == "once.end(true)").count(), 0);
    // The request queued during the pass was applied after `once` had ended:
    // `waiting` found the subsystem free and `once` gone.
    assert_eq!(all.last().map(String::as_str), Some("waiting.initialize"));
    assert_eq!(*seen.borrow(), vec![false]);
    assert!(!scheduler.is_scheduled(once));
    assert!(scheduler.is_scheduled(waiting));
    assert_eq!(scheduler.run(CompetitionMode::Opcontrol, false), Ok(()));
    assert_eq!(entries(&log).iter().filter(|entry| entry.as_str() == "once.end(false)").count(), 1);
}

#[test]
fn requests_from_execute_wait_until_the_pass_is_over() {
    let log = new_log();
    let mut scheduler = Scheduler::new();
    let arm = scheduler.register(Part::new("arm", &quiet()));
    let victim = scheduler.add_command(Recorder::new("victim", &log, vec![arm]));
    let newcomer = scheduler.add_command(Recorder::new("newcomer", &log, vec![]));
    let mut asker = Recorder::new("asker", &log, vec![]);
    asker.ask_in_execute = vec![Ask::Schedule(newcomer), Ask::Cancel(victim)];
    asker.watch = Some(newcomer);
    let seen_newcomer = asker.seen_scheduled.clone();
    let asker = scheduler.add_command(asker);
    let mut observer = Recorder::new("observer", &log, vec![]);
    observer.watch = Some(victim);
    let seen_victim = observer.seen_scheduled.clone();
    let observer = scheduler.add_command(observer);
    assert_eq!(scheduler.schedule(victim), Ok(()));
    assert_eq!(scheduler.schedule(asker), Ok(()));
    assert_eq!(scheduler.schedule(observer), Ok(()));
    let before = entries(&log).len();
    assert_eq!(scheduler.run(CompetitionMode::Opcontrol, false), Ok(()));
    let added: Vec<String> = entries(&log)[before..].to_vec();
    // Every command of the pass was executed before anything that was asked
    // for took effect.
    let mut executed: Vec<String> = added[..3].to_vec();
    executed.sort();
    assert_eq!(executed, vec!["asker.execute", "observer.execute", "victim.execute"]);
    assert_eq!(added[3..].to_vec(), vec!["newcomer.initialize", "victim.end(true)"]);
    // Each watcher looked once when it was initialized and once inside the
    // pass: there the newcomer was not scheduled yet and the victim still
    // was, whatever the order of the pass.
    assert_eq!(*seen_newcomer.borrow(), vec![false, false]);
    assert_eq!(*seen_victim.borrow(), vec![true, true]);
    assert!(scheduler.is_scheduled(newcomer));
    assert!(!scheduler.is_scheduled(victim));
}

#[test]
fn cancel_runs_end_and_frees_the_subsystems() {
    let log = new_log();
    let mut state = State::new();
    let arm = state.register(Part::new("arm", &quiet()));
    let claw = state.register(Part::new("claw", &quiet()));
    let c = state.add_command(Recorder::new("c", &log, vec![arm, claw]));
    assert_eq!(state.schedule(c), Ok(()));
    assert_eq!(state.requiring(arm), Some(c));
    assert_eq!(state.requiring(claw), Some(c));
    assert_eq!(state.cancel(c), Ok(()));
    assert_eq!(entries(&log), vec!["c.initialize", "c.end(true)"]);
    assert!(!state.is_scheduled(c));
    assert_eq!(state.requiring(arm), None);
    assert_eq!(state.requiring(claw), None);
}

#[test]
fn cancelling_a_command_that_is_not_scheduled_does_nothing() {
    let log = new_log();
    let mut scheduler = Scheduler::new();
    let arm = scheduler.register(Part::new("arm", &quiet()));
    let c = scheduler.add_command(Recorder::new("c", &log, vec![arm]));
    assert_eq!(scheduler.cancel(c), Ok(()));
    assert_eq!(entries(&log), Vec::<String>::new());
    assert!(!scheduler.is_scheduled(c));
}

#[test]
fn command_cannot_cancel_itself_from_its_own_end() {
    let log = new_log();
    let mut scheduler = Scheduler::new();
    let arm = scheduler.register(Part::new("arm", &quiet()));
    let slot = AnyCommand(0);
    let mut c = Recorder::new("c", &log, vec![arm]);
    c.ask_in_end = vec![Ask::Cancel(slot)];
    let c = scheduler.add_command(c);
    assert_eq!(c, slot);
    assert_eq!(scheduler.schedule(c), Ok(()));
    assert_eq!(scheduler.cancel(c), Ok(()));
    assert_eq!(scheduler.schedule(c), Ok(()));
    // Had the request from inside `end` been queued, this tick would cancel
    // the command again.
    assert_eq!(scheduler.run(CompetitionMode::Opcontrol, false), Ok(()));
    assert!(scheduler.is_scheduled(c));
    assert_eq!(
        entries(&log),
        vec!["c.initialize", "c.end(true)", "c.initialize", "c.execute"]
    );
}

#[test]
fn cancel_all_ends_every_scheduled_command() {
    let log = new_log();
    let mut scheduler = Scheduler::new();
    let arm = scheduler.register(Part::new("arm", &quiet()));
    let claw = scheduler.register(Part::new("claw", &quiet()));
    let a = scheduler.add_command(Recorder::new("a", &log, vec![arm]));
    let b = scheduler.add_command(Recorder::new("b", &log, vec![claw]));
    let idle = scheduler.add_command(Recorder::new("idle", &log, vec![]));
    assert_eq!(scheduler.schedule(a), Ok(()));
    assert_eq!(scheduler.schedule(b), Ok(()));
    assert_eq!(scheduler.cancel_all(), Ok(()));
    let mut ends: Vec<String> = entries(&log)[2..].to_vec();
    ends.sort();
    assert_eq!(ends, vec!["a.end(true)", "b.end(true)"]);
    assert!(!scheduler.is_scheduled(a));
    assert!(!scheduler.is_scheduled(b));
    assert!(!scheduler.is_scheduled(idle));
    assert_eq!(scheduler.cancel_all(), Ok(()));
    assert_eq!(entries(&log).len(), 4);
}

#[test]
fn default_command_must_require_its_subsystem() {
    let log = new_log();
    let mut scheduler = Scheduler::new();
    let arm = scheduler.register(Part::new("arm", &quiet()));
    let claw = scheduler.register(Part::new("claw", &quiet()));
    let good = scheduler.add_command(Recorder::new("good", &log, vec![arm]));
    let wrong = scheduler.add_command(Recorder::new("wrong", &log, vec![claw]));
    assert_eq!(scheduler.set_default_command(&arm, good), Ok(()));
    assert_eq!(
        scheduler.set_default_command(&arm, wrong),
        Err(SetDefaultCommandError::MustRequireSubsystem)
    );
    // The earlier default is still in place.
    assert_eq!(scheduler.remove_default_command(&arm), Some(good));
    assert_eq!(scheduler.remove_default_command(&arm), None);
}

#[test]
fn default_command_needs_a_registered_subsystem() {
    let log = new_log();
    let mut scheduler = Scheduler::new();
    let ghost = AnySubsystem(5);
    let c = scheduler.add_command(Recorder::new("c", &log, vec![ghost]));
    assert_eq!(scheduler.set_default_command(&ghost, c), Err(SetDefaultCommandError::NotRegistered));
    assert_eq!(scheduler.remove_default_command(&ghost), None);
    // The requirement is checked first.
    let other = scheduler.add_command(Recorder::new("other", &log, vec![]));
    assert_eq!(
        scheduler.set_default_command(&ghost, other),
        Err(SetDefaultCommandError::MustRequireSubsystem)
    );
    assert_eq!(
        scheduler.set_default_command(&ghost, AnyCommand(99)),
        Err(SetDefaultCommandError::MustRequireSubsystem)
    );
}

#[test]
fn error_messages_name_the_cause() {
    assert_eq!(
        SetDefaultCommandError::MustRequireSubsystem.message(),
        "Default commands must require their subsystem"
    );
    assert_eq!(
        SetDefaultCommandError::NotRegistered.message(),
        "Cannot set the default command on a subsystem that is not registered."
    );
}

#[test]
fn replacing_a_default_command_returns_the_new_one_on_removal() {
    let log = new_log();
    let mut scheduler = Scheduler::new();
    let arm = scheduler.register(Part::new("arm", &quiet()));
    let first = scheduler.add_command(Recorder::new("first", &log, vec![arm]));
    let second = scheduler.add_command(Recorder::new("second", &log, vec![arm]));
    assert_eq!(scheduler.set_default_command(&arm, first), Ok(()));
    assert_eq!(scheduler.set_default_command(&arm, second), Ok(()));
    assert_eq!(scheduler.remove_default_command(&arm), Some(second));
}

#[test]
fn default_command_returns_in_the_tick_after_its_subsystem_is_freed() {
    let log = new_log();
    let mut scheduler = Scheduler::new();
    let arm = scheduler.register(Part::new("arm", &quiet()));
    let default = scheduler.add_command(Recorder::new("default", &log, vec![arm]));
    let job = scheduler.add_command(Recorder::new("job", &log, vec![arm]).finishing_after(1));
    assert_eq!(scheduler.set_default_command(&arm, default), Ok(()));
    assert_eq!(scheduler.run(CompetitionMode::Opcontrol, false), Ok(()));
    assert!(scheduler.is_scheduled(default));
    assert_eq!(scheduler.schedule(job), Ok(()));
    assert!(!scheduler.is_scheduled(default));
    assert_eq!(scheduler.run(CompetitionMode::Opcontrol, false), Ok(()));
    assert!(!scheduler.is_scheduled(job));
    assert!(scheduler.is_scheduled(default));
    assert_eq!(
        entries(&log),
        vec![
            "default.initialize",
            "default.end(true)",
            "job.initialize",
            "job.execute",
            "job.end(false)",
            "default.initialize",
        ]
    );
}

#[test]
fn subsystem_without_default_command_stays_free() {
    let log = new_log();
    let mut state = State::new();
    let arm = state.register(Part::new("arm", &quiet()));
    let job = state.add_command(Recorder::new("job", &log, vec![arm]).finishing_after(1));
    assert_eq!(state.schedule(job), Ok(()));
    assert_eq!(state.run_commands(false), Ok(()));
    assert_eq!(state.requiring(arm), None);
    assert_eq!(state.run_commands(false), Ok(()));
    assert_eq!(state.requiring(arm), None);
}

#[test]
fn registration_installs_the_default_command_that_the_subsystem_offers() {
    let log = new_log();
    let mut state = State::new();
    let offered = Part::new("arm", &quiet());
    *offered.default.borrow_mut() = Some(Recorder::new("default", &log, vec![AnySubsystem(0)]));
    let arm = state.register(offered);
    assert_eq!(arm, AnySubsystem(0));
    assert_eq!(state.run_commands(false), Ok(()));
    assert_eq!(state.requiring(arm), Some(AnyCommand(0)));
    assert_eq!(entries(&log), vec!["default.initialize"]);
    assert_eq!(state.remove_default_command(&arm), Some(AnyCommand(0)));
}

#[test]
fn registration_drops_a_default_command_that_does_not_require_the_subsystem() {
    let log = new_log();
    let mut state = State::new();
    let offered = Part::new("arm", &quiet());
    *offered.default.borrow_mut() = Some(Recorder::new("default", &log, vec![]));
    let arm = state.register(offered);
    assert_eq!(state.remove_default_command(&arm), None);
    assert_eq!(state.run_commands(false), Ok(()));
    assert_eq!(state.requiring(arm), None);
}

#[test]
fn register_with_default_takes_the_given_command() {
    let log = new_log();
    let mut state = State::new();
    let first = state.register_with_default(Part::new("arm", &quiet()), None);
    let second = state.register_with_default(
        Part::new("claw", &quiet()),
        Some(Recorder::new("hold", &log, vec![AnySubsystem(1)])),
    );
    assert_eq!(first, AnySubsystem(0));
    assert_eq!(second, AnySubsystem(1));
    assert_eq!(state.remove_default_command(&first), None);
    assert_eq!(state.remove_default_command(&second), Some(AnyCommand(0)));
}

#[test]
fn tick_calls_the_subsystems_in_registration_order() {
    let log = new_log();
    let mut scheduler = Scheduler::new();
    scheduler.register(Part::new("arm", &log));
    scheduler.register(Part::new("claw", &log));
    assert_eq!(scheduler.run(CompetitionMode::Opcontrol, false), Ok(()));
    assert_eq!(entries(&log), vec!["arm.periodic(0)", "claw.periodic(1)"]);
    assert_eq!(scheduler.run(CompetitionMode::Opcontrol, true), Ok(()));
    assert_eq!(
        entries(&log)[2..].to_vec(),
        vec!["arm.periodic(0)", "arm.sim_periodic(0)", "claw.periodic(1)", "claw.sim_periodic(1)"]
    );
}

#[test]
fn disabled_robot_cancels_after_one_more_execute() {
    let log = new_log();
    let mut scheduler = Scheduler::new();
    let arm = scheduler.register(Part::new("arm", &quiet()));
    let plain = scheduler.add_command(Recorder::new("plain", &log, vec![arm]));
    let hardy = scheduler.add_command(Recorder::new("hardy", &log, vec![]).running_when_disabled());
    assert_eq!(scheduler.schedule(plain), Ok(()));
    assert_eq!(scheduler.schedule(hardy), Ok(()));
    let before = entries(&log).len();
    assert_eq!(scheduler.run(CompetitionMode::Disabled, false), Ok(()));
    let added: Vec<String> = entries(&log)[before..].to_vec();
    let mut executed: Vec<String> = added[..2].to_vec();
    executed.sort();
    assert_eq!(executed, vec!["hardy.execute", "plain.execute"]);
    assert_eq!(added[2..].to_vec(), vec!["plain.end(true)"]);
    assert!(!scheduler.is_scheduled(plain));
    assert!(scheduler.is_scheduled(hardy));
    assert_eq!(scheduler.run(CompetitionMode::Autonomous, false), Ok(()));
    assert!(scheduler.is_scheduled(hardy));
}

#[test]
fn failing_execute_stops_the_tick_and_leaves_the_maps_sound() {
    let log = new_log();
    let mut state = State::new();
    let arm = state.register(Part::new("arm", &quiet()));
    let claw = state.register(Part::new("claw", &quiet()));
    let bad = state.add_command(Recorder::new("bad", &log, vec![arm]).failing_in("execute"));
    let next = state.add_command(Recorder::new("next", &log, vec![claw]));
    assert_eq!(state.schedule(bad), Ok(()));
    assert_eq!(state.run_commands(false), Err(failure("execute")));
    assert!(state.is_scheduled(bad));
    assert_eq!(state.requiring(arm), Some(bad));
    // The pass is over: a request made now is applied at once.
    assert!(!state.in_run_loop());
    assert_eq!(state.schedule(next), Ok(()));
    assert!(state.is_scheduled(next));
    assert_eq!(state.requiring(claw), Some(next));
    assert_eq!(state.queued_to_schedule().to_vec(), Vec::<AnyCommand>::new());
    assert_eq!(state.cancel(bad), Ok(()));
    assert!(!state.is_scheduled(bad));
    assert_eq!(
        entries(&log),
        vec!["bad.initialize", "bad.execute", "next.initialize", "bad.end(true)"]
    );
}

#[test]
fn failed_tick_of_the_scheduler_leaves_no_pass_under_way() {
    let log = new_log();
    let mut scheduler = Scheduler::new();
    let bad = scheduler.add_command(Recorder::new("bad", &log, vec![]).failing_in("execute"));
    let next = scheduler.add_command(Recorder::new("next", &log, vec![]));
    assert_eq!(scheduler.schedule(bad), Ok(()));
    assert_eq!(scheduler.run(CompetitionMode::Opcontrol, false), Err(failure("execute")));
    assert_eq!(scheduler.schedule(next), Ok(()));
    assert!(scheduler.is_scheduled(next));
    assert_eq!(entries(&log), vec!["bad.initialize", "bad.execute", "next.initialize"]);
}

#[test]
fn queued_requests_survive_a_failed_tick() {
    let log = new_log();
    let mut state = State::new();
    let arm = state.register(Part::new("arm", &quiet()));
    let next = state.add_command(Recorder::new("next", &log, vec![arm]));
    let mut flaky = Recorder::new("flaky", &log, vec![]);
    flaky.fail_in = Some("is_finished");
    flaky.ask_in_execute = vec![Ask::Schedule(next)];
    let flaky = state.add_command(flaky);
    assert_eq!(state.schedule(flaky), Ok(()));
    assert!(!state.in_run_loop());
    assert_eq!(state.run_commands(false), Err(failure("is_finished")));
    assert!(!state.in_run_loop());
    // What the hook asked for before the failure waits in the queue.
    assert!(!state.is_scheduled(next));
    assert_eq!(state.queued_to_schedule().to_vec(), vec![next]);
    assert_eq!(state.queued_to_cancel().to_vec(), Vec::<AnyCommand>::new());
    assert_eq!(state.run_commands(false), Err(failure("is_finished")));
    assert_eq!(state.queued_to_schedule().to_vec(), vec![next, next]);
    assert_eq!(state.apply_deferred(), Ok(()));
    assert!(state.is_scheduled(next));
    assert_eq!(state.queued_to_schedule().to_vec(), Vec::<AnyCommand>::new());
    assert_eq!(
        entries(&log),
        vec!["flaky.initialize", "flaky.execute", "flaky.execute", "next.initialize"]
    );
}

#[test]
fn finished_end_retires_the_command_and_queues_what_was_asked() {
    let log = new_log();
    let mut state = State::new();
    let arm = state.register(Part::new("arm", &quiet()));
    let c = state.add_command(Recorder::new("c", &log, vec![arm]));
    let x = state.add_command(Recorder::new("x", &log, vec![]));
    let y = state.add_command(Recorder::new("y", &log, vec![]));
    assert_eq!(state.schedule(c), Ok(()));
    assert_eq!(state.finish_end(c, true, Ok(()), vec![x, y], vec![y]), Ok(()));
    assert!(!state.is_scheduled(c));
    assert_eq!(state.requiring(arm), None);
    assert_eq!(state.queued_to_schedule().to_vec(), vec![x, y]);
    assert_eq!(state.queued_to_cancel().to_vec(), vec![y]);
    // Nothing was called: the hook is the caller's business.
    assert_eq!(entries(&log), vec!["c.initialize"]);
}

#[test]
fn failed_end_keeps_the_command_and_still_queues_what_was_asked() {
    let log = new_log();
    let mut state = State::new();
    let arm = state.register(Part::new("arm", &quiet()));
    let c = state.add_command(Recorder::new("c", &log, vec![arm]));
    let x = state.add_command(Recorder::new("x", &log, vec![]));
    assert_eq!(state.schedule(c), Ok(()));
    assert_eq!(
        state.finish_end(c, false, Err(failure("stuck")), vec![x], vec![c]),
        Err(failure("stuck"))
    );
    assert!(state.is_scheduled(c));
    assert_eq!(state.requiring(arm), Some(c));
    assert_eq!(state.queued_to_schedule().to_vec(), vec![x]);
    assert_eq!(state.queued_to_cancel().to_vec(), vec![c]);
}

#[test]
fn finished_execute_and_initialize_queue_what_was_asked_and_pass_the_outcome_on() {
    let log = new_log();
    let mut state = State::new();
    let c = state.add_command(Recorder::new("c", &log, vec![]));
    let x = state.add_command(Recorder::new("x", &log, vec![]));
    assert_eq!(state.schedule(c), Ok(()));
    assert_eq!(state.finish_execute(c, Ok(()), vec![x], vec![]), Ok(()));
    assert_eq!(state.finish_execute(c, Err(failure("e")), vec![], vec![x]), Err(failure("e")));
    assert_eq!(state.finish_initialize(c, Err(failure("i")), vec![c], vec![]), Err(failure("i")));
    assert_eq!(state.finish_initialize(c, Ok(()), vec![], vec![c]), Ok(()));
    assert!(state.is_scheduled(c));
    assert!(!state.is_scheduled(x));
    assert_eq!(state.queued_to_schedule().to_vec(), vec![x, c]);
    assert_eq!(state.queued_to_cancel().to_vec(), vec![x, c]);
    assert_eq!(state.apply_deferred(), Ok(()));
    assert!(!state.is_scheduled(x));
    assert!(!state.is_scheduled(c));
    assert_eq!(entries(&log), vec!["c.initialize", "x.initialize", "x.end(true)", "c.end(true)"]);
}

#[test]
fn failing_initialize_leaves_the_command_admitted() {
    let log = new_log();
    let mut state = State::new();
    let arm = state.register(Part::new("arm", &quiet()));
    let bad = state.add_command(Recorder::new("bad", &log, vec![arm]).failing_in("initialize"));
    assert_eq!(state.schedule(bad), Err(failure("initialize")));
    assert!(state.is_scheduled(bad));
    assert_eq!(state.requiring(arm), Some(bad));
}

#[test]
fn failing_end_keeps_the_command_scheduled_and_cancellable() {
    let log = new_log();
    let mut state = State::new();
    let arm = state.register(Part::new("arm", &quiet()));
    let stubborn = state.add_command(Recorder::new("stubborn", &log, vec![arm]).failing_in("end"));
    let next = state.add_command(Recorder::new("next", &log, vec![arm]));
    assert_eq!(state.schedule(stubborn), Ok(()));
    assert_eq!(state.cancel(stubborn), Err(failure("end")));
    assert!(state.is_scheduled(stubborn));
    assert_eq!(state.requiring(arm), Some(stubborn));
    // The incoming command is not admitted over an owner that could not be
    // ended.
    assert_eq!(state.schedule(next), Err(failure("end")));
    assert!(!state.is_scheduled(next));
    assert_eq!(state.requiring(arm), Some(stubborn));
    assert_eq!(
        entries(&log),
        vec!["stubborn.initialize", "stubborn.end(true)", "stubborn.end(true)"]
    );
}

#[test]
fn failing_end_of_a_finished_command_stops_the_tick() {
    let log = new_log();
    let mut state = State::new();
    let arm = state.register(Part::new("arm", &quiet()));
    let bad = state.add_command(
        Recorder::new("bad", &log, vec![arm]).finishing_after(1).failing_in("end"),
    );
    assert_eq!(state.schedule(bad), Ok(()));
    assert_eq!(state.run_commands(false), Err(failure("end")));
    assert!(state.is_scheduled(bad));
    assert_eq!(state.requiring(arm), Some(bad));
    assert_eq!(entries(&log), vec!["bad.initialize", "bad.execute", "bad.end(false)"]);
}

#[test]
fn initialize_already_finds_the_command_scheduled() {
    let log = new_log();
    let mut scheduler = Scheduler::new();
    let slot = AnyCommand(0);
    let mut c = Recorder::new("c", &log, vec![]);
    c.watch = Some(slot);
    let seen = c.seen_scheduled.clone();
    let c = scheduler.add_command(c);
    assert_eq!(c, slot);
    assert_eq!(scheduler.schedule(c), Ok(()));
    assert_eq!(*seen.borrow(), vec![true]);
}

#[test]
fn requests_from_end_are_applied_in_the_next_tick() {
    let log = new_log();
    let mut scheduler = Scheduler::new();
    let arm = scheduler.register(Part::new("arm", &quiet()));
    let follow = scheduler.add_command(Recorder::new("follow", &log, vec![arm]));
    let mut first = Recorder::new("first", &log, vec![arm]);
    first.ask_in_end = vec![Ask::Schedule(follow)];
    let first = scheduler.add_command(first);
    assert_eq!(scheduler.schedule(first), Ok(()));
    assert_eq!(scheduler.cancel(first), Ok(()));
    assert!(!scheduler.is_scheduled(follow));
    assert_eq!(scheduler.run(CompetitionMode::Opcontrol, false), Ok(()));
    assert!(scheduler.is_scheduled(follow));
    assert_eq!(entries(&log), vec!["first.initialize", "first.end(true)", "follow.initialize"]);
}

#[test]
fn queues_are_empty_after_a_tick_that_applied_them() {
    let log = new_log();
    let mut state = State::new();
    let arm = state.register(Part::new("arm", &quiet()));
    let newcomer = state.add_command(Recorder::new("newcomer", &log, vec![arm]));
    let mut asker = Recorder::new("asker", &log, vec![]);
    asker.ask_in_execute = vec![Ask::Schedule(newcomer), Ask::Cancel(newcomer)];
    let asker = state.add_command(asker);
    assert_eq!(state.schedule(asker), Ok(()));
    assert_eq!(state.execute_scheduled(false), Ok(()));
    // The pass has queued what the hook asked for and has applied nothing.
    assert_eq!(state.queued_to_schedule().to_vec(), vec![newcomer]);
    assert_eq!(state.queued_to_cancel().to_vec(), vec![newcomer]);
    assert!(!state.is_scheduled(newcomer));
    assert!(!state.in_run_loop());
    assert_eq!(state.apply_deferred(), Ok(()));
    assert_eq!(state.queued_to_schedule().to_vec(), Vec::<AnyCommand>::new());
    assert_eq!(state.queued_to_cancel().to_vec(), Vec::<AnyCommand>::new());
    // Scheduled first, cancelled second.
    assert!(!state.is_scheduled(newcomer));
    assert_eq!(
        entries(&log),
        vec!["asker.initialize", "asker.execute", "newcomer.initialize", "newcomer.end(true)"]
    );
    assert_eq!(state.schedule_defaults(), Ok(()));
    assert_eq!(state.requiring(arm), None);
}

#[test]
fn handle_shorthands_act_on_the_scheduler() {
    let log = new_log();
    let mut state = State::new();
    let arm = state.register(Part::new("arm", &quiet()));
    let c = state.add_command(Recorder::new("c", &log, vec![arm]));
    assert!(!c.is_scheduled(&state));
    assert_eq!(c.schedule(&mut state), Ok(()));
    assert!(c.is_scheduled(&state));
    assert_eq!(c.cancel(&mut state), Ok(()));
    assert!(!c.is_scheduled(&state));
    assert_eq!(entries(&log), vec!["c.initialize", "c.end(true)"]);
}

#[test]
fn handles_count_up_from_zero() {
    let log = new_log();
    let mut scheduler = Scheduler::new();
    assert_eq!(scheduler.register(Part::new("a", &quiet())), AnySubsystem(0));
    assert_eq!(scheduler.register(Part::new("b", &quiet())), AnySubsystem(1));
    assert_eq!(scheduler.add_command(Recorder::new("x", &log, vec![])), AnyCommand(0));
    assert_eq!(scheduler.add_command(Recorder::new("y", &log, vec![])), AnyCommand(1));
    assert_ne!(AnyCommand(0), AnyCommand(1));
    assert_eq!(InterruptionBehavior::default(), InterruptionBehavior::CancelSelf);
}
