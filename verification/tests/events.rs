use std::cell::RefCell;
use std::rc::Rc;

use pros_command::command::{Command, InterruptionBehavior, SchedulerContext};
use pros_command::controller::Trigger;
use pros_command::event::{
    derive_value, edge_action, Action, BooleanEvent, Derivation, Edge, EdgeAction, EventLoop, Signal,
};
use pros_command::robot::CompetitionMode;
use pros_command::scheduler::{CommandScheduler, CommandSchedulerState};
use pros_command::subsystem::Subsystem;
use pros_command::{AnyCommand, AnySubsystem, CommandError};

type Log = Rc<RefCell<Vec<String>>>;

fn new_log() -> Log {
    Rc::new(RefCell::new(Vec::new()))
}

fn entries(log: &Log) -> Vec<String> {
    log.borrow().clone()
}

fn failure(message: &str) -> CommandError {
    CommandError { message: message.to_string() }
}

struct Part;

impl Subsystem<Recorder> for Part {
    fn periodic(&mut self, _this: AnySubsystem) {}

    fn sim_periodic(&mut self, _this: AnySubsystem) {}

    fn default_command(&self, _this: AnySubsystem) -> Option<Recorder> {
        None
    }
}

struct Recorder {
    name: &'static str,
    log: Log,
    fail_in_initialize: bool,
}

impl Recorder {
    fn new(name: &'static str, log: &Log) -> Self {
        Recorder { name, log: log.clone(), fail_in_initialize: false }
    }
}

impl Command for Recorder {
    fn get_requirements(&self) -> &[AnySubsystem] {
        &[]
    }

    fn initialize(&mut self, _scheduler: &mut SchedulerContext<'_>) -> Result<(), CommandError> {
        self.log.borrow_mut().push(format!("{}.initialize", self.name));
        if self.fail_in_initialize {
            Err(failure("initialize"))
        } else {
            Ok(())
        }
    }

    fn execute(&mut self, _scheduler: &mut SchedulerContext<'_>) -> Result<(), CommandError> {
        Ok(())
    }

    fn end(&mut self, interrupted: bool, _scheduler: &mut SchedulerContext<'_>) -> Result<(), CommandError> {
        self.log.borrow_mut().push(format!("{}.end({})", self.name, interrupted));
        Ok(())
    }

    fn is_finished(&self, _scheduler: &SchedulerContext<'_>) -> Result<bool, CommandError> {
        Ok(false)
    }

    fn runs_when_disabled(&self) -> bool {
        true
    }

    fn get_interruption_behavior(&self) -> InterruptionBehavior {
        InterruptionBehavior::CancelSelf
    }
}

/// A signal that plays back a list of samples and counts how often it was
/// read. Past the end of the list it fails.
struct Script {
    samples: Vec<bool>,
    reads: Rc<RefCell<usize>>,
}

impl Script {
    fn new(samples: &[bool]) -> (Self, Rc<RefCell<usize>>) {
        let reads = Rc::new(RefCell::new(0));
        (Script { samples: samples.to_vec(), reads: reads.clone() }, reads)
    }
}

impl Signal for Script {
    fn sample(&mut self) -> Result<bool, CommandError> {
        let at = *self.reads.borrow();
        *self.reads.borrow_mut() = at + 1;
        match self.samples.get(at) {
            Some(value) => Ok(*value),
            None => Err(failure("script is over")),
        }
    }
}

struct Note {
    text: &'static str,
    log: Log,
    fail: bool,
    schedule: Vec<AnyCommand>,
    cancel: Vec<AnyCommand>,
}

impl Note {
    fn new(text: &'static str, log: &Log) -> Self {
        Note { text, log: log.clone(), fail: false, schedule: Vec::new(), cancel: Vec::new() }
    }
}

impl Action for Note {
    fn run(&mut self, scheduler: &mut SchedulerContext<'_>) -> Result<(), CommandError> {
        self.log.borrow_mut().push(self.text.to_string());
        for command in &self.schedule {
            scheduler.schedule(*command);
        }
        for command in &self.cancel {
            scheduler.cancel(*command);
        }
        if self.fail {
            Err(failure(self.text))
        } else {
            Ok(())
        }
    }
}

type Loop = EventLoop<Script, Note>;
type State = CommandSchedulerState<Part, Recorder>;
type Scheduler = CommandScheduler<Part, Recorder, Script, Note>;

fn polls(event_loop: &mut Loop, state: &mut State, count: usize) {
    for _ in 0..count {
        assert_eq!(event_loop.poll(state), Ok(()));
    }
}

#[test]
fn edge_decisions_follow_the_table() {
    for scheduled in [false, true] {
        assert_eq!(edge_action(Edge::OnTrue, false, true, scheduled), EdgeAction::Schedule);
        assert_eq!(edge_action(Edge::OnTrue, true, true, scheduled), EdgeAction::Nothing);
        assert_eq!(edge_action(Edge::OnTrue, true, false, scheduled), EdgeAction::Nothing);
        assert_eq!(edge_action(Edge::OnTrue, false, false, scheduled), EdgeAction::Nothing);
        assert_eq!(edge_action(Edge::OnFalse, true, false, scheduled), EdgeAction::Schedule);
        assert_eq!(edge_action(Edge::OnFalse, false, true, scheduled), EdgeAction::Nothing);
        assert_eq!(edge_action(Edge::OnFalse, false, false, scheduled), EdgeAction::Nothing);
        assert_eq!(edge_action(Edge::WhileTrue, false, true, scheduled), EdgeAction::Schedule);
        assert_eq!(edge_action(Edge::WhileTrue, true, false, scheduled), EdgeAction::Cancel);
        assert_eq!(edge_action(Edge::WhileTrue, true, true, scheduled), EdgeAction::Nothing);
        assert_eq!(edge_action(Edge::WhileFalse, true, false, scheduled), EdgeAction::Schedule);
        assert_eq!(edge_action(Edge::WhileFalse, false, true, scheduled), EdgeAction::Cancel);
        assert_eq!(edge_action(Edge::WhileFalse, false, false, scheduled), EdgeAction::Nothing);
        assert_eq!(edge_action(Edge::ToggleOnTrue, true, false, scheduled), EdgeAction::Nothing);
        assert_eq!(edge_action(Edge::ToggleOnFalse, false, true, scheduled), EdgeAction::Nothing);
    }
    assert_eq!(edge_action(Edge::ToggleOnTrue, false, true, false), EdgeAction::Schedule);
    assert_eq!(edge_action(Edge::ToggleOnTrue, false, true, true), EdgeAction::Cancel);
    assert_eq!(edge_action(Edge::ToggleOnFalse, true, false, false), EdgeAction::Schedule);
    assert_eq!(edge_action(Edge::ToggleOnFalse, true, false, true), EdgeAction::Cancel);
}

#[test]
fn derived_values_follow_the_table() {
    assert!(derive_value(Derivation::Rising, false, true, false));
    assert!(!derive_value(Derivation::Rising, true, true, false));
    assert!(!derive_value(Derivation::Rising, false, false, true));
    assert!(derive_value(Derivation::Falling, true, false, false));
    assert!(!derive_value(Derivation::Falling, false, false, false));
    assert!(!derive_value(Derivation::Falling, true, true, false));
    assert!(derive_value(Derivation::Negate, true, false, true));
    assert!(!derive_value(Derivation::Negate, false, true, false));
    assert!(derive_value(Derivation::And, false, true, true));
    assert!(!derive_value(Derivation::And, true, true, false));
    assert!(derive_value(Derivation::Or, false, false, true));
    assert!(!derive_value(Derivation::Or, true, false, false));
}

#[test]
fn on_true_and_on_false_fire_once_at_their_edge() {
    let log = new_log();
    let mut state = State::new();
    let mut event_loop = Loop::new();
    let pressed = state.add_command(Recorder::new("pressed", &log));
    let released = state.add_command(Recorder::new("released", &log));
    // The first sample is taken when the trigger is bound; five polls follow.
    let (presses, _) = Script::new(&[false, false, false, true, true, false]);
    let (releases, _) = Script::new(&[false, false, false, true, true, false]);
    let on = Trigger::new_with_loop(&mut event_loop, presses);
    assert_eq!(on.on_true(&mut event_loop, pressed), Ok(on));
    let off = Trigger::new_with_loop(&mut event_loop, releases);
    assert_eq!(off.on_false(&mut event_loop, released), Ok(off));
    polls(&mut event_loop, &mut state, 2);
    assert_eq!(entries(&log), Vec::<String>::new());
    polls(&mut event_loop, &mut state, 1);
    assert_eq!(entries(&log), vec!["pressed.initialize"]);
    polls(&mut event_loop, &mut state, 1);
    assert_eq!(entries(&log), vec!["pressed.initialize"]);
    polls(&mut event_loop, &mut state, 1);
    assert_eq!(entries(&log), vec!["pressed.initialize", "released.initialize"]);
}

#[test]
fn while_true_schedules_once_and_cancels_once() {
    let log = new_log();
    let mut state = State::new();
    let mut event_loop = Loop::new();
    let held = state.add_command(Recorder::new("held", &log));
    let (script, _) = Script::new(&[false, false, false, true, true, false]);
    let trigger = Trigger::new_with_loop(&mut event_loop, script);
    assert_eq!(trigger.while_true(&mut event_loop, held), Ok(trigger));
    polls(&mut event_loop, &mut state, 3);
    assert!(state.is_scheduled(held));
    polls(&mut event_loop, &mut state, 1);
    assert!(state.is_scheduled(held));
    polls(&mut event_loop, &mut state, 1);
    assert!(!state.is_scheduled(held));
    assert_eq!(entries(&log), vec!["held.initialize", "held.end(true)"]);
}

#[test]
fn while_false_schedules_on_release_and_cancels_on_press() {
    let log = new_log();
    let mut state = State::new();
    let mut event_loop = Loop::new();
    let idle = state.add_command(Recorder::new("idle", &log));
    let (script, _) = Script::new(&[true, true, false, false, true]);
    let trigger = Trigger::new_with_loop(&mut event_loop, script);
    assert_eq!(trigger.while_false(&mut event_loop, idle), Ok(trigger));
    polls(&mut event_loop, &mut state, 1);
    assert!(!state.is_scheduled(idle));
    polls(&mut event_loop, &mut state, 2);
    assert!(state.is_scheduled(idle));
    polls(&mut event_loop, &mut state, 1);
    assert!(!state.is_scheduled(idle));
    assert_eq!(entries(&log), vec!["idle.initialize", "idle.end(true)"]);
}

#[test]
fn toggle_on_true_alternates_between_schedule_and_cancel() {
    let log = new_log();
    let mut state = State::new();
    let mut event_loop = Loop::new();
    let lamp = state.add_command(Recorder::new("lamp", &log));
    let (script, _) = Script::new(&[false, true, false, true, true, false, true]);
    let trigger = Trigger::new_with_loop(&mut event_loop, script);
    assert_eq!(trigger.toggle_on_true(&mut event_loop, lamp), Ok(trigger));
    polls(&mut event_loop, &mut state, 1);
    assert!(state.is_scheduled(lamp));
    polls(&mut event_loop, &mut state, 1);
    assert!(state.is_scheduled(lamp));
    polls(&mut event_loop, &mut state, 1);
    assert!(!state.is_scheduled(lamp));
    polls(&mut event_loop, &mut state, 2);
    assert!(!state.is_scheduled(lamp));
    polls(&mut event_loop, &mut state, 1);
    assert!(state.is_scheduled(lamp));
    assert_eq!(entries(&log), vec!["lamp.initialize", "lamp.end(true)", "lamp.initialize"]);
}

#[test]
fn toggle_on_false_alternates_on_releases() {
    let log = new_log();
    let mut state = State::new();
    let mut event_loop = Loop::new();
    let lamp = state.add_command(Recorder::new("lamp", &log));
    let (script, _) = Script::new(&[true, false, true, false]);
    let trigger = Trigger::new_with_loop(&mut event_loop, script);
    assert_eq!(trigger.toggle_on_false(&mut event_loop, lamp), Ok(trigger));
    polls(&mut event_loop, &mut state, 1);
    assert!(state.is_scheduled(lamp));
    polls(&mut event_loop, &mut state, 1);
    assert!(state.is_scheduled(lamp));
    polls(&mut event_loop, &mut state, 1);
    assert!(!state.is_scheduled(lamp));
}

#[test]
fn one_command_can_hang_on_two_bindings() {
    let log = new_log();
    let mut state = State::new();
    let mut event_loop = Loop::new();
    let shared = state.add_command(Recorder::new("shared", &log));
    let (first, _) = Script::new(&[false, true, true]);
    let (second, _) = Script::new(&[false, true, true]);
    let schedule = Trigger::new_with_loop(&mut event_loop, first);
    assert_eq!(schedule.on_true(&mut event_loop, shared), Ok(schedule));
    let toggle = Trigger::new_with_loop(&mut event_loop, second);
    assert_eq!(toggle.toggle_on_true(&mut event_loop, shared), Ok(toggle));
    polls(&mut event_loop, &mut state, 1);
    // The second binding already found the command scheduled by the first.
    assert_eq!(entries(&log), vec!["shared.initialize", "shared.end(true)"]);
    assert!(!state.is_scheduled(shared));
}

#[test]
fn binding_fails_when_its_condition_cannot_be_read() {
    let log = new_log();
    let mut state = State::new();
    let mut event_loop = Loop::new();
    let command = state.add_command(Recorder::new("command", &log));
    let (script, _) = Script::new(&[]);
    let trigger = Trigger::new_with_loop(&mut event_loop, script);
    assert_eq!(trigger.on_true(&mut event_loop, command), Err(failure("script is over")));
    assert_eq!(event_loop.poll(&mut state), Ok(()));
}

#[test]
fn trigger_conditions_are_read_anew_each_time() {
    let mut event_loop = Loop::new();
    let (script, reads) = Script::new(&[true, false, true]);
    let trigger = Trigger::new_with_loop(&mut event_loop, script);
    assert_eq!(trigger.is_active(&mut event_loop), Ok(true));
    assert_eq!(trigger.is_active(&mut event_loop), Ok(false));
    assert_eq!(trigger.is_active(&mut event_loop), Ok(true));
    assert_eq!(*reads.borrow(), 3);
    assert_eq!(trigger.is_active(&mut event_loop), Err(failure("script is over")));
}

#[test]
fn combined_triggers_read_their_parts_in_order() {
    let mut event_loop = Loop::new();
    let (left, left_reads) = Script::new(&[true, false, false, true, true]);
    let (right, right_reads) = Script::new(&[true, true, false]);
    let a = Trigger::new_with_loop(&mut event_loop, left);
    let b = Trigger::new_with_loop(&mut event_loop, right);
    let both = a.and(&mut event_loop, &b);
    let either = a.or(&mut event_loop, &b);
    let not_a = a.negate(&mut event_loop);
    // true && true
    assert_eq!(both.is_active(&mut event_loop), Ok(true));
    assert_eq!((*left_reads.borrow(), *right_reads.borrow()), (1, 1));
    // false && (not read)
    assert_eq!(both.is_active(&mut event_loop), Ok(false));
    assert_eq!((*left_reads.borrow(), *right_reads.borrow()), (2, 1));
    // false || true
    assert_eq!(either.is_active(&mut event_loop), Ok(true));
    assert_eq!((*left_reads.borrow(), *right_reads.borrow()), (3, 2));
    // true || (not read)
    assert_eq!(either.is_active(&mut event_loop), Ok(true));
    assert_eq!((*left_reads.borrow(), *right_reads.borrow()), (4, 2));
    // !true
    assert_eq!(not_a.is_active(&mut event_loop), Ok(false));
    assert_eq!((*left_reads.borrow(), *right_reads.borrow()), (5, 2));
}

#[test]
fn bindings_run_in_the_order_in_which_they_were_bound() {
    let log = new_log();
    let mut state = State::new();
    let mut event_loop = Loop::new();
    event_loop.bind(Note::new("first", &log));
    event_loop.bind(Note::new("second", &log));
    event_loop.bind(Note::new("third", &log));
    polls(&mut event_loop, &mut state, 2);
    assert_eq!(entries(&log), vec!["first", "second", "third", "first", "second", "third"]);
}

#[test]
fn plain_binding_schedules_within_the_same_tick() {
    let log = new_log();
    let mut scheduler = Scheduler::new();
    let command = scheduler.add_command(Recorder::new("c", &log));
    let mut binding = Note::new("bound", &log);
    binding.schedule = vec![command];
    scheduler.button_event_loop().bind(binding);
    assert_eq!(scheduler.run(CompetitionMode::Opcontrol, false), Ok(()));
    assert!(scheduler.is_scheduled(command));
    // The command was admitted during the poll, before the pass.
    assert_eq!(entries(&log), vec!["bound", "c.initialize"]);
    assert_eq!(scheduler.run(CompetitionMode::Opcontrol, false), Ok(()));
    assert_eq!(entries(&log), vec!["bound", "c.initialize", "bound"]);
}

#[test]
fn plain_binding_schedules_before_it_cancels() {
    let log = new_log();
    let mut state = State::new();
    let mut event_loop = Loop::new();
    let x = state.add_command(Recorder::new("x", &log));
    let y = state.add_command(Recorder::new("y", &log));
    assert_eq!(state.schedule(y), Ok(()));
    let mut binding = Note::new("bound", &log);
    binding.schedule = vec![x];
    binding.cancel = vec![y, x];
    event_loop.bind(binding);
    event_loop.bind(Note::new("after", &log));
    polls(&mut event_loop, &mut state, 1);
    assert!(!state.is_scheduled(x));
    assert!(!state.is_scheduled(y));
    assert_eq!(
        entries(&log),
        vec!["y.initialize", "bound", "x.initialize", "y.end(true)", "x.end(true)", "after"]
    );
}

#[test]
fn failing_binding_has_its_requests_dropped() {
    let log = new_log();
    let mut state = State::new();
    let mut event_loop = Loop::new();
    let x = state.add_command(Recorder::new("x", &log));
    let mut binding = Note::new("bound", &log);
    binding.schedule = vec![x];
    binding.fail = true;
    event_loop.bind(binding);
    assert_eq!(event_loop.poll(&mut state), Err(failure("bound")));
    assert!(!state.is_scheduled(x));
    assert_eq!(state.queued_to_schedule().to_vec(), Vec::<AnyCommand>::new());
}

#[test]
fn requests_of_an_action_are_applied_as_given() {
    let log = new_log();
    let mut state = State::new();
    let x = state.add_command(Recorder::new("x", &log));
    let y = state.add_command(Recorder::new("y", &log));
    assert_eq!(state.apply_requests(Err(failure("no")), vec![x], vec![]), Err(failure("no")));
    assert!(!state.is_scheduled(x));
    assert_eq!(state.apply_requests(Ok(()), vec![x, y], vec![x]), Ok(()));
    assert!(!state.is_scheduled(x));
    assert!(state.is_scheduled(y));
    assert_eq!(entries(&log), vec!["x.initialize", "y.initialize", "x.end(true)"]);
}

#[test]
fn first_failing_binding_stops_the_poll() {
    let log = new_log();
    let mut state = State::new();
    let mut event_loop = Loop::new();
    event_loop.bind(Note::new("first", &log));
    let mut bad = Note::new("second", &log);
    bad.fail = true;
    event_loop.bind(bad);
    event_loop.bind(Note::new("third", &log));
    assert_eq!(event_loop.poll(&mut state), Err(failure("second")));
    assert_eq!(entries(&log), vec!["first", "second"]);
}

#[test]
fn default_loop_has_no_bindings() {
    let log = new_log();
    let mut state = State::new();
    let mut event_loop = Loop::default();
    assert!(!event_loop.has_cell(0));
    assert!(!event_loop.has_condition(0));
    polls(&mut event_loop, &mut state, 1);
    event_loop.bind(Note::new("bound", &log));
    polls(&mut event_loop, &mut state, 1);
    assert_eq!(entries(&log), vec!["bound"]);
    let (script, _) = Script::new(&[true]);
    let event = BooleanEvent::new(&mut event_loop, script).unwrap();
    let trigger = event.as_trigger(&mut event_loop);
    assert!(event_loop.has_cell(event.cell));
    assert!(!event_loop.has_cell(event.cell + 1));
    assert!(event_loop.has_condition(trigger.condition));
    assert!(!event_loop.has_condition(trigger.condition + 1));
}

#[test]
fn clear_removes_every_binding() {
    let log = new_log();
    let mut state = State::new();
    let mut event_loop = Loop::new();
    event_loop.bind(Note::new("first", &log));
    let (script, reads) = Script::new(&[true, false]);
    let event = BooleanEvent::new(&mut event_loop, script).unwrap();
    event_loop.clear();
    polls(&mut event_loop, &mut state, 3);
    assert_eq!(entries(&log), Vec::<String>::new());
    // The cached value is no longer refreshed.
    assert_eq!(*reads.borrow(), 1);
    assert!(event.current_state(&event_loop));
    event_loop.bind(Note::new("later", &log));
    polls(&mut event_loop, &mut state, 1);
    assert_eq!(entries(&log), vec!["later"]);
}

#[test]
fn boolean_event_samples_once_per_poll() {
    let mut state = State::new();
    let mut event_loop = Loop::new();
    let (script, reads) = Script::new(&[false, true, true, false]);
    let event = BooleanEvent::new(&mut event_loop, script).unwrap();
    assert_eq!(*reads.borrow(), 1);
    assert!(!event.current_state(&event_loop));
    assert!(!event.current_state(&event_loop));
    assert_eq!(*reads.borrow(), 1);
    polls(&mut event_loop, &mut state, 1);
    assert!(event.current_state(&event_loop));
    assert_eq!(*reads.borrow(), 2);
    polls(&mut event_loop, &mut state, 2);
    assert!(!event.current_state(&event_loop));
    assert_eq!(*reads.borrow(), 4);
    assert_eq!(event_loop.poll(&mut state), Err(failure("script is over")));
}

#[test]
fn boolean_event_is_not_made_when_the_first_sample_fails() {
    let log = new_log();
    let mut state = State::new();
    let mut event_loop = Loop::new();
    let (script, _) = Script::new(&[]);
    assert_eq!(BooleanEvent::new(&mut event_loop, script), Err(failure("script is over")));
    event_loop.bind(Note::new("still works", &log));
    assert_eq!(event_loop.poll(&mut state), Ok(()));
    assert_eq!(entries(&log), vec!["still works"]);
}

#[test]
fn event_from_a_given_sample_caches_it_without_reading_the_signal() {
    let mut state = State::new();
    let mut event_loop = Loop::new();
    let (script, reads) = Script::new(&[false, true]);
    let event = BooleanEvent::from_sample(&mut event_loop, script, Ok(true)).unwrap();
    assert_eq!(event, BooleanEvent { cell: 0 });
    assert_eq!(*reads.borrow(), 0);
    assert!(event.current_state(&event_loop));
    polls(&mut event_loop, &mut state, 1);
    assert_eq!(*reads.borrow(), 1);
    assert!(!event.current_state(&event_loop));
    let (other, _) = Script::new(&[]);
    let second = BooleanEvent::from_sample(&mut event_loop, other, Ok(false)).unwrap();
    assert_eq!(second, BooleanEvent { cell: 1 });
    assert!(!second.current_state(&event_loop));
}

#[test]
fn noted_sample_is_passed_on() {
    let mut event_loop = Loop::new();
    assert_eq!(event_loop.note_sample(0, Ok(true)), Ok(true));
    assert_eq!(event_loop.note_sample(3, Ok(false)), Ok(false));
    assert_eq!(event_loop.note_sample(0, Err(failure("gone"))), Err(failure("gone")));
}

#[test]
fn conjunction_of_two_signals_follows_both() {
    let mut event_loop = Loop::new();
    let (x, _) = Script::new(&[true, true, false, false]);
    let (y, y_reads) = Script::new(&[true, false]);
    let a = Trigger::new_with_loop(&mut event_loop, x);
    let b = Trigger::new_with_loop(&mut event_loop, y);
    let both = a.and(&mut event_loop, &b);
    assert_eq!(both.is_active(&mut event_loop), Ok(true));
    assert_eq!(both.is_active(&mut event_loop), Ok(false));
    assert_eq!(*y_reads.borrow(), 2);
    assert_eq!(both.is_active(&mut event_loop), Ok(false));
    assert_eq!(both.is_active(&mut event_loop), Ok(false));
    assert_eq!(*y_reads.borrow(), 2);
}

#[test]
fn cached_sample_is_what_the_event_shows() {
    let mut event_loop = Loop::new();
    let (script, reads) = Script::new(&[false]);
    let event = BooleanEvent::new(&mut event_loop, script).unwrap();
    assert!(!event.current_state(&event_loop));
    assert_eq!(event_loop.cache(event.cell, Ok(true)), Ok(()));
    assert!(event.current_state(&event_loop));
    assert_eq!(event_loop.cache(event.cell, Err(failure("lost"))), Err(failure("lost")));
    assert!(event.current_state(&event_loop));
    assert_eq!(event_loop.cache(event.cell, Ok(false)), Ok(()));
    assert!(!event.current_state(&event_loop));
    assert_eq!(*reads.borrow(), 1);
}

#[test]
fn event_from_a_failed_sample_is_not_made() {
    let mut state = State::new();
    let mut event_loop = Loop::new();
    let (script, reads) = Script::new(&[true, true]);
    assert_eq!(
        BooleanEvent::from_sample(&mut event_loop, script, Err(failure("no sample"))),
        Err(failure("no sample"))
    );
    assert_eq!(*reads.borrow(), 0);
    assert!(!event_loop.has_cell(0));
    // Nothing was bound: a poll reads no signal.
    polls(&mut event_loop, &mut state, 2);
    assert_eq!(*reads.borrow(), 0);
}

#[test]
fn derived_events_share_the_sample_of_their_source() {
    let mut state = State::new();
    let mut event_loop = Loop::new();
    // Read directly, this signal would give another value each time.
    let (source_script, source_reads) = Script::new(&[false, true, false, true]);
    let (other_script, _) = Script::new(&[true, true, true, true]);
    let source = BooleanEvent::new(&mut event_loop, source_script).unwrap();
    let other = BooleanEvent::new(&mut event_loop, other_script).unwrap();
    let rising = source.rising(&mut event_loop);
    let both = source.and(&mut event_loop, &other);
    assert!(!rising.current_state(&event_loop));
    assert!(!both.current_state(&event_loop));
    polls(&mut event_loop, &mut state, 1);
    // One read of the source in this poll, and both derived events saw `true`.
    assert_eq!(*source_reads.borrow(), 2);
    assert!(source.current_state(&event_loop));
    assert!(rising.current_state(&event_loop));
    assert!(both.current_state(&event_loop));
    polls(&mut event_loop, &mut state, 1);
    assert_eq!(*source_reads.borrow(), 3);
    assert!(!source.current_state(&event_loop));
    assert!(!rising.current_state(&event_loop));
    assert!(!both.current_state(&event_loop));
    polls(&mut event_loop, &mut state, 1);
    assert_eq!(*source_reads.borrow(), 4);
    assert!(rising.current_state(&event_loop));
    assert!(both.current_state(&event_loop));
}

#[test]
fn falling_negate_and_or_follow_their_sources() {
    let mut state = State::new();
    let mut event_loop = Loop::new();
    let (a_script, _) = Script::new(&[true, false, false, true]);
    let (b_script, _) = Script::new(&[false, false, true, true]);
    let a = BooleanEvent::new(&mut event_loop, a_script).unwrap();
    let b = BooleanEvent::new(&mut event_loop, b_script).unwrap();
    let falling = a.falling(&mut event_loop);
    let not_a = a.negate(&mut event_loop);
    let either = a.or(&mut event_loop, &b);
    let both = a.and(&mut event_loop, &b);
    let states = |event_loop: &Loop| {
        vec![
            falling.current_state(event_loop),
            not_a.current_state(event_loop),
            either.current_state(event_loop),
            both.current_state(event_loop),
        ]
    };
    assert_eq!(states(&event_loop), vec![false, false, true, false]);
    polls(&mut event_loop, &mut state, 1);
    assert_eq!(states(&event_loop), vec![true, true, false, false]);
    polls(&mut event_loop, &mut state, 1);
    assert_eq!(states(&event_loop), vec![false, true, true, false]);
    polls(&mut event_loop, &mut state, 1);
    assert_eq!(states(&event_loop), vec![false, false, true, true]);
}

#[test]
fn derive_builds_the_event_that_is_asked_for() {
    let mut state = State::new();
    let mut event_loop = Loop::new();
    let (a_script, _) = Script::new(&[true, false]);
    let (b_script, _) = Script::new(&[true, true]);
    let a = BooleanEvent::new(&mut event_loop, a_script).unwrap();
    let b = BooleanEvent::new(&mut event_loop, b_script).unwrap();
    let both = a.derive(&mut event_loop, Derivation::And, &b);
    assert_eq!((a.cell, b.cell, both.cell), (0, 1, 2));
    assert!(both.current_state(&event_loop));
    polls(&mut event_loop, &mut state, 1);
    assert!(!both.current_state(&event_loop));
}

#[test]
fn if_high_runs_while_the_event_is_true() {
    let log = new_log();
    let mut state = State::new();
    let mut event_loop = Loop::new();
    let (script, _) = Script::new(&[false, true, true, false]);
    let event = BooleanEvent::new(&mut event_loop, script).unwrap();
    event.if_high(&mut event_loop, Note::new("high", &log));
    polls(&mut event_loop, &mut state, 3);
    assert_eq!(entries(&log), vec!["high", "high"]);
}

#[test]
fn event_as_trigger_reads_the_cached_value() {
    let log = new_log();
    let mut state = State::new();
    let mut event_loop = Loop::new();
    let command = state.add_command(Recorder::new("command", &log));
    let (script, reads) = Script::new(&[false, true, true]);
    let event = BooleanEvent::new(&mut event_loop, script).unwrap();
    let trigger = event.as_trigger(&mut event_loop);
    assert_eq!(trigger.is_active(&mut event_loop), Ok(false));
    assert_eq!(trigger.on_true(&mut event_loop, command), Ok(trigger));
    assert_eq!(*reads.borrow(), 1);
    polls(&mut event_loop, &mut state, 1);
    assert_eq!(trigger.is_active(&mut event_loop), Ok(true));
    assert_eq!(*reads.borrow(), 2);
    assert!(state.is_scheduled(command));
    polls(&mut event_loop, &mut state, 1);
    assert_eq!(entries(&log), vec!["command.initialize"]);
}

#[test]
fn tick_polls_the_buttons_before_it_runs_the_commands() {
    let log = new_log();
    let mut scheduler = Scheduler::new();
    let command = scheduler.add_command(Recorder::new("command", &log));
    let (script, _) = Script::new(&[false, true, true]);
    let trigger = Trigger::new(&mut scheduler, script);
    assert_eq!(trigger.on_true(scheduler.button_event_loop(), command), Ok(trigger));
    scheduler.button_event_loop().bind(Note::new("polled", &log));
    assert!(!scheduler.is_scheduled(command));
    assert_eq!(scheduler.run(CompetitionMode::Opcontrol, false), Ok(()));
    assert!(scheduler.is_scheduled(command));
    assert_eq!(entries(&log), vec!["command.initialize", "polled"]);
    assert_eq!(scheduler.run(CompetitionMode::Opcontrol, false), Ok(()));
    assert_eq!(entries(&log), vec!["command.initialize", "polled", "polled"]);
}

#[test]
fn failing_button_binding_stops_the_tick() {
    let log = new_log();
    let mut scheduler = Scheduler::new();
    let mut command = Recorder::new("command", &log);
    command.fail_in_initialize = true;
    let command = scheduler.add_command(command);
    let (script, _) = Script::new(&[false, true, true]);
    let trigger = Trigger::new(&mut scheduler, script);
    assert_eq!(trigger.on_true(scheduler.button_event_loop(), command), Ok(trigger));
    assert_eq!(scheduler.run(CompetitionMode::Opcontrol, false), Err(failure("initialize")));
    // The edge was seen: the next tick does not try again.
    assert_eq!(scheduler.run(CompetitionMode::Opcontrol, false), Ok(()));
    assert_eq!(entries(&log), vec!["command.initialize"]);
}

#[test]
fn scheduler_polls_a_loop_of_its_own_user() {
    let log = new_log();
    let mut scheduler = Scheduler::new();
    let mut event_loop = Loop::new();
    let command = scheduler.add_command(Recorder::new("command", &log));
    let (script, _) = Script::new(&[true, false]);
    let trigger = Trigger::new_with_loop(&mut event_loop, script);
    assert_eq!(trigger.on_false(&mut event_loop, command), Ok(trigger));
    assert_eq!(scheduler.poll(&mut event_loop), Ok(()));
    assert!(scheduler.is_scheduled(command));
    let _ = AnyCommand(0);
}
