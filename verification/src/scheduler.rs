//! The scheduler: who is scheduled, who owns which subsystem, and what was
//! asked for while a tick was under way.
use vstd::prelude::*;
use crate::collections::{
    IdMap, IdSet, id_map_contents, id_map_get, id_map_insert, id_map_new, id_map_remove,
    id_set_contains, id_set_contents, id_set_insert, id_set_new, id_set_remove, id_set_to_vec,
};
use crate::command::{Command, CommandInfo, InterruptionBehavior, SchedulerContext};
use crate::event::{Action, Binding, EventLoop, EventLoopView, PollState, Signal};
use crate::lemmas::{
    lemma_admitted_wf, lemma_conflicting_owners, lemma_drained_first, lemma_drained_second,
    lemma_cancel_heard, lemma_heard_asked, lemma_heard_keeps,
    lemma_heard_nothing, lemma_heard_transitive, lemma_interrupted_all, lemma_prefix_keeps,
    lemma_prefix_transitive, lemma_ran, lemma_retired_wf, lemma_schedule_heard,
    lemma_settled_agree, lemma_wf_frame, lemma_wf_more_subsystems,
};
use crate::model::{
    Admission, Cancellation, HookCall, SchedulerView, Shown, TickRecord, periodic_calls,
};
use crate::robot::CompetitionMode;
use crate::subsystem::Subsystem;
use crate::{AnyCommand, AnySubsystem, CommandError, SetDefaultCommandError};

verus! {

/// Whether `slot` occurs in `slots`.
fn slot_listed(slots: &Vec<usize>, slot: usize) -> (listed: bool)
    ensures
        listed == slots@.contains(slot),
{
    let mut i: usize = 0;
    while i < slots.len()
        invariant
            i <= slots@.len(),
            forall|k: int| 0 <= k < i ==> slots@[k] != slot,
        decreases slots@.len() - i,
    {
        if slots[i] == slot {
            return true;
        }
        i += 1;
    }
    false
}

/// Whether `subsystem` occurs in `requirements`.
fn subsystem_listed(requirements: &Vec<AnySubsystem>, subsystem: AnySubsystem) -> (listed: bool)
    ensures
        listed == requirements@.contains(subsystem),
{
    let mut i: usize = 0;
    while i < requirements.len()
        invariant
            i <= requirements@.len(),
            forall|k: int| 0 <= k < i ==> requirements@[k] != subsystem,
        decreases requirements@.len() - i,
    {
        if requirements[i].0 == subsystem.0 {
            return true;
        }
        i += 1;
    }
    false
}

/// The state of a scheduler: the arenas of subsystems and commands, and the
/// bookkeeping over their slots.
pub struct CommandSchedulerState<S, C> {
    subsystems: Vec<S>,
    commands: Vec<C>,
    defaults: IdMap,
    in_run_loop: bool,
    to_schedule: Vec<AnyCommand>,
    to_cancel: Vec<AnyCommand>,
    scheduled_commands: IdSet,
    requirements: IdMap,
    ending_commands: IdSet,
    trace: Ghost<Seq<HookCall>>,
    schedule_log: Ghost<Seq<AnyCommand>>,
    cancel_log: Ghost<Seq<AnyCommand>>,
    shown: Ghost<Seq<Shown>>,
}

impl<S: Subsystem<C>, C: Command> CommandSchedulerState<S, C> {
    /// The scheduler as mathematics.
    pub closed spec fn view(&self) -> SchedulerView {
        SchedulerView {
            subsystems: self.subsystems@.len(),
            commands: Seq::new(self.commands@.len(), |i: int| self.commands@[i].info()),
            defaults: id_map_contents(self.defaults),
            scheduled: id_set_contents(self.scheduled_commands),
            owners: id_map_contents(self.requirements),
            ending: id_set_contents(self.ending_commands),
            in_run_loop: self.in_run_loop,
            to_schedule: self.to_schedule@,
            to_cancel: self.to_cancel@,
            schedule_log: self.schedule_log@,
            cancel_log: self.cancel_log@,
            shown: self.shown@,
            trace: self.trace@,
        }
    }

    /// The command behind a handle.
    pub closed spec fn command(&self, command: AnyCommand) -> C
        recommends
            self@.knows(command),
    {
        self.commands@[command.0 as int]
    }

    /// A scheduler with no subsystems, no commands and nothing scheduled.
    pub fn new() -> (state: Self)
        ensures
            state@.wf(),
            state@.subsystems == 0,
            state@.commands == Seq::<CommandInfo>::empty(),
            state@.defaults == Map::<usize, usize>::empty(),
            state@.scheduled == Set::<usize>::empty(),
            state@.owners == Map::<usize, usize>::empty(),
            !state@.in_run_loop,
            state@.to_schedule == Seq::<AnyCommand>::empty(),
            state@.to_cancel == Seq::<AnyCommand>::empty(),
            state@.trace == Seq::<HookCall>::empty(),
            state@.schedule_log == Seq::<AnyCommand>::empty(),
            state@.cancel_log == Seq::<AnyCommand>::empty(),
            state@.shown == Seq::<Shown>::empty(),
    {
        let state = CommandSchedulerState {
            subsystems: Vec::new(),
            commands: Vec::new(),
            defaults: id_map_new(),
            in_run_loop: false,
            to_schedule: Vec::new(),
            to_cancel: Vec::new(),
            scheduled_commands: id_set_new(),
            requirements: id_map_new(),
            ending_commands: id_set_new(),
            trace: Ghost(Seq::empty()),
            schedule_log: Ghost(Seq::empty()),
            cancel_log: Ghost(Seq::empty()),
            shown: Ghost(Seq::empty()),
        };
        proof {
            assert(state@.commands =~= Seq::<CommandInfo>::empty());
            assert(state@.defaults =~= Map::<usize, usize>::empty());
            assert(state@.owners =~= Map::<usize, usize>::empty());
        }
        state
    }

    /// Takes a command into the arena and returns its handle. The command is
    /// not scheduled.
    pub fn add_command(&mut self, command: C) -> (handle: AnyCommand)
        requires
            old(self)@.wf(),
        ensures
            final(self)@.wf(),
            handle.0 == old(self)@.commands.len(),
            final(self)@ == (SchedulerView {
                commands: old(self)@.commands.push(command.info()),
                ..old(self)@
            }),
            final(self).command(handle) == command,
    {
        let id = self.commands.len();
        self.commands.push(command);
        proof {
            assert(self@.commands =~= old(self)@.commands.push(command.info()));
            assert forall|c: usize| c < old(self)@.commands.len() implies self@.requirements(c)
                == old(self)@.requirements(c) by {}
        }
        AnyCommand(id)
    }

    /// The subsystems that `command` requires, copied out.
    fn requirements_of(command: &C) -> (requirements: Vec<AnySubsystem>)
        ensures
            requirements@ == command.info().requirements,
    {
        let declared = command.get_requirements();
        let mut requirements: Vec<AnySubsystem> = Vec::new();
        let mut i: usize = 0;
        while i < declared.len()
            invariant
                i <= declared@.len(),
                declared@ == command.info().requirements,
                requirements@ == declared@.take(i as int),
            decreases declared@.len() - i,
        {
            requirements.push(declared[i]);
            i += 1;
            proof {
                assert(requirements@ =~= declared@.take(i as int));
            }
        }
        proof {
            assert(declared@.take(i as int) =~= declared@);
        }
        requirements
    }

    /// Gives up every subsystem in `requirements`.
    fn release(&mut self, requirements: &Vec<AnySubsystem>)
        ensures
            final(self).subsystems == old(self).subsystems,
            final(self).commands == old(self).commands,
            final(self).defaults == old(self).defaults,
            final(self).in_run_loop == old(self).in_run_loop,
            final(self).to_schedule == old(self).to_schedule,
            final(self).to_cancel == old(self).to_cancel,
            final(self).scheduled_commands == old(self).scheduled_commands,
            final(self).ending_commands == old(self).ending_commands,
            final(self).trace == old(self).trace,
            final(self).schedule_log == old(self).schedule_log,
            final(self).cancel_log == old(self).cancel_log,
            final(self).shown == old(self).shown,
            id_map_contents(final(self).requirements) == Map::new(
                |s: usize|
                    id_map_contents(old(self).requirements).contains_key(s)
                        && !requirements@.contains(AnySubsystem(s)),
                |s: usize| id_map_contents(old(self).requirements)[s],
            ),
    {
        let ghost before = id_map_contents(self.requirements);
        let mut i: usize = 0;
        while i < requirements.len()
            invariant
                i <= requirements@.len(),
                self.subsystems == old(self).subsystems,
                self.commands == old(self).commands,
                self.defaults == old(self).defaults,
                self.in_run_loop == old(self).in_run_loop,
                self.to_schedule == old(self).to_schedule,
                self.to_cancel == old(self).to_cancel,
                self.scheduled_commands == old(self).scheduled_commands,
                self.ending_commands == old(self).ending_commands,
                self.trace == old(self).trace,
                self.schedule_log == old(self).schedule_log,
                self.cancel_log == old(self).cancel_log,
                self.shown == old(self).shown,
                before == id_map_contents(old(self).requirements),
                id_map_contents(self.requirements) == Map::new(
                    |s: usize|
                        before.contains_key(s) && !requirements@.take(i as int).contains(
                            AnySubsystem(s),
                        ),
                    |s: usize| before[s],
                ),
            decreases requirements@.len() - i,
        {
            id_map_remove(&mut self.requirements, requirements[i].0);
            proof {
                let next = requirements@.take(i + 1);
                let prev = requirements@.take(i as int);
                assert(next == prev.push(requirements@[i as int]));
                assert forall|s: usize|
                    next.contains(AnySubsystem(s)) <==> (prev.contains(AnySubsystem(s)) || s
                        == requirements@[i as int].0) by {
                    if next.contains(AnySubsystem(s)) {
                        let j = choose|j: int| 0 <= j < next.len() && next[j] == AnySubsystem(s);
                        if j < i {
                            assert(prev[j] == AnySubsystem(s));
                        }
                    }
                    if prev.contains(AnySubsystem(s)) {
                        let j = choose|j: int| 0 <= j < prev.len() && prev[j] == AnySubsystem(s);
                        assert(next[j] == AnySubsystem(s));
                    }
                    if s == requirements@[i as int].0 {
                        assert(next[i as int] == AnySubsystem(s));
                    }
                }
                assert(id_map_contents(self.requirements) =~= Map::new(
                    |s: usize| before.contains_key(s) && !next.contains(AnySubsystem(s)),
                    |s: usize| before[s],
                ));
            }
            i += 1;
        }
        proof {
            assert(requirements@.take(i as int) =~= requirements@);
        }
    }

    /// Makes the command in slot `c` the owner of every subsystem in
    /// `requirements`.
    fn claim(&mut self, requirements: &Vec<AnySubsystem>, c: usize)
        ensures
            final(self).subsystems == old(self).subsystems,
            final(self).commands == old(self).commands,
            final(self).defaults == old(self).defaults,
            final(self).in_run_loop == old(self).in_run_loop,
            final(self).to_schedule == old(self).to_schedule,
            final(self).to_cancel == old(self).to_cancel,
            final(self).scheduled_commands == old(self).scheduled_commands,
            final(self).ending_commands == old(self).ending_commands,
            final(self).trace == old(self).trace,
            final(self).schedule_log == old(self).schedule_log,
            final(self).cancel_log == old(self).cancel_log,
            final(self).shown == old(self).shown,
            id_map_contents(final(self).requirements) == Map::new(
                |s: usize|
                    id_map_contents(old(self).requirements).contains_key(s)
                        || requirements@.contains(AnySubsystem(s)),
                |s: usize|
                    if requirements@.contains(AnySubsystem(s)) {
                        c
                    } else {
                        id_map_contents(old(self).requirements)[s]
                    },
            ),
    {
        let ghost before = id_map_contents(self.requirements);
        let mut i: usize = 0;
        while i < requirements.len()
            invariant
                i <= requirements@.len(),
                self.subsystems == old(self).subsystems,
                self.commands == old(self).commands,
                self.defaults == old(self).defaults,
                self.in_run_loop == old(self).in_run_loop,
                self.to_schedule == old(self).to_schedule,
                self.to_cancel == old(self).to_cancel,
                self.scheduled_commands == old(self).scheduled_commands,
                self.ending_commands == old(self).ending_commands,
                self.trace == old(self).trace,
                self.schedule_log == old(self).schedule_log,
                self.cancel_log == old(self).cancel_log,
                self.shown == old(self).shown,
                before == id_map_contents(old(self).requirements),
                id_map_contents(self.requirements) == Map::new(
                    |s: usize|
                        before.contains_key(s) || requirements@.take(i as int).contains(
                            AnySubsystem(s),
                        ),
                    |s: usize|
                        if requirements@.take(i as int).contains(AnySubsystem(s)) {
                            c
                        } else {
                            before[s]
                        },
                ),
            decreases requirements@.len() - i,
        {
            id_map_insert(&mut self.requirements, requirements[i].0, c);
            proof {
                let next = requirements@.take(i + 1);
                let prev = requirements@.take(i as int);
                assert(next == prev.push(requirements@[i as int]));
                assert forall|s: usize|
                    next.contains(AnySubsystem(s)) <==> (prev.contains(AnySubsystem(s)) || s
                        == requirements@[i as int].0) by {
                    if next.contains(AnySubsystem(s)) {
                        let j = choose|j: int| 0 <= j < next.len() && next[j] == AnySubsystem(s);
                        if j < i {
                            assert(prev[j] == AnySubsystem(s));
                        }
                    }
                    if prev.contains(AnySubsystem(s)) {
                        let j = choose|j: int| 0 <= j < prev.len() && prev[j] == AnySubsystem(s);
                        assert(next[j] == AnySubsystem(s));
                    }
                    if s == requirements@[i as int].0 {
                        assert(next[i as int] == AnySubsystem(s));
                    }
                }
                assert(id_map_contents(self.requirements) =~= Map::new(
                    |s: usize| before.contains_key(s) || next.contains(AnySubsystem(s)),
                    |s: usize|
                        if next.contains(AnySubsystem(s)) {
                            c
                        } else {
                            before[s]
                        },
                ));
            }
            i += 1;
        }
        proof {
            assert(requirements@.take(i as int) =~= requirements@);
        }
    }

    /// Puts requests at the end of the queues.
    fn queue(&mut self, to_schedule: Vec<AnyCommand>, to_cancel: Vec<AnyCommand>)
        ensures
            final(self)@ == old(self)@.asked(to_schedule@, to_cancel@),
    {
        let mut to_schedule = to_schedule;
        let mut to_cancel = to_cancel;
        proof {
            self.schedule_log@ = self.schedule_log@ + to_schedule@;
            self.cancel_log@ = self.cancel_log@ + to_cancel@;
        }
        self.to_schedule.append(&mut to_schedule);
        self.to_cancel.append(&mut to_cancel);
        proof {
            assert(self@.commands =~= old(self)@.commands);
        }
    }

    /// Takes note of what the `initialize` of `command` came to: the call
    /// joins the trace, the requests that the hook left join the queues, and
    /// what the hook returned is returned.
    pub fn finish_initialize(
        &mut self,
        command: AnyCommand,
        initialized: Result<(), CommandError>,
        to_schedule: Vec<AnyCommand>,
        to_cancel: Vec<AnyCommand>,
    ) -> (outcome: Result<(), CommandError>)
        requires
            old(self)@.wf(),
        ensures
            outcome == initialized,
            final(self)@.wf(),
            final(self)@ == old(self)@.logged(HookCall::Initialize(command)).asked(
                to_schedule@,
                to_cancel@,
            ),
    {
        proof {
            self.trace@ = self.trace@.push(HookCall::Initialize(command));
        }
        self.queue(to_schedule, to_cancel);
        proof {
            lemma_wf_frame(old(self)@, self@);
        }
        initialized
    }

    /// Takes note of what the `execute` of `command` came to: the call joins
    /// the trace, the requests that the hook left join the queues, and what
    /// the hook returned is returned.
    pub fn finish_execute(
        &mut self,
        command: AnyCommand,
        executed: Result<(), CommandError>,
        to_schedule: Vec<AnyCommand>,
        to_cancel: Vec<AnyCommand>,
    ) -> (outcome: Result<(), CommandError>)
        requires
            old(self)@.wf(),
        ensures
            outcome == executed,
            final(self)@.wf(),
            final(self)@ == old(self)@.logged(HookCall::Execute(command)).asked(
                to_schedule@,
                to_cancel@,
            ),
    {
        proof {
            self.trace@ = self.trace@.push(HookCall::Execute(command));
        }
        self.queue(to_schedule, to_cancel);
        proof {
            lemma_wf_frame(old(self)@, self@);
        }
        executed
    }

    /// Acts on what the `end` of the scheduled command `command` came to.
    ///
    /// The call joins the trace and the requests that the hook left join the
    /// queues. If the hook succeeded, the command leaves the schedule and
    /// gives up the subsystems it owned; if it failed, the command stays
    /// scheduled. What the hook returned is returned.
    pub fn finish_end(
        &mut self,
        command: AnyCommand,
        interrupted: bool,
        ended: Result<(), CommandError>,
        to_schedule: Vec<AnyCommand>,
        to_cancel: Vec<AnyCommand>,
    ) -> (outcome: Result<(), CommandError>)
        requires
            old(self)@.wf(),
            old(self)@.scheduled.contains(command.0),
        ensures
            outcome == ended,
            final(self)@.wf(),
            final(self)@ == (if ended is Ok {
                old(self)@.retired(command.0)
            } else {
                old(self)@
            }).logged(HookCall::End(command, interrupted)).asked(to_schedule@, to_cancel@),
    {
        proof {
            self.trace@ = self.trace@.push(HookCall::End(command, interrupted));
        }
        self.queue(to_schedule, to_cancel);
        proof {
            lemma_wf_frame(old(self)@, self@);
        }
        if ended.is_err() {
            return ended;
        }
        id_set_remove(&mut self.scheduled_commands, command.0);
        let requirements = Self::requirements_of(&self.commands[command.0]);
        self.release(&requirements);
        proof {
            let expected = old(self)@.retired(command.0);
            assert(self@.owners =~= expected.owners) by {
                assert forall|s: usize| #[trigger]
                    self@.owners.contains_key(s) <==> expected.owners.contains_key(s) by {
                    if old(self)@.owners.contains_key(s) {
                        if old(self)@.owners[s] == command.0 {
                            assert(old(self)@.requirements(command.0).contains(AnySubsystem(s)));
                        }
                        if requirements@.contains(AnySubsystem(s)) {
                            assert(old(self)@.requirements(command.0).contains(AnySubsystem(s)));
                        }
                    }
                }
            }
            lemma_retired_wf(old(self)@, command.0);
            lemma_wf_frame(old(self)@.retired(command.0), self@);
        }
        ended
    }

    /// Admits `command`: it claims its requirements, joins the scheduled
    /// commands, and only then has its `initialize` called, so that the hook
    /// is shown the command as scheduled. A failure of the hook is returned
    /// and leaves the command admitted. Requests that the hook leaves are
    /// queued.
    fn init_command(&mut self, command: AnyCommand, requirements: &Vec<AnySubsystem>) -> (outcome:
        Result<(), CommandError>)
        requires
            old(self)@.wf(),
            old(self)@.knows(command),
            !old(self)@.scheduled.contains(command.0),
            requirements@ == old(self)@.requirements(command.0),
            forall|i: int|
                0 <= i < requirements@.len() ==> !old(self)@.owners.contains_key(
                    #[trigger] requirements@[i].0,
                ),
        ensures
            final(self)@.wf(),
            old(self)@.heard(final(self)@),
            old(self)@.to_schedule.is_prefix_of(final(self)@.to_schedule),
            old(self)@.to_cancel.is_prefix_of(final(self)@.to_cancel),
            final(self)@.shown == old(self)@.shown.push(
                Shown { scheduled: old(self)@.scheduled.insert(command.0), ending: old(self)@.ending },
            ),
            final(self)@.settled() == old(self)@.admitted(command.0).logged(
                HookCall::Initialize(command),
            ).settled(),
    {
        self.claim(requirements, command.0);
        id_set_insert(&mut self.scheduled_commands, command.0);
        let mut context = SchedulerContext::new(&self.scheduled_commands, &self.ending_commands);
        let ghost shown = Shown { scheduled: context.scheduled(), ending: context.ending() };
        let initialized = self.commands[command.0].initialize(&mut context);
        let (to_schedule, to_cancel) = context.into_requests();
        proof {
            self.shown@ = self.shown@.push(shown);
            let expected = old(self)@.admitted(command.0).showing(shown.scheduled, shown.ending);
            assert(self@.commands =~= old(self)@.commands);
            assert(self@.owners =~= expected.owners);
            assert forall|s: AnySubsystem| #[trigger]
                old(self)@.requirements(command.0).contains(s) implies !old(self)@.owners.contains_key(s.0) by {
                let i = choose|i: int| 0 <= i < requirements@.len() && requirements@[i] == s;
                assert(!old(self)@.owners.contains_key(requirements@[i].0));
            }
            lemma_admitted_wf(old(self)@, command.0);
            lemma_wf_frame(old(self)@.admitted(command.0), self@);
            lemma_heard_nothing(old(self)@, self@);
        }
        let ghost admitted = self@;
        let outcome = self.finish_initialize(command, initialized, to_schedule, to_cancel);
        proof {
            lemma_heard_asked(admitted.logged(HookCall::Initialize(command)), to_schedule@, to_cancel@);
            lemma_heard_nothing(admitted, admitted.logged(HookCall::Initialize(command)));
            lemma_heard_transitive(admitted, admitted.logged(HookCall::Initialize(command)), self@);
            lemma_heard_transitive(old(self)@, admitted, self@);
            lemma_heard_keeps(old(self)@, self@);
        }
        outcome
    }

    /// The distinct commands that own one of `requirements`, in the order in
    /// which the requirements name them first.
    fn conflicts(&self, requirements: &Vec<AnySubsystem>) -> (owners: Vec<usize>)
        ensures
            owners@ == self@.conflicting_owners(requirements@),
    {
        let mut owners: Vec<usize> = Vec::new();
        let mut i: usize = 0;
        while i < requirements.len()
            invariant
                i <= requirements@.len(),
                owners@ == self@.conflicting_owners(requirements@.take(i as int)),
            decreases requirements@.len() - i,
        {
            proof {
                assert(requirements@.take(i + 1).drop_last() =~= requirements@.take(i as int));
            }
            if let Some(owner) = id_map_get(&self.requirements, requirements[i].0) {
                if !slot_listed(&owners, owner) {
                    owners.push(owner);
                }
            }
            i += 1;
        }
        proof {
            assert(requirements@.take(i as int) =~= requirements@);
        }
        owners
    }

    /// Whether one of the commands in the slots `owners` declares
    /// `CancelIncoming`.
    fn refused_by(&self, owners: &Vec<usize>) -> (refused: bool)
        requires
            forall|j: int| 0 <= j < owners@.len() ==> #[trigger] owners@[j] < self@.commands.len(),
        ensures
            refused == self@.any_refuses(owners@),
    {
        let mut j: usize = 0;
        while j < owners.len()
            invariant
                j <= owners@.len(),
                forall|k: int| 0 <= k < owners@.len() ==> #[trigger] owners@[k] < self@.commands.len(),
                forall|k: int|
                    0 <= k < j ==> (#[trigger] self@.commands[owners@[k] as int]).interruption_behavior
                        != InterruptionBehavior::CancelIncoming,
            decreases owners@.len() - j,
        {
            assert(owners@[j as int] < self@.commands.len());
            match self.commands[owners[j]].get_interruption_behavior() {
                InterruptionBehavior::CancelIncoming => {
                    proof {
                        assert(self@.commands[owners@[j as int] as int].interruption_behavior
                            == InterruptionBehavior::CancelIncoming);
                    }
                    return true;
                },
                InterruptionBehavior::CancelSelf => {},
            }
            j += 1;
        }
        false
    }

    /// Schedules `command` at once.
    ///
    /// A command that is scheduled already, or a handle that names no command
    /// of this scheduler, changes nothing. If a command that owns one of the
    /// required subsystems declares `CancelIncoming`, the incoming command is
    /// rejected and nothing changes. Otherwise the owners are cancelled in
    /// the order in which the requirements name them, and the command is
    /// admitted and initialized. The first hook that fails ends the admission
    /// where it stands, and its failure is returned.
    fn schedule_now(&mut self, command: AnyCommand) -> (outcome: Result<(), CommandError>)
        requires
            old(self)@.wf(),
            !old(self)@.in_run_loop,
        ensures
            final(self)@.wf(),
            old(self)@.same_setup(final(self)@),
            old(self)@.scheduled_now(final(self)@, command, outcome is Ok),
    {
        proof {
            lemma_heard_nothing(old(self)@, self@);
        }
        if command.0 >= self.commands.len() {
            return Ok(());
        }
        if id_set_contains(&self.scheduled_commands, command.0) {
            return Ok(());
        }
        let requirements = Self::requirements_of(&self.commands[command.0]);
        let owners = self.conflicts(&requirements);
        proof {
            lemma_conflicting_owners(self@, requirements@);
            assert forall|j: int| 0 <= j < owners@.len() implies self@.scheduled.contains(
                #[trigger] owners@[j],
            ) by {
                assert(self@.owns_one_of(owners@[j], requirements@));
            }
        }
        if self.refused_by(&owners) {
            return Ok(());
        }
        let mut j: usize = 0;
        while j < owners.len()
            invariant
                j <= owners@.len(),
                self@.wf(),
                owners@.no_duplicates(),
                forall|k: int| 0 <= k < owners@.len() ==> old(self)@.scheduled.contains(#[trigger] owners@[k]),
                old(self)@.to_schedule.is_prefix_of(self@.to_schedule),
                old(self)@.to_cancel.is_prefix_of(self@.to_cancel),
                old(self)@.same_setup(self@),
                old(self)@.heard(self@),
                !self@.in_run_loop,
                old(self)@.admission(command) == Admission::Admitted(owners@),
                self@.settled() == old(self)@.interrupted_all(owners@.take(j as int)).settled(),
            decreases owners@.len() - j,
        {
            let ghost before = self@;
            proof {
                lemma_interrupted_all(old(self)@, owners@.take(j as int));
                assert(!owners@.take(j as int).to_set().contains(owners@[j as int])) by {
                    if owners@.take(j as int).contains(owners@[j as int]) {
                        let k = choose|k: int|
                            0 <= k < j && owners@.take(j as int)[k] == owners@[j as int];
                        assert(owners@[k] == owners@[j as int]);
                    }
                }
                assert(before.scheduled == before.settled().scheduled);
                assert(old(self)@.scheduled.contains(owners@[j as int]));
                assert(before.scheduled.contains(owners@[j as int]));
                assert(before.cancellation(AnyCommand(owners@[j as int])) == Cancellation::Interrupts);
                assert(owners@.take(j + 1).drop_last() =~= owners@.take(j as int));
            }
            let cancelled = self.cancel(AnyCommand(owners[j]));
            proof {
                lemma_heard_transitive(old(self)@, before, self@);
                let so_far = old(self)@.interrupted_all(owners@.take(j as int));
                assert(before.settled() == so_far.settled());
                assert(before.retired(owners@[j as int]).settled() == so_far.retired(
                    owners@[j as int],
                ).settled());
            }
            if let Err(failure) = cancelled {
                proof {
                    assert(owners@.take(j + 1 - 1) =~= owners@.take(j as int));
                    assert(old(self)@.admission_reached(self@, owners@, command.0, j + 1, false));
                    assert(old(self)@.admission(command) matches Admission::Admitted(o) && o == owners@);
                }
                return Err(failure);
            }
            j += 1;
        }
        proof {
            assert(owners@.take(j as int) =~= owners@);
            lemma_interrupted_all(old(self)@, owners@);
            assert forall|i: int| 0 <= i < requirements@.len() implies !self@.owners.contains_key(
                #[trigger] requirements@[i].0,
            ) by {
                if old(self)@.owners.contains_key(requirements@[i].0) {
                    assert(owners@.contains(old(self)@.owners[requirements@[i].0]));
                }
            }
            assert(self@.requirements(command.0) == old(self)@.requirements(command.0));
        }
        let ghost before = self@;
        let initialized = self.init_command(command, &requirements);
        proof {
            lemma_heard_transitive(old(self)@, before, self@);
            let so_far = old(self)@.interrupted_all(owners@);
            assert(before.admitted(command.0).settled() == so_far.admitted(command.0).settled());
            assert(old(self)@.admission_reached(
                self@,
                owners@,
                command.0,
                (owners@.len() + 1) as int,
                initialized is Ok,
            ));
            assert(old(self)@.admission(command) matches Admission::Admitted(o) && o == owners@);
        }
        initialized
    }

    /// Schedules `command`: at once, or, while a tick's pass over the
    /// scheduled commands is under way, by queueing the request.
    pub fn schedule(&mut self, command: AnyCommand) -> (outcome: Result<(), CommandError>)
        requires
            old(self)@.wf(),
        ensures
            final(self)@.wf(),
            old(self)@.same_setup(final(self)@),
            old(self)@.schedule_requested(final(self)@, command, outcome is Ok),
    {
        if self.in_run_loop {
            self.to_schedule.push(command);
            proof {
                self.schedule_log@ = self.schedule_log@.push(command);
                lemma_wf_frame(old(self)@, self@);
            }
            return Ok(());
        }
        self.schedule_now(command)
    }

    /// Ends a scheduled command: marks it as ending, calls its `end`, which
    /// is shown the command as scheduled and as ending, and takes the mark
    /// away again. What follows is for [`Self::finish_end`].
    fn end_command(&mut self, command: AnyCommand, interrupted: bool) -> (outcome: Result<
        (),
        CommandError,
    >)
        requires
            old(self)@.wf(),
            old(self)@.scheduled.contains(command.0),
        ensures
            final(self)@.wf(),
            old(self)@.same_setup(final(self)@),
            old(self)@.heard(final(self)@),
            old(self)@.to_schedule.is_prefix_of(final(self)@.to_schedule),
            old(self)@.to_cancel.is_prefix_of(final(self)@.to_cancel),
            final(self)@.shown == old(self)@.shown.push(
                Shown { scheduled: old(self)@.scheduled, ending: old(self)@.ending.insert(command.0) },
            ),
            final(self)@.settled() == (if outcome is Ok {
                old(self)@.retired(command.0)
            } else {
                old(self)@
            }).logged(HookCall::End(command, interrupted)).settled(),
    {
        id_set_insert(&mut self.ending_commands, command.0);
        let mut context = SchedulerContext::new(&self.scheduled_commands, &self.ending_commands);
        let ghost shown = Shown { scheduled: context.scheduled(), ending: context.ending() };
        let ended = self.commands[command.0].end(interrupted, &mut context);
        let (to_schedule, to_cancel) = context.into_requests();
        id_set_remove(&mut self.ending_commands, command.0);
        proof {
            self.shown@ = self.shown@.push(shown);
            assert(self@.commands =~= old(self)@.commands);
            assert(self@.ending =~= old(self)@.ending);
            lemma_wf_frame(old(self)@, self@);
            lemma_heard_nothing(old(self)@, self@);
        }
        let ghost marked = self@;
        let outcome = self.finish_end(command, interrupted, ended, to_schedule, to_cancel);
        proof {
            let logged = (if ended is Ok {
                marked.retired(command.0)
            } else {
                marked
            }).logged(HookCall::End(command, interrupted));
            lemma_heard_asked(logged, to_schedule@, to_cancel@);
            lemma_heard_nothing(marked, logged);
            lemma_heard_transitive(marked, logged, self@);
            lemma_heard_transitive(old(self)@, marked, self@);
            lemma_heard_keeps(old(self)@, self@);
        }
        outcome
    }

    /// Cancels `command`.
    ///
    /// A command that is ending already, or that is not scheduled, is left
    /// alone. While a tick's pass over the scheduled commands is under way the
    /// request is queued. Otherwise the command's `end(true)` is called; if it
    /// succeeds, the command leaves the schedule and gives up the subsystems
    /// it owned, and if it fails, the failure is returned and the command
    /// stays scheduled. Requests that the hook leaves are queued.
    pub fn cancel(&mut self, command: AnyCommand) -> (outcome: Result<(), CommandError>)
        requires
            old(self)@.wf(),
        ensures
            final(self)@.wf(),
            old(self)@.same_setup(final(self)@),
            old(self)@.cancel_requested(final(self)@, command, outcome is Ok),
    {
        if id_set_contains(&self.ending_commands, command.0) {
            return Ok(());
        }
        if self.in_run_loop {
            self.to_cancel.push(command);
            proof {
                self.cancel_log@ = self.cancel_log@.push(command);
                lemma_wf_frame(old(self)@, self@);
            }
            return Ok(());
        }
        if !id_set_contains(&self.scheduled_commands, command.0) {
            return Ok(());
        }
        self.end_command(command, true)
    }

    /// Makes `command` the default command of `subsystem`, in place of any
    /// earlier one.
    ///
    /// Fails with `MustRequireSubsystem`, and changes nothing, if `command`
    /// does not require `subsystem` (a handle that names no command requires
    /// nothing). Otherwise fails with `NotRegistered`, and changes nothing, if
    /// `subsystem` is not registered.
    pub fn set_default_command(&mut self, subsystem: &AnySubsystem, command: AnyCommand) -> (outcome:
        Result<(), SetDefaultCommandError>)
        requires
            old(self)@.wf(),
        ensures
            final(self)@.wf(),
            outcome == old(self)@.default_check(*subsystem, command),
            final(self)@ == if outcome is Ok {
                SchedulerView {
                    defaults: old(self)@.defaults.insert(subsystem.0, command.0),
                    ..old(self)@
                }
            } else {
                old(self)@
            },
    {
        if command.0 >= self.commands.len() {
            return Err(SetDefaultCommandError::MustRequireSubsystem);
        }
        let requirements = Self::requirements_of(&self.commands[command.0]);
        if !subsystem_listed(&requirements, *subsystem) {
            return Err(SetDefaultCommandError::MustRequireSubsystem);
        }
        if subsystem.0 >= self.subsystems.len() {
            return Err(SetDefaultCommandError::NotRegistered);
        }
        id_map_insert(&mut self.defaults, subsystem.0, command.0);
        proof {
            assert(AnySubsystem(subsystem.0) == *subsystem);
            assert forall|s: usize| #[trigger] self@.defaults.contains_key(s) implies s
                < self@.subsystems && self@.defaults[s] < self@.commands.len()
                && self@.requirements(self@.defaults[s]).contains(AnySubsystem(s)) by {
                if s != subsystem.0 {
                    assert(old(self)@.defaults.contains_key(s));
                }
            }
            assert forall|c: usize, s: AnySubsystem|
                self@.scheduled.contains(c) && #[trigger] self@.requirements(c).contains(
                    s,
                ) implies self@.owners.contains_key(s.0) && self@.owners[s.0] == c by {
                assert(old(self)@.scheduled.contains(c) && old(self)@.requirements(c).contains(s));
            }
        }
        Ok(())
    }

    /// Takes the default command of `subsystem` away and returns it, if there
    /// was one.
    pub fn remove_default_command(&mut self, subsystem: &AnySubsystem) -> (removed: Option<AnyCommand>)
        requires
            old(self)@.wf(),
        ensures
            final(self)@.wf(),
            removed == if old(self)@.defaults.contains_key(subsystem.0) {
                Some(AnyCommand(old(self)@.defaults[subsystem.0]))
            } else {
                None
            },
            final(self)@ == (SchedulerView {
                defaults: old(self)@.defaults.remove(subsystem.0),
                ..old(self)@
            }),
    {
        let previous = id_map_remove(&mut self.defaults, subsystem.0);
        proof {
            assert forall|s: usize| #[trigger] self@.defaults.contains_key(s) implies s
                < self@.subsystems && self@.defaults[s] < self@.commands.len()
                && self@.requirements(self@.defaults[s]).contains(AnySubsystem(s)) by {
                assert(old(self)@.defaults.contains_key(s));
            }
            assert forall|c: usize, s: AnySubsystem|
                self@.scheduled.contains(c) && #[trigger] self@.requirements(c).contains(
                    s,
                ) implies self@.owners.contains_key(s.0) && self@.owners[s.0] == c by {
                assert(old(self)@.scheduled.contains(c) && old(self)@.requirements(c).contains(s));
            }
        }
        match previous {
            Some(c) => Some(AnyCommand(c)),
            None => None,
        }
    }

    /// Registers `subsystem` with the given default command, if any, and
    /// returns the subsystem's handle.
    ///
    /// The default command joins the arena. It is installed only if it
    /// requires the new subsystem; otherwise the subsystem is left without a
    /// default command.
    pub fn register_with_default(&mut self, subsystem: S, default: Option<C>) -> (handle: AnySubsystem)
        requires
            old(self)@.wf(),
        ensures
            final(self)@.wf(),
            handle.0 == old(self)@.subsystems,
            final(self)@ == old(self)@.registered(
                match default {
                    Some(command) => Some(command.info()),
                    None => None,
                },
            ),
    {
        let handle = AnySubsystem(self.subsystems.len());
        self.subsystems.push(subsystem);
        proof {
            assert(self@.commands =~= old(self)@.commands);
            assert(self.subsystems@.len() == self.subsystems.len());
            lemma_wf_more_subsystems(old(self)@, self@);
        }
        if let Some(command) = default {
            let added = self.add_command(command);
            let _ = self.set_default_command(&handle, added);
        }
        handle
    }

    /// Registers `subsystem` and returns its handle. The subsystem is asked
    /// for its default command, which is installed as in
    /// [`Self::register_with_default`].
    pub fn register(&mut self, subsystem: S) -> (handle: AnySubsystem)
        requires
            old(self)@.wf(),
        ensures
            final(self)@.wf(),
            handle.0 == old(self)@.subsystems,
            exists|default: Option<CommandInfo>| final(self)@ == #[trigger] old(self)@.registered(default),
    {
        let default = subsystem.default_command(AnySubsystem(self.subsystems.len()));
        self.register_with_default(subsystem, default)
    }

    /// Cancels every scheduled command, in an order that the set of scheduled
    /// commands chooses. While a tick's pass over the scheduled commands is
    /// under way, these are so many queued requests. The first `end(true)`
    /// that fails stops the operation, and its failure is returned.
    pub fn cancel_all(&mut self) -> (outcome: Result<(), CommandError>)
        requires
            old(self)@.wf(),
        ensures
            final(self)@.wf(),
            old(self)@.same_setup(final(self)@),
            old(self)@.heard(final(self)@),
            old(self)@.to_schedule.is_prefix_of(final(self)@.to_schedule),
            old(self)@.to_cancel.is_prefix_of(final(self)@.to_cancel),
            exists|order: Seq<usize>, done: int| #[trigger]
                old(self)@.cancelled_all(final(self)@, order, done, outcome is Ok),
    {
        let snapshot = id_set_to_vec(&self.scheduled_commands);
        let mut j: usize = 0;
        proof {
            lemma_heard_nothing(old(self)@, self@);
        }
        while j < snapshot.len()
            invariant
                j <= snapshot@.len(),
                self@.wf(),
                old(self)@.lists_scheduled(snapshot@),
                old(self)@.to_schedule.is_prefix_of(self@.to_schedule),
                old(self)@.to_cancel.is_prefix_of(self@.to_cancel),
                old(self)@.same_setup(self@),
                old(self)@.heard(self@),
                old(self)@.in_run_loop ==> self@ == (SchedulerView {
                    to_cancel: old(self)@.to_cancel + snapshot@.take(j as int).map_values(
                        |c: usize| AnyCommand(c),
                    ),
                    cancel_log: old(self)@.cancel_log + snapshot@.take(j as int).map_values(
                        |c: usize| AnyCommand(c),
                    ),
                    ..old(self)@
                }),
                !old(self)@.in_run_loop ==> self@.settled() == old(self)@.interrupted_all(
                    snapshot@.take(j as int),
                ).settled(),
            decreases snapshot@.len() - j,
        {
            let ghost before = self@;
            proof {
                assert(snapshot@.take(j + 1).drop_last() =~= snapshot@.take(j as int));
                assert(snapshot@.take(j + 1).map_values(|c: usize| AnyCommand(c)) =~= snapshot@.take(
                    j as int,
                ).map_values(|c: usize| AnyCommand(c)).push(AnyCommand(snapshot@[j as int])));
                if !old(self)@.in_run_loop {
                    lemma_interrupted_all(old(self)@, snapshot@.take(j as int));
                    assert(!snapshot@.take(j as int).to_set().contains(snapshot@[j as int])) by {
                        if snapshot@.take(j as int).contains(snapshot@[j as int]) {
                            let k = choose|k: int|
                                0 <= k < j && snapshot@.take(j as int)[k] == snapshot@[j as int];
                            assert(snapshot@[k] == snapshot@[j as int]);
                        }
                    }
                    assert(snapshot@.to_set().contains(snapshot@[j as int]));
                    assert(before.scheduled == before.settled().scheduled);
                    assert(before.cancellation(AnyCommand(snapshot@[j as int]))
                        == Cancellation::Interrupts);
                } else {
                    assert(before.cancellation(AnyCommand(snapshot@[j as int]))
                        == Cancellation::Deferred);
                }
            }
            let cancelled = self.cancel(AnyCommand(snapshot[j]));
            proof {
                if before.cancellation(AnyCommand(snapshot@[j as int])) == Cancellation::Deferred {
                    lemma_heard_asked(before, Seq::empty(), seq![AnyCommand(snapshot@[j as int])]);
                    assert(self@ =~= before.asked(Seq::empty(), seq![AnyCommand(snapshot@[j as int])])) by {
                        assert(before.to_schedule + Seq::<AnyCommand>::empty() =~= before.to_schedule);
                        assert(before.schedule_log + Seq::<AnyCommand>::empty() =~= before.schedule_log);
                        assert(before.to_cancel + seq![AnyCommand(snapshot@[j as int])]
                            =~= before.to_cancel.push(AnyCommand(snapshot@[j as int])));
                        assert(before.cancel_log + seq![AnyCommand(snapshot@[j as int])]
                            =~= before.cancel_log.push(AnyCommand(snapshot@[j as int])));
                    }
                }
                lemma_heard_transitive(old(self)@, before, self@);
                if !old(self)@.in_run_loop {
                    let so_far = old(self)@.interrupted_all(snapshot@.take(j as int));
                    assert(before.settled() == so_far.settled());
                    assert(before.retired(snapshot@[j as int]).settled() == so_far.retired(
                        snapshot@[j as int],
                    ).settled());
                }
            }
            if let Err(failure) = cancelled {
                proof {
                    assert(snapshot@.take(j + 1 - 1) =~= snapshot@.take(j as int));
                    assert(old(self)@.cancelled_all(self@, snapshot@, j + 1, false));
                }
                return Err(failure);
            }
            j += 1;
        }
        proof {
            assert(snapshot@.take(j as int) =~= snapshot@);
            assert(old(self)@.cancelled_all(self@, snapshot@, snapshot@.len() as int, true));
        }
        let outcome = Ok(());
        proof {
            assert(old(self)@.cancelled_all(self@, snapshot@, snapshot@.len() as int, outcome is Ok));
        }
        outcome
    }

    /// Calls the `execute` of a scheduled command, which is shown the
    /// scheduler as it is. What follows is for [`Self::finish_execute`].
    fn execute_command(&mut self, command: AnyCommand) -> (outcome: Result<(), CommandError>)
        requires
            old(self)@.wf(),
            old(self)@.scheduled.contains(command.0),
        ensures
            final(self)@.wf(),
            old(self)@.same_setup(final(self)@),
            old(self)@.heard(final(self)@),
            old(self)@.to_schedule.is_prefix_of(final(self)@.to_schedule),
            old(self)@.to_cancel.is_prefix_of(final(self)@.to_cancel),
            final(self)@.shown == old(self)@.shown.push(
                Shown { scheduled: old(self)@.scheduled, ending: old(self)@.ending },
            ),
            final(self)@.settled() == old(self)@.logged(HookCall::Execute(command)).settled(),
    {
        let mut context = SchedulerContext::new(&self.scheduled_commands, &self.ending_commands);
        let ghost shown = Shown { scheduled: context.scheduled(), ending: context.ending() };
        let executed = self.commands[command.0].execute(&mut context);
        let (to_schedule, to_cancel) = context.into_requests();
        proof {
            self.shown@ = self.shown@.push(shown);
            assert(self@.commands =~= old(self)@.commands);
            lemma_wf_frame(old(self)@, self@);
            lemma_heard_nothing(old(self)@, self@);
        }
        let ghost shown_view = self@;
        let outcome = self.finish_execute(command, executed, to_schedule, to_cancel);
        proof {
            let logged = shown_view.logged(HookCall::Execute(command));
            lemma_heard_asked(logged, to_schedule@, to_cancel@);
            lemma_heard_nothing(shown_view, logged);
            lemma_heard_transitive(shown_view, logged, self@);
            lemma_heard_transitive(old(self)@, shown_view, self@);
            lemma_heard_keeps(old(self)@, self@);
        }
        outcome
    }

    /// Asks a scheduled command whether it is finished. The command sees the
    /// scheduler as it is; what it answers is for [`Self::settle`] to act on.
    fn command_finished(&self, command: AnyCommand) -> (outcome: Result<bool, CommandError>)
        requires
            self@.wf(),
            self@.scheduled.contains(command.0),
    {
        let context = SchedulerContext::new(&self.scheduled_commands, &self.ending_commands);
        self.commands[command.0].is_finished(&context)
    }

    /// Acts on what a scheduled command answered when it was asked whether it
    /// is finished, and returns whether the command is done.
    ///
    /// A failure to answer is passed on, and a command that is not finished
    /// stays as it is. A command that is finished is ended with `end(false)`:
    /// if the hook succeeds, the command leaves the schedule and gives up the
    /// subsystems it owned; if it fails, the failure is returned and the
    /// command stays scheduled.
    fn settle(&mut self, command: AnyCommand, answer: Result<bool, CommandError>) -> (outcome: Result<
        bool,
        CommandError,
    >)
        requires
            old(self)@.wf(),
            old(self)@.scheduled.contains(command.0),
        ensures
            final(self)@.wf(),
            old(self)@.same_setup(final(self)@),
            old(self)@.heard(final(self)@),
            old(self)@.to_schedule.is_prefix_of(final(self)@.to_schedule),
            old(self)@.to_cancel.is_prefix_of(final(self)@.to_cancel),
            match answer {
                Err(failure) => outcome == Err::<bool, CommandError>(failure) && final(self)@ == old(self)@,
                Ok(false) => outcome == Ok::<bool, CommandError>(false) && final(self)@ == old(self)@,
                Ok(true) => {
                    &&& outcome is Ok ==> outcome == Ok::<bool, CommandError>(true)
                    &&& final(self)@.settled() == (if outcome is Ok {
                        old(self)@.retired(command.0)
                    } else {
                        old(self)@
                    }).logged(HookCall::End(command, false)).settled()
                },
            },
    {
        proof {
            lemma_heard_nothing(old(self)@, self@);
        }
        match answer {
            Err(failure) => Err(failure),
            Ok(false) => Ok(false),
            Ok(true) => match self.end_command(command, false) {
                Ok(()) => Ok(true),
                Err(failure) => Err(failure),
            },
        }
    }

    /// One tick's pass over the scheduled commands.
    ///
    /// The pass is marked as under way, so that requests which arrive during
    /// it are queued. The scheduled commands are listed, in an order that the
    /// set chooses, and each in turn: if the robot is disabled and the command
    /// does not run when disabled, a request to cancel it is queued; its
    /// `execute` is called in any case; and if it then says that it is
    /// finished, its `end(false)` is called and it leaves the schedule at
    /// once. The mark is taken away when the pass is over, however it ends.
    ///
    /// The first hook that fails stops the pass: its failure is returned, and
    /// what was done is not undone.
    pub fn execute_scheduled(&mut self, disabled: bool) -> (outcome: Result<(), CommandError>)
        requires
            old(self)@.wf(),
        ensures
            final(self)@.wf(),
            !final(self)@.in_run_loop,
            old(self)@.heard(final(self)@),
            old(self)@.to_schedule.is_prefix_of(final(self)@.to_schedule),
            old(self)@.to_cancel.is_prefix_of(final(self)@.to_cancel),
            old(self)@.same_arenas(final(self)@),
            outcome is Ok ==> exists|order: Seq<usize>, finished: Seq<bool>| #[trigger]
                old(self)@.passed(final(self)@, order, finished, disabled),
            outcome is Err ==> exists|order: Seq<usize>, finished: Seq<bool>, ended: bool| #[trigger]
                old(self)@.stopped(final(self)@, order, finished, ended),
    {
        self.in_run_loop = true;
        let snapshot = id_set_to_vec(&self.scheduled_commands);
        let ghost mut finished: Seq<bool> = Seq::empty();
        let mut i: usize = 0;
        proof {
            lemma_wf_frame(old(self)@, self@);
            lemma_heard_nothing(old(self)@, self@);
        }
        while i < snapshot.len()
            invariant
                i <= snapshot@.len(),
                self@.wf(),
                self@.in_run_loop,
                old(self)@.heard(self@),
                old(self)@.same_arenas(self@),
                old(self)@.lists_scheduled(snapshot@),
                old(self)@.to_schedule.is_prefix_of(self@.to_schedule),
                old(self)@.to_cancel.is_prefix_of(self@.to_cancel),
                finished.len() == i,
                self@.settled() == (SchedulerView {
                    in_run_loop: true,
                    ..old(self)@.ran(snapshot@.take(i as int), finished)
                }).settled(),
                disabled ==> forall|k: int|
                    0 <= k < i && !old(self)@.commands[(#[trigger] snapshot@[k]) as int].runs_when_disabled
                        ==> self@.to_cancel.contains(AnyCommand(snapshot@[k])),
            decreases snapshot@.len() - i,
        {
            let command = AnyCommand(snapshot[i]);
            let ghost before = self@;
            let ghost so_far = old(self)@.ran(snapshot@.take(i as int), finished);
            proof {
                lemma_ran(old(self)@, snapshot@.take(i as int), finished);
                assert(!snapshot@.take(i as int).contains(command.0)) by {
                    if snapshot@.take(i as int).contains(command.0) {
                        let k = choose|k: int| 0 <= k < i && snapshot@.take(i as int)[k] == command.0;
                        assert(snapshot@[k] == snapshot@[i as int]);
                    }
                }
                assert(snapshot@.to_set().contains(snapshot@[i as int]));
                assert(before.scheduled == before.settled().scheduled);
                assert(before.scheduled.contains(command.0));
                assert(before.commands == old(self)@.commands);
                assert(snapshot@.take(i + 1).drop_last() =~= snapshot@.take(i as int));
            }
            if disabled && !self.commands[command.0].runs_when_disabled() {
                let queued = self.cancel(command);
                if let Err(failure) = queued {
                    return Err(failure);
                }
            }
            let ghost queued_view = self@;
            proof {
                if disabled && !old(self)@.commands[command.0 as int].runs_when_disabled {
                    lemma_cancel_heard(before, queued_view, command, true);
                } else {
                    lemma_heard_nothing(before, queued_view);
                }
                lemma_heard_transitive(old(self)@, before, queued_view);
                assert(queued_view.settled() == before.settled());
                assert(before.to_cancel.is_prefix_of(queued_view.to_cancel));
                assert(before.to_schedule.is_prefix_of(queued_view.to_schedule));
                assert(disabled && !old(self)@.commands[command.0 as int].runs_when_disabled
                    ==> queued_view.to_cancel.contains(command)) by {
                    if disabled && !old(self)@.commands[command.0 as int].runs_when_disabled {
                        assert(queued_view.to_cancel[before.to_cancel.len() as int] == command);
                    }
                }
                lemma_prefix_transitive(old(self)@.to_cancel, before.to_cancel, queued_view.to_cancel);
                lemma_prefix_transitive(
                    old(self)@.to_schedule,
                    before.to_schedule,
                    queued_view.to_schedule,
                );
            }
            let executed = self.execute_command(command);
            let ghost executed_view = self@;
            proof {
                lemma_heard_transitive(old(self)@, queued_view, executed_view);
                lemma_prefix_transitive(
                    old(self)@.to_cancel,
                    queued_view.to_cancel,
                    executed_view.to_cancel,
                );
                lemma_prefix_transitive(
                    old(self)@.to_schedule,
                    queued_view.to_schedule,
                    executed_view.to_schedule,
                );
                lemma_prefix_transitive(before.to_cancel, queued_view.to_cancel, executed_view.to_cancel);
                assert(executed_view.settled() == (SchedulerView {
                    in_run_loop: true,
                    ..so_far.logged(HookCall::Execute(command))
                }).settled());
            }
            if let Err(failure) = executed {
                self.in_run_loop = false;
                proof {
                    lemma_heard_nothing(executed_view, self@);
                    lemma_heard_transitive(old(self)@, executed_view, self@);
                    lemma_heard_keeps(old(self)@, self@);
                    lemma_wf_frame(executed_view, self@);
                    assert(old(self)@.stopped(self@, snapshot@, finished, false));
                }
                return Err(failure);
            }
            let answer = self.command_finished(command);
            let ghost ended = answer == Ok::<bool, CommandError>(true);
            let settled = self.settle(command, answer);
            proof {
                lemma_heard_transitive(old(self)@, executed_view, self@);
                lemma_prefix_transitive(old(self)@.to_cancel, executed_view.to_cancel, self@.to_cancel);
                lemma_prefix_transitive(old(self)@.to_schedule, executed_view.to_schedule, self@.to_schedule);
                lemma_prefix_transitive(before.to_cancel, executed_view.to_cancel, self@.to_cancel);
                lemma_prefix_transitive(queued_view.to_cancel, executed_view.to_cancel, self@.to_cancel);
                assert(executed_view.retired(command.0).settled() == (SchedulerView {
                    in_run_loop: true,
                    ..so_far.logged(HookCall::Execute(command)).retired(command.0)
                }).settled());
            }
            let ghost settled_view = self@;
            let is_done = match settled {
                Ok(is_done) => is_done,
                Err(failure) => {
                    self.in_run_loop = false;
                    proof {
                        lemma_heard_nothing(settled_view, self@);
                        lemma_heard_transitive(old(self)@, settled_view, self@);
                        lemma_heard_keeps(old(self)@, self@);
                        lemma_wf_frame(settled_view, self@);
                        assert(old(self)@.stopped(self@, snapshot@, finished, ended));
                    }
                    return Err(failure);
                },
            };
            proof {
                let earlier = finished;
                finished = finished.push(is_done);
                assert(finished.drop_last() =~= earlier);
                assert(snapshot@.take(i + 1).last() == command.0);
                assert forall|k: int|
                    0 <= k < i + 1 && disabled && !old(self)@.commands[(#[trigger] snapshot@[k]) as int].runs_when_disabled
                    implies self@.to_cancel.contains(AnyCommand(snapshot@[k])) by {
                    let wanted = AnyCommand(snapshot@[k]);
                    if k < i {
                        assert(before.to_cancel.contains(wanted));
                        lemma_prefix_keeps(before.to_cancel, self@.to_cancel, wanted);
                    } else {
                        assert(wanted == command);
                        lemma_prefix_keeps(queued_view.to_cancel, self@.to_cancel, wanted);
                    }
                }
            }
            i += 1;
        }
        let ghost looped = self@;
        self.in_run_loop = false;
        proof {
            assert(snapshot@.take(i as int) =~= snapshot@);
            lemma_heard_nothing(looped, self@);
            lemma_heard_transitive(old(self)@, looped, self@);
            lemma_wf_frame(looped, self@);
        }
        let outcome = Ok(());
        proof {
            assert(old(self)@.passed(self@, snapshot@, finished, disabled));
        }
        outcome
    }

    /// Applies the queued requests: first every request to schedule, oldest
    /// first, then every request to cancel, oldest first. Both queues are
    /// emptied before their requests are applied, so that a request which a
    /// hook leaves on the way waits in the queue; a request to cancel that
    /// arrives while the requests to schedule are applied is applied with the
    /// others. The first hook that fails stops the operation: its failure is
    /// returned and the requests not yet applied are dropped.
    pub fn apply_deferred(&mut self) -> (outcome: Result<(), CommandError>)
        requires
            old(self)@.wf(),
            !old(self)@.in_run_loop,
        ensures
            final(self)@.wf(),
            old(self)@.same_setup(final(self)@),
            exists|extra: Seq<AnyCommand>, done: int| #[trigger]
                old(self)@.drained(final(self)@, extra, done, outcome is Ok),
    {
        let mut to_schedule: Vec<AnyCommand> = Vec::new();
        to_schedule.append(&mut self.to_schedule);
        let ghost taken = self@;
        proof {
            lemma_wf_frame(old(self)@, self@);
            assert(to_schedule@ =~= old(self)@.to_schedule);
            assert(taken == (SchedulerView { to_schedule: Seq::empty(), ..old(self)@ }));
            lemma_heard_nothing(taken, self@);
        }
        let mut i: usize = 0;
        while i < to_schedule.len()
            invariant
                i <= to_schedule@.len(),
                self@.wf(),
                !self@.in_run_loop,
                old(self)@.same_setup(self@),
                taken == (SchedulerView { to_schedule: Seq::empty(), ..old(self)@ }),
                taken.heard(self@),
                to_schedule@ == old(self)@.to_schedule,
                old(self)@.to_cancel.is_prefix_of(self@.to_cancel),
                self@.settled() == old(self)@.after_schedules(to_schedule@.take(i as int)).settled(),
            decreases to_schedule@.len() - i,
        {
            let ghost before = self@;
            let ghost so_far = old(self)@.after_schedules(to_schedule@.take(i as int));
            let scheduled = self.schedule_now(to_schedule[i]);
            proof {
                lemma_heard_transitive(taken, before, self@);
                lemma_settled_agree(before, so_far, to_schedule@[i as int]);
                lemma_prefix_transitive(old(self)@.to_cancel, before.to_cancel, self@.to_cancel);
                assert(to_schedule@.take(i + 1).drop_last() =~= to_schedule@.take(i as int));
            }
            if let Err(failure) = scheduled {
                proof {
                    let owners = before.admission(to_schedule@[i as int])->Admitted_0;
                    let done = choose|done: int| #[trigger]
                        before.admission_reached(
                            self@,
                            owners,
                            to_schedule@[i as int].0,
                            done,
                            false,
                        );
                    assert(so_far.admission_reached(
                        self@,
                        owners,
                        to_schedule@[i as int].0,
                        done,
                        false,
                    ));
                    assert(so_far.schedule_stopped(self@, to_schedule@[i as int]));
                    lemma_drained_first(old(self)@, self@, i as int);
                    assert(old(self)@.drained(self@, Seq::empty(), i as int, false));
                }
                return Err(failure);
            }
            proof {
                assert(self@.settled() == before.after_schedule(to_schedule@[i as int]).settled());
            }
            i += 1;
        }
        let ghost filled = self@;
        let mut to_cancel: Vec<AnyCommand> = Vec::new();
        to_cancel.append(&mut self.to_cancel);
        let ghost extra = to_cancel@.skip(old(self)@.to_cancel.len() as int);
        let ghost all_scheduled = old(self)@.after_schedules(old(self)@.to_schedule);
        let ghost middle = self@;
        proof {
            assert(to_schedule@.take(i as int) =~= to_schedule@);
            assert(to_cancel@ =~= filled.to_cancel);
            assert(to_cancel@ =~= old(self)@.to_cancel + extra);
            assert(self@.settled() == all_scheduled.settled());
            lemma_wf_frame(filled, self@);
            assert(filled == (SchedulerView { to_cancel: old(self)@.to_cancel + extra, ..middle }));
            lemma_heard_nothing(middle, self@);
        }
        let mut j: usize = 0;
        while j < to_cancel.len()
            invariant
                j <= to_cancel@.len(),
                self@.wf(),
                !self@.in_run_loop,
                old(self)@.same_setup(self@),
                to_schedule@ == old(self)@.to_schedule,
                i == to_schedule@.len(),
                to_cancel@ == old(self)@.to_cancel + extra,
                taken == (SchedulerView { to_schedule: Seq::empty(), ..old(self)@ }),
                taken.heard(SchedulerView { to_cancel: old(self)@.to_cancel + extra, ..middle }),
                middle.to_cancel == Seq::<AnyCommand>::empty(),
                middle.heard(self@),
                all_scheduled == old(self)@.after_schedules(old(self)@.to_schedule),
                self@.settled() == all_scheduled.after_cancels(to_cancel@.take(j as int)).settled(),
            decreases to_cancel@.len() - j,
        {
            let ghost before = self@;
            let ghost so_far = all_scheduled.after_cancels(to_cancel@.take(j as int));
            let cancelled = self.cancel(to_cancel[j]);
            proof {
                if before.cancellation(to_cancel@[j as int]) is Ignored {
                    lemma_heard_nothing(before, self@);
                }
                lemma_heard_transitive(middle, before, self@);
                lemma_settled_agree(before, so_far, to_cancel@[j as int]);
                assert(to_cancel@.take(j + 1).drop_last() =~= to_cancel@.take(j as int));
                assert(before.in_run_loop == before.settled().in_run_loop);
            }
            if let Err(failure) = cancelled {
                proof {
                    assert(so_far.cancel_stopped(self@, to_cancel@[j as int]));
                    lemma_drained_second(old(self)@, middle, self@, extra, i + j);
                    assert(old(self)@.drained(self@, extra, i + j, false));
                }
                return Err(failure);
            }
            proof {
                assert(self@.settled() == before.after_cancel(to_cancel@[j as int]).settled());
            }
            j += 1;
        }
        let outcome = Ok(());
        proof {
            assert(to_cancel@.take(j as int) =~= to_cancel@);
            lemma_drained_second(old(self)@, middle, self@, extra, i + j);
            assert(old(self)@.drained(self@, extra, i + j, outcome is Ok));
        }
        outcome
    }

    /// Lets every registered subsystem fall back on its default command: in
    /// the order of registration, each subsystem that has a default command
    /// and no owner has that command scheduled now. The first hook that fails
    /// stops the operation, and its failure is returned.
    pub fn schedule_defaults(&mut self) -> (outcome: Result<(), CommandError>)
        requires
            old(self)@.wf(),
            !old(self)@.in_run_loop,
        ensures
            final(self)@.wf(),
            old(self)@.same_setup(final(self)@),
            old(self)@.heard(final(self)@),
            old(self)@.to_schedule.is_prefix_of(final(self)@.to_schedule),
            old(self)@.to_cancel.is_prefix_of(final(self)@.to_cancel),
            exists|done: int| #[trigger] old(self)@.defaults_reached(final(self)@, done, outcome is Ok),
    {
        let mut s: usize = 0;
        proof {
            lemma_heard_nothing(old(self)@, self@);
        }
        while s < self.subsystems.len()
            invariant
                s <= self@.subsystems,
                self@.wf(),
                old(self)@.same_setup(self@),
                old(self)@.heard(self@),
                !self@.in_run_loop,
                old(self)@.to_schedule.is_prefix_of(self@.to_schedule),
                old(self)@.to_cancel.is_prefix_of(self@.to_cancel),
                self@.settled() == old(self)@.after_defaults(s as nat).settled(),
            decreases self@.subsystems - s,
        {
            let ghost before = self@;
            let ghost so_far = old(self)@.after_defaults(s as nat);
            proof {
                assert(before.defaults == before.settled().defaults);
                assert(before.owners == before.settled().owners);
            }
            if let Some(default) = id_map_get(&self.defaults, s) {
                if id_map_get(&self.requirements, s).is_none() {
                    let scheduled = self.schedule_now(AnyCommand(default));
                    proof {
                        lemma_heard_transitive(old(self)@, before, self@);
                        lemma_settled_agree(before, so_far, AnyCommand(default));
                        lemma_prefix_transitive(
                            old(self)@.to_schedule,
                            before.to_schedule,
                            self@.to_schedule,
                        );
                        lemma_prefix_transitive(old(self)@.to_cancel, before.to_cancel, self@.to_cancel);
                    }
                    if let Err(failure) = scheduled {
                        proof {
                            let owners = before.admission(AnyCommand(default))->Admitted_0;
                            let done = choose|done: int| #[trigger]
                                before.admission_reached(self@, owners, default, done, false);
                            assert(so_far.admission_reached(self@, owners, default, done, false));
                            assert(so_far.schedule_stopped(self@, AnyCommand(default)));
                            assert(old(self)@.defaults_reached(self@, s as int, false));
                        }
                        return Err(failure);
                    }
                    proof {
                        assert(self@.settled() == before.after_schedule(AnyCommand(default)).settled());
                    }
                }
            }
            s += 1;
        }
        let outcome = Ok(());
        proof {
            assert(old(self)@.defaults_reached(self@, s as int, outcome is Ok));
        }
        outcome
    }

    /// Calls the `periodic` hook of every registered subsystem, in the order
    /// of registration, and in simulation its `sim_periodic` hook after it.
    pub fn tick_subsystems(&mut self, simulated: bool)
        requires
            old(self)@.wf(),
        ensures
            final(self)@.wf(),
            final(self)@ == (SchedulerView {
                trace: old(self)@.trace + periodic_calls(old(self)@.subsystems, simulated),
                ..old(self)@
            }),
    {
        let mut s: usize = 0;
        while s < self.subsystems.len()
            invariant
                s <= self@.subsystems,
                self@ == (SchedulerView {
                    trace: old(self)@.trace + periodic_calls(s as nat, simulated),
                    ..old(self)@
                }),
            decreases self@.subsystems - s,
        {
            let ghost before = self@;
            self.subsystems[s].periodic(AnySubsystem(s));
            proof {
                self.trace@ = self.trace@.push(HookCall::Periodic(AnySubsystem(s)));
            }
            if simulated {
                self.subsystems[s].sim_periodic(AnySubsystem(s));
                proof {
                    self.trace@ = self.trace@.push(HookCall::SimPeriodic(AnySubsystem(s)));
                }
            }
            proof {
                assert(self@.commands =~= before.commands);
                assert(self@.trace =~= old(self)@.trace + periodic_calls((s + 1) as nat, simulated));
            }
            s += 1;
        }
        proof {
            lemma_wf_frame(old(self)@, self@);
        }
    }

    /// The part of a tick that deals with the commands: the pass over the
    /// scheduled commands, then the queued requests, then the fall-back on
    /// the default commands. `disabled` says whether the robot is disabled
    /// during this tick. The first hook that fails stops the tick: its
    /// failure is returned and nothing is undone.
    pub fn run_commands(&mut self, disabled: bool) -> (outcome: Result<(), CommandError>)
        requires
            old(self)@.wf(),
        ensures
            final(self)@.wf(),
            !final(self)@.in_run_loop,
            exists|record: TickRecord| #[trigger]
                old(self)@.commands_ran(final(self)@, disabled, record, outcome is Ok),
    {
        let passed = self.execute_scheduled(disabled);
        let ghost passed_view = self@;
        if passed.is_err() {
            proof {
                let went_well = passed is Ok;
                let (order, finished, ended) = choose|
                    order: Seq<usize>,
                    finished: Seq<bool>,
                    ended: bool,
                |
                    old(self)@.stopped(self@, order, finished, ended);
                let record = TickRecord {
                    steps: Seq::empty(),
                    poll_failed: false,
                    polled: old(self)@,
                    order,
                    finished,
                    ended,
                    passed: self@,
                    extra: Seq::empty(),
                    applied: 0,
                    drained: self@,
                    defaulted: 0,
                };
                assert(old(self)@.commands_ran(self@, disabled, record, went_well));
            }
            return passed;
        }
        proof {
            let (order, finished) = choose|order: Seq<usize>, finished: Seq<bool>|
                old(self)@.passed(self@, order, finished, disabled);
            assert(self@.in_run_loop == self@.settled().in_run_loop);
        }
        let drained = self.apply_deferred();
        let ghost drained_view = self@;
        if let Err(failure) = drained {
            proof {
                let (order, finished) = choose|order: Seq<usize>, finished: Seq<bool>|
                    old(self)@.passed(passed_view, order, finished, disabled);
                let (extra, applied) = choose|extra: Seq<AnyCommand>, applied: int|
                    passed_view.drained(self@, extra, applied, false);
                let record = TickRecord {
                    steps: Seq::empty(),
                    poll_failed: false,
                    polled: old(self)@,
                    order,
                    finished,
                    ended: false,
                    passed: passed_view,
                    extra,
                    applied,
                    drained: self@,
                    defaulted: 0,
                };
                assert(old(self)@.commands_ran(self@, disabled, record, false));
            }
            return Err(failure);
        }
        let defaulted = self.schedule_defaults();
        proof {
            let (order, finished) = choose|order: Seq<usize>, finished: Seq<bool>|
                old(self)@.passed(passed_view, order, finished, disabled);
            let (extra, applied) = choose|extra: Seq<AnyCommand>, applied: int|
                passed_view.drained(drained_view, extra, applied, true);
            let went_well = defaulted is Ok;
            let done = choose|done: int| #[trigger]
                drained_view.defaults_reached(self@, done, went_well);
            let record = TickRecord {
                steps: Seq::empty(),
                poll_failed: false,
                polled: old(self)@,
                order,
                finished,
                ended: false,
                passed: passed_view,
                extra,
                applied,
                drained: drained_view,
                defaulted: done,
            };
            assert(old(self)@.commands_ran(self@, disabled, record, went_well));
        }
        defaulted
    }

    /// Whether `command` is scheduled.
    pub fn is_scheduled(&self, command: AnyCommand) -> (scheduled: bool)
        ensures
            scheduled == self@.scheduled.contains(command.0),
    {
        id_set_contains(&self.scheduled_commands, command.0)
    }

    /// The scheduler as a hook or an action is to see it: the commands that
    /// are scheduled and those that are ending as they are now, and no
    /// request made yet.
    pub fn context(&self) -> (context: SchedulerContext<'_>)
        ensures
            context.scheduled() == self@.scheduled,
            context.ending() == self@.ending,
            context.schedule_requests() == Seq::<AnyCommand>::empty(),
            context.cancel_requests() == Seq::<AnyCommand>::empty(),
    {
        SchedulerContext::new(&self.scheduled_commands, &self.ending_commands)
    }

    /// Acts on what an action of an event loop came to: on what it returned
    /// and on the requests it left.
    ///
    /// If the action failed, its failure is returned and nothing changes: the
    /// requests are dropped. Otherwise the requests to schedule are applied
    /// in order, and then the requests to cancel, each as [`Self::schedule`]
    /// and [`Self::cancel`] do. The first hook that fails stops the
    /// operation, and its failure is returned.
    pub fn apply_requests(
        &mut self,
        acted: Result<(), CommandError>,
        to_schedule: Vec<AnyCommand>,
        to_cancel: Vec<AnyCommand>,
    ) -> (outcome: Result<(), CommandError>)
        requires
            old(self)@.wf(),
        ensures
            final(self)@.wf(),
            old(self)@.same_setup(final(self)@),
            old(self)@.heard(final(self)@),
            match acted {
                Err(failure) => outcome == Err::<(), CommandError>(failure) && final(self)@ == old(self)@,
                Ok(_) => exists|steps: Seq<SchedulerView>| #[trigger]
                    old(self)@.requests_applied(
                        final(self)@,
                        to_schedule@,
                        to_cancel@,
                        steps,
                        outcome is Ok,
                    ),
            },
    {
        proof {
            lemma_heard_nothing(old(self)@, self@);
        }
        if acted.is_err() {
            return acted;
        }
        let ghost mut steps: Seq<SchedulerView> = seq![self@];
        let mut i: usize = 0;
        while i < to_schedule.len()
            invariant
                acted is Ok,
                i <= to_schedule@.len(),
                self@.wf(),
                old(self)@.same_setup(self@),
                old(self)@.heard(self@),
                steps.len() == i + 1,
                steps[0] == old(self)@,
                steps.last() == self@,
                forall|k: int|
                    0 <= k < i ==> (#[trigger] steps[k]).schedule_requested(
                        steps[k + 1],
                        to_schedule@[k],
                        true,
                    ),
            decreases to_schedule@.len() - i,
        {
            let ghost before = self@;
            let ghost earlier = steps;
            let scheduled = self.schedule(to_schedule[i]);
            proof {
                let went_well = scheduled is Ok;
                lemma_schedule_heard(before, self@, to_schedule@[i as int], went_well);
                lemma_heard_transitive(old(self)@, before, self@);
                steps = steps.push(self@);
                assert forall|k: int| 0 <= k < i implies (#[trigger] steps[k]).schedule_requested(
                    steps[k + 1],
                    to_schedule@[k],
                    true,
                ) by {
                    assert(steps[k] == earlier[k]);
                    assert(steps[k + 1] == earlier[k + 1]);
                }
            }
            if scheduled.is_err() {
                proof {
                    let went_well = scheduled is Ok;
                    assert(old(self)@.requests_applied(self@, to_schedule@, to_cancel@, steps, went_well));
                }
                return scheduled;
            }
            i += 1;
        }
        let mut j: usize = 0;
        while j < to_cancel.len()
            invariant
                acted is Ok,
                i == to_schedule@.len(),
                j <= to_cancel@.len(),
                self@.wf(),
                old(self)@.same_setup(self@),
                old(self)@.heard(self@),
                steps.len() == i + j + 1,
                steps[0] == old(self)@,
                steps.last() == self@,
                forall|k: int|
                    0 <= k < i + j ==> if k < to_schedule@.len() {
                        (#[trigger] steps[k]).schedule_requested(steps[k + 1], to_schedule@[k], true)
                    } else {
                        steps[k].cancel_requested(steps[k + 1], to_cancel@[k - to_schedule@.len()], true)
                    },
            decreases to_cancel@.len() - j,
        {
            let ghost before = self@;
            let ghost earlier = steps;
            let cancelled = self.cancel(to_cancel[j]);
            proof {
                let went_well = cancelled is Ok;
                lemma_cancel_heard(before, self@, to_cancel@[j as int], went_well);
                lemma_heard_transitive(old(self)@, before, self@);
                steps = steps.push(self@);
                assert forall|k: int| 0 <= k < i + j implies if k < to_schedule@.len() {
                    (#[trigger] steps[k]).schedule_requested(steps[k + 1], to_schedule@[k], true)
                } else {
                    steps[k].cancel_requested(steps[k + 1], to_cancel@[k - to_schedule@.len()], true)
                } by {
                    assert(steps[k] == earlier[k]);
                    assert(steps[k + 1] == earlier[k + 1]);
                }
            }
            if cancelled.is_err() {
                proof {
                    let went_well = cancelled is Ok;
                    assert(old(self)@.requests_applied(self@, to_schedule@, to_cancel@, steps, went_well));
                }
                return cancelled;
            }
            j += 1;
        }
        let outcome = Ok(());
        proof {
            let went_well = outcome is Ok;
            assert(old(self)@.requests_applied(self@, to_schedule@, to_cancel@, steps, went_well));
        }
        outcome
    }

    /// Whether a tick's pass over the scheduled commands is marked as under
    /// way, so that requests are queued. A pass takes the mark away when it
    /// is over, also when a hook has failed.
    pub fn in_run_loop(&self) -> (marked: bool)
        ensures
            marked == self@.in_run_loop,
    {
        self.in_run_loop
    }

    /// The commands waiting to be scheduled, oldest first.
    pub fn queued_to_schedule(&self) -> (queue: &[AnyCommand])
        ensures
            queue@ == self@.to_schedule,
    {
        self.to_schedule.as_slice()
    }

    /// The commands waiting to be cancelled, oldest first.
    pub fn queued_to_cancel(&self) -> (queue: &[AnyCommand])
        ensures
            queue@ == self@.to_cancel,
    {
        self.to_cancel.as_slice()
    }

    /// The command that owns `subsystem`, if any.
    pub fn requiring(&self, subsystem: AnySubsystem) -> (owner: Option<AnyCommand>)
        ensures
            owner == if self@.owners.contains_key(subsystem.0) {
                Some(AnyCommand(self@.owners[subsystem.0]))
            } else {
                None
            },
    {
        match id_map_get(&self.requirements, subsystem.0) {
            Some(c) => Some(AnyCommand(c)),
            None => None,
        }
    }
}

/// The scheduler: the state of the schedule together with the event loop of
/// the buttons, which is polled in every tick.
pub struct CommandScheduler<S, C, G, A> {
    state: CommandSchedulerState<S, C>,
    button_loop: EventLoop<G, A>,
}

impl<S: Subsystem<C>, C: Command, G: Signal, A: Action> CommandScheduler<S, C, G, A> {
    /// The state of the schedule as mathematics.
    pub closed spec fn view(&self) -> SchedulerView {
        self.state@
    }

    /// The event loop of the buttons as mathematics.
    pub closed spec fn buttons(&self) -> EventLoopView {
        self.button_loop@
    }

    /// Whether the schedule and the event loop of the buttons are well
    /// formed, and no pass over the scheduled commands is marked as under
    /// way.
    pub open spec fn wf(&self) -> bool {
        self@.wf() && !self@.in_run_loop && self.buttons().wf()
    }

    /// A scheduler with no subsystems, no commands, nothing scheduled and no
    /// bindings.
    pub fn new() -> (scheduler: Self)
        ensures
            scheduler.wf(),
            scheduler@.subsystems == 0,
            scheduler@.commands == Seq::<CommandInfo>::empty(),
            scheduler@.defaults == Map::<usize, usize>::empty(),
            scheduler@.scheduled == Set::<usize>::empty(),
            scheduler@.owners == Map::<usize, usize>::empty(),
            !scheduler@.in_run_loop,
            scheduler@.to_schedule == Seq::<AnyCommand>::empty(),
            scheduler@.to_cancel == Seq::<AnyCommand>::empty(),
            scheduler@.trace == Seq::<HookCall>::empty(),
            scheduler.buttons().events == Seq::<Binding>::empty(),
    {
        CommandScheduler { state: CommandSchedulerState::new(), button_loop: EventLoop::new() }
    }

    /// Registers a subsystem with the scheduler and returns its handle. The
    /// subsystem is ticked in every run from now on, and it is asked for its
    /// default command, which is installed if it requires the subsystem.
    pub fn register(&mut self, subsystem: S) -> (handle: AnySubsystem)
        requires
            old(self).wf(),
        ensures
            final(self).wf(),
            final(self).buttons() == old(self).buttons(),
            handle.0 == old(self)@.subsystems,
            exists|default: Option<CommandInfo>| final(self)@ == #[trigger] old(self)@.registered(default),
    {
        self.state.register(subsystem)
    }

    /// Takes a command into the arena and returns its handle. The command is
    /// not scheduled.
    pub fn add_command(&mut self, command: C) -> (handle: AnyCommand)
        requires
            old(self).wf(),
        ensures
            final(self).wf(),
            final(self).buttons() == old(self).buttons(),
            handle.0 == old(self)@.commands.len(),
            final(self)@ == (SchedulerView {
                commands: old(self)@.commands.push(command.info()),
                ..old(self)@
            }),
    {
        self.state.add_command(command)
    }

    /// Schedules a command to run: at once, or, while a tick's pass over the
    /// scheduled commands is under way, by queueing the request.
    pub fn schedule(&mut self, command: AnyCommand) -> (outcome: Result<(), CommandError>)
        requires
            old(self).wf(),
        ensures
            final(self).wf(),
            final(self).buttons() == old(self).buttons(),
            old(self)@.same_setup(final(self)@),
            old(self)@.schedule_requested(final(self)@, command, outcome is Ok),
    {
        self.state.schedule(command)
    }

    /// Cancels a command: see [`CommandSchedulerState::cancel`].
    pub fn cancel(&mut self, command: AnyCommand) -> (outcome: Result<(), CommandError>)
        requires
            old(self).wf(),
        ensures
            final(self).wf(),
            final(self).buttons() == old(self).buttons(),
            old(self)@.same_setup(final(self)@),
            old(self)@.cancel_requested(final(self)@, command, outcome is Ok),
    {
        self.state.cancel(command)
    }

    /// Makes `command` the default command of `subsystem`: see
    /// [`CommandSchedulerState::set_default_command`].
    pub fn set_default_command(&mut self, subsystem: &AnySubsystem, command: AnyCommand) -> (outcome:
        Result<(), SetDefaultCommandError>)
        requires
            old(self).wf(),
        ensures
            final(self).wf(),
            final(self).buttons() == old(self).buttons(),
            outcome == old(self)@.default_check(*subsystem, command),
            final(self)@ == if outcome is Ok {
                SchedulerView {
                    defaults: old(self)@.defaults.insert(subsystem.0, command.0),
                    ..old(self)@
                }
            } else {
                old(self)@
            },
    {
        self.state.set_default_command(subsystem, command)
    }

    /// Takes the default command of `subsystem` away and returns it, if there
    /// was one.
    pub fn remove_default_command(&mut self, subsystem: &AnySubsystem) -> (removed: Option<AnyCommand>)
        requires
            old(self).wf(),
        ensures
            final(self).wf(),
            final(self).buttons() == old(self).buttons(),
            removed == if old(self)@.defaults.contains_key(subsystem.0) {
                Some(AnyCommand(old(self)@.defaults[subsystem.0]))
            } else {
                None
            },
            final(self)@ == (SchedulerView {
                defaults: old(self)@.defaults.remove(subsystem.0),
                ..old(self)@
            }),
    {
        self.state.remove_default_command(subsystem)
    }

    /// Cancels every scheduled command: see
    /// [`CommandSchedulerState::cancel_all`].
    pub fn cancel_all(&mut self) -> (outcome: Result<(), CommandError>)
        requires
            old(self).wf(),
        ensures
            final(self).wf(),
            final(self).buttons() == old(self).buttons(),
            old(self)@.heard(final(self)@),
            old(self)@.to_schedule.is_prefix_of(final(self)@.to_schedule),
            old(self)@.to_cancel.is_prefix_of(final(self)@.to_cancel),
            exists|order: Seq<usize>, done: int| #[trigger]
                old(self)@.cancelled_all(final(self)@, order, done, outcome is Ok),
    {
        let outcome = self.state.cancel_all();
        proof {
            let went_well = outcome is Ok;
            let (order, done) = choose|order: Seq<usize>, done: int| #[trigger]
                old(self)@.cancelled_all(self@, order, done, went_well);
            assert(old(self)@.cancelled_all(self@, order, done, went_well));
        }
        outcome
    }

    /// Whether `command` is scheduled.
    pub fn is_scheduled(&self, command: AnyCommand) -> (scheduled: bool)
        ensures
            scheduled == self@.scheduled.contains(command.0),
    {
        self.state.is_scheduled(command)
    }

    /// The event loop of the buttons, to bind to. Whatever is done to the
    /// loop leaves the schedule as it is.
    pub fn button_event_loop(&mut self) -> (event_loop: &mut EventLoop<G, A>)
        ensures
            event_loop@ == old(self).buttons(),
            final(self).buttons() == final(event_loop)@,
            final(self)@ == old(self)@,
    {
        &mut self.button_loop
    }

    /// Polls an event loop other than that of the buttons, with this
    /// scheduler as the one on which its trigger bindings act.
    pub fn poll(&mut self, event_loop: &mut EventLoop<G, A>) -> (outcome: Result<(), CommandError>)
        requires
            old(self).wf(),
            old(event_loop)@.wf(),
        ensures
            final(self).wf(),
            final(self).buttons() == old(self).buttons(),
            old(self)@.same_setup(final(self)@),
            final(event_loop)@.wf(),
            old(event_loop)@.same_bindings(final(event_loop)@),
            exists|steps: Seq<PollState>| #[trigger]
                old(event_loop)@.polling(
                    old(self)@,
                    final(event_loop)@,
                    final(self)@,
                    steps,
                    outcome is Ok,
                ),
    {
        let outcome = event_loop.poll(&mut self.state);
        proof {
            let went_well = outcome is Ok;
            let steps = choose|steps: Seq<PollState>| #[trigger]
                old(event_loop)@.polling(old(self)@, event_loop@, self@, steps, went_well);
            assert(old(event_loop)@.polling(old(self)@, event_loop@, self@, steps, went_well));
        }
        outcome
    }

    /// One tick of the scheduler.
    ///
    /// Every registered subsystem is ticked. The event loop of the buttons is
    /// polled; what its trigger bindings schedule and cancel takes effect at
    /// once. Then comes the part that deals with the commands:
    /// see [`CommandSchedulerState::run_commands`], for which the robot
    /// counts as disabled if `mode` says so. `simulated` says whether the
    /// robot runs in simulation.
    ///
    /// The first binding or hook that fails stops the tick: its failure is
    /// returned and nothing is undone.
    pub fn run(&mut self, mode: CompetitionMode, simulated: bool) -> (outcome: Result<(), CommandError>)
        requires
            old(self).wf(),
        ensures
            final(self).wf(),
            old(self).buttons().same_bindings(final(self).buttons()),
            exists|record: TickRecord| #[trigger]
                old(self)@.ticked(
                    old(self).buttons(),
                    final(self)@,
                    final(self).buttons(),
                    mode,
                    simulated,
                    record,
                    outcome is Ok,
                ),
    {
        self.state.tick_subsystems(simulated);
        let ghost ticked_view = self@;
        let polled = self.button_loop.poll(&mut self.state);
        let ghost polled_view = self@;
        let ghost steps = choose|steps: Seq<PollState>| #[trigger]
            old(self).buttons().polling(
                ticked_view,
                self.buttons(),
                polled_view,
                steps,
                polled is Ok,
            );
        let disabled = match mode {
            CompetitionMode::Disabled => true,
            _ => false,
        };
        if polled.is_err() {
            proof {
                let went_well = polled is Ok;
                let record = TickRecord {
                    steps,
                    poll_failed: true,
                    polled: polled_view,
                    order: Seq::empty(),
                    finished: Seq::empty(),
                    ended: false,
                    passed: polled_view,
                    extra: Seq::empty(),
                    applied: 0,
                    drained: polled_view,
                    defaulted: 0,
                };
                assert(old(self)@.ticked(
                    old(self).buttons(),
                    self@,
                    self.buttons(),
                    mode,
                    simulated,
                    record,
                    went_well,
                ));
            }
            return polled;
        }
        let ran = self.state.run_commands(disabled);
        proof {
            let went_well = ran is Ok;
            let commands = choose|record: TickRecord| #[trigger]
                polled_view.commands_ran(self@, disabled, record, went_well);
            let record = TickRecord { steps, poll_failed: false, polled: polled_view, ..commands };
            assert(polled_view.commands_ran(self@, disabled, record, went_well));
            assert(old(self)@.ticked(
                old(self).buttons(),
                self@,
                self.buttons(),
                mode,
                simulated,
                record,
                went_well,
            ));
        }
        ran
    }
}

} // verus!
