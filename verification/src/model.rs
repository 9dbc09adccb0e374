//! The scheduler as mathematics: what it holds, and what each of its steps
//! makes of it.
use vstd::prelude::*;
use crate::command::{CommandInfo, InterruptionBehavior};
use crate::event::{EventLoopView, PollState};
use crate::robot::CompetitionMode;
use crate::{AnyCommand, AnySubsystem, SetDefaultCommandError};

verus! {

/// One call that the scheduler made into a command or a subsystem.
pub enum HookCall {
    Initialize(AnyCommand),
    Execute(AnyCommand),
    /// `End(command, interrupted)`.
    End(AnyCommand, bool),
    Periodic(AnySubsystem),
    SimPeriodic(AnySubsystem),
}

/// The distinct values that `owners` holds for the subsystems in
/// `requirements`, in the order in which the requirements name them first.
pub open spec fn distinct_owners(owners: Map<usize, usize>, requirements: Seq<AnySubsystem>) -> Seq<
    usize,
>
    decreases requirements.len(),
{
    if requirements.len() == 0 {
        Seq::empty()
    } else {
        let earlier = distinct_owners(owners, requirements.drop_last());
        let s = requirements.last().0;
        if owners.contains_key(s) && !earlier.contains(owners[s]) {
            earlier.push(owners[s])
        } else {
            earlier
        }
    }
}

/// The calls that one tick makes into the subsystems in the slots `0..n`:
/// `periodic` for each in turn, followed in simulation by `sim_periodic`.
pub open spec fn periodic_calls(n: nat, simulated: bool) -> Seq<HookCall>
    decreases n,
{
    if n == 0 {
        Seq::empty()
    } else {
        let earlier = periodic_calls((n - 1) as nat, simulated).push(
            HookCall::Periodic(AnySubsystem((n - 1) as usize)),
        );
        if simulated {
            earlier.push(HookCall::SimPeriodic(AnySubsystem((n - 1) as usize)))
        } else {
            earlier
        }
    }
}

/// What a request to cancel a command comes to.
pub enum Cancellation {
    /// Nothing happens: the command is ending already, or it is not
    /// scheduled.
    Ignored,
    /// The request joins the queue: a tick's pass over the scheduled commands
    /// is under way.
    Deferred,
    /// The command's `end(true)` is called and, if it succeeds, the command
    /// leaves the schedule.
    Interrupts,
}

/// What a request to schedule a command now comes to.
pub enum Admission {
    /// Nothing happens: the command is scheduled already, or the handle names
    /// no command of this scheduler.
    Ignored,
    /// Nothing happens: one of the commands that own a subsystem the incoming
    /// command requires declares `CancelIncoming`.
    Rejected,
    /// The commands in the given slots are cancelled, in this order, and then
    /// the incoming command is initialized.
    Admitted(Seq<usize>),
}

/// How a tick went: what the scheduler could not know beforehand.
pub struct TickRecord {
    /// The states that the poll of the buttons went through.
    pub steps: Seq<PollState>,
    /// Whether a binding of the buttons failed, so that the tick stopped
    /// there.
    pub poll_failed: bool,
    /// The scheduler after the poll.
    pub polled: SchedulerView,
    /// The order in which the pass took the scheduled commands.
    pub order: Seq<usize>,
    /// Which of them said that they were finished, in the same order.
    pub finished: Seq<bool>,
    /// Whether the pass stopped in an `end(false)` that failed.
    pub ended: bool,
    /// The scheduler after the pass.
    pub passed: SchedulerView,
    /// The requests to cancel that hooks left while the queued requests to
    /// schedule were applied.
    pub extra: Seq<AnyCommand>,
    /// How many queued requests were applied before a hook failed, if one
    /// did.
    pub applied: int,
    /// The scheduler after the queued requests were applied.
    pub drained: SchedulerView,
    /// How many subsystems had their turn to fall back on their default
    /// command before a hook failed, if one did.
    pub defaulted: int,
}

/// What a hook of a command is shown of the scheduler.
pub struct Shown {
    /// The commands that are scheduled.
    pub scheduled: Set<usize>,
    /// The commands that are inside their own `end`.
    pub ending: Set<usize>,
}

/// The scheduler as mathematics.
pub struct SchedulerView {
    /// How many subsystems are registered: the slots `0..subsystems`.
    pub subsystems: nat,
    /// What each command declares, by slot.
    pub commands: Seq<CommandInfo>,
    /// The default command of each subsystem that has one.
    pub defaults: Map<usize, usize>,
    /// The commands that were initialized and have not ended.
    pub scheduled: Set<usize>,
    /// The command that currently owns each owned subsystem.
    pub owners: Map<usize, usize>,
    /// The commands that are inside their own `end`.
    pub ending: Set<usize>,
    /// Whether a tick's pass over the scheduled commands is under way.
    pub in_run_loop: bool,
    /// The commands waiting to be scheduled, oldest first.
    pub to_schedule: Seq<AnyCommand>,
    /// The commands waiting to be cancelled, oldest first.
    pub to_cancel: Seq<AnyCommand>,
    /// Every request to schedule that was ever put in the queue, oldest
    /// first.
    pub schedule_log: Seq<AnyCommand>,
    /// Every request to cancel that was ever put in the queue, oldest first.
    pub cancel_log: Seq<AnyCommand>,
    /// What each hook of a command was shown of the scheduler when it was
    /// called, oldest first.
    pub shown: Seq<Shown>,
    /// Every hook call made so far, oldest first.
    pub trace: Seq<HookCall>,
}

impl SchedulerView {
    /// Whether `command` names a command of this scheduler.
    pub open spec fn knows(self, command: AnyCommand) -> bool {
        command.0 < self.commands.len()
    }

    /// The subsystems that the command in slot `c` requires.
    pub open spec fn requirements(self, c: usize) -> Seq<AnySubsystem> {
        self.commands[c as int].requirements
    }

    /// The subsystems can be counted, every scheduled command owns all the
    /// subsystems it requires and no others, every default command requires
    /// its subsystem, and no command is ending.
    pub open spec fn wf(self) -> bool {
        &&& self.subsystems <= usize::MAX
        &&& forall|c: usize| #[trigger] self.scheduled.contains(c) ==> c < self.commands.len()
        &&& forall|s: usize| #[trigger]
            self.owners.contains_key(s) ==> self.scheduled.contains(self.owners[s])
                && self.requirements(self.owners[s]).contains(AnySubsystem(s))
        &&& forall|c: usize, s: AnySubsystem|
            self.scheduled.contains(c) && #[trigger] self.requirements(c).contains(s)
                ==> self.owners.contains_key(s.0) && self.owners[s.0] == c
        &&& forall|s: usize| #[trigger]
            self.defaults.contains_key(s) ==> s < self.subsystems && self.defaults[s]
                < self.commands.len() && self.requirements(self.defaults[s]).contains(
                AnySubsystem(s),
            )
        &&& self.ending == Set::<usize>::empty()
    }

    /// Whether `other` has the same subsystems, commands and default commands
    /// as this view, and the same mark of a pass under way.
    pub open spec fn same_setup(self, other: Self) -> bool {
        &&& other.subsystems == self.subsystems
        &&& other.commands == self.commands
        &&& other.defaults == self.defaults
        &&& other.ending == self.ending
        &&& other.in_run_loop == self.in_run_loop
    }

    /// Whether `other` has the same subsystems, commands and default commands
    /// as this view.
    pub open spec fn same_arenas(self, other: Self) -> bool {
        &&& other.subsystems == self.subsystems
        &&& other.commands == self.commands
        &&& other.defaults == self.defaults
    }

    /// The view without what depends on the requests that hooks leave and
    /// on what hooks are shown: both request queues and their logs emptied,
    /// and the record of what hooks were shown emptied.
    pub open spec fn settled(self) -> Self {
        SchedulerView {
            to_schedule: Seq::empty(),
            to_cancel: Seq::empty(),
            schedule_log: Seq::empty(),
            cancel_log: Seq::empty(),
            shown: Seq::empty(),
            ..self
        }
    }

    /// The view after the requests `to_schedule` and `to_cancel` have been
    /// put at the end of the queues.
    pub open spec fn asked(self, to_schedule: Seq<AnyCommand>, to_cancel: Seq<AnyCommand>) -> Self {
        SchedulerView {
            to_schedule: self.to_schedule + to_schedule,
            to_cancel: self.to_cancel + to_cancel,
            schedule_log: self.schedule_log + to_schedule,
            cancel_log: self.cancel_log + to_cancel,
            ..self
        }
    }

    /// The view after a hook has been shown the commands `scheduled` as
    /// scheduled and the commands `ending` as ending.
    pub open spec fn showing(self, scheduled: Set<usize>, ending: Set<usize>) -> Self {
        SchedulerView { shown: self.shown.push(Shown { scheduled, ending }), ..self }
    }

    /// Whether the queues of `after` are the queues of this view with, behind
    /// them, every request that was put in a queue in between, in the order
    /// of the logs.
    pub open spec fn heard(self, after: Self) -> bool {
        &&& self.schedule_log.is_prefix_of(after.schedule_log)
        &&& self.cancel_log.is_prefix_of(after.cancel_log)
        &&& after.to_schedule == self.to_schedule + after.schedule_log.skip(
            self.schedule_log.len() as int,
        )
        &&& after.to_cancel == self.to_cancel + after.cancel_log.skip(self.cancel_log.len() as int)
    }

    /// The view after one more hook call.
    pub open spec fn logged(self, call: HookCall) -> Self {
        SchedulerView { trace: self.trace.push(call), ..self }
    }

    /// Whether `command` may become the default command of `subsystem`: it
    /// has to require the subsystem, and the subsystem has to be registered.
    pub open spec fn default_check(self, subsystem: AnySubsystem, command: AnyCommand) -> Result<
        (),
        SetDefaultCommandError,
    > {
        if !self.knows(command) || !self.requirements(command.0).contains(subsystem) {
            Err(SetDefaultCommandError::MustRequireSubsystem)
        } else if subsystem.0 >= self.subsystems {
            Err(SetDefaultCommandError::NotRegistered)
        } else {
            Ok(())
        }
    }

    /// Whether `order` lists the scheduled commands, each once.
    pub open spec fn lists_scheduled(self, order: Seq<usize>) -> bool {
        order.no_duplicates() && order.to_set() == self.scheduled
    }

    /// The view after a subsystem has been registered whose default command,
    /// if it has one, declares `default`.
    pub open spec fn registered(self, default: Option<CommandInfo>) -> Self {
        match default {
            None => SchedulerView { subsystems: self.subsystems + 1, ..self },
            Some(info) => SchedulerView {
                subsystems: self.subsystems + 1,
                commands: self.commands.push(info),
                defaults: if info.requirements.contains(AnySubsystem(self.subsystems as usize)) {
                    self.defaults.insert(self.subsystems as usize, self.commands.len() as usize)
                } else {
                    self.defaults
                },
                ..self
            },
        }
    }

    /// What a request to cancel `command` comes to.
    pub open spec fn cancellation(self, command: AnyCommand) -> Cancellation {
        if self.ending.contains(command.0) {
            Cancellation::Ignored
        } else if self.in_run_loop {
            Cancellation::Deferred
        } else if !self.scheduled.contains(command.0) {
            Cancellation::Ignored
        } else {
            Cancellation::Interrupts
        }
    }

    /// The distinct commands that own one of `requirements`, in the order in
    /// which the requirements name them first.
    pub open spec fn conflicting_owners(self, requirements: Seq<AnySubsystem>) -> Seq<usize> {
        distinct_owners(self.owners, requirements)
    }

    /// Whether the command in slot `c` owns the subsystem that
    /// `requirements[i]` names.
    pub open spec fn owns_at(self, c: usize, requirements: Seq<AnySubsystem>, i: int) -> bool {
        0 <= i < requirements.len() && self.owners.contains_key(requirements[i].0)
            && self.owners[requirements[i].0] == c
    }

    /// Whether the command in slot `c` owns one of `requirements`.
    pub open spec fn owns_one_of(self, c: usize, requirements: Seq<AnySubsystem>) -> bool {
        exists|i: int| self.owns_at(c, requirements, i)
    }

    /// Whether one of the commands in the slots `owners` declares
    /// `CancelIncoming`.
    pub open spec fn any_refuses(self, owners: Seq<usize>) -> bool {
        exists|j: int|
            0 <= j < owners.len() && (#[trigger] self.commands[owners[j] as int]).interruption_behavior
                == InterruptionBehavior::CancelIncoming
    }

    /// What a request to schedule `command` now comes to.
    pub open spec fn admission(self, command: AnyCommand) -> Admission {
        if !self.knows(command) || self.scheduled.contains(command.0) {
            Admission::Ignored
        } else {
            let owners = self.conflicting_owners(self.requirements(command.0));
            if self.any_refuses(owners) {
                Admission::Rejected
            } else {
                Admission::Admitted(owners)
            }
        }
    }

    /// The view after each of the commands in the slots `cs` has had its
    /// `end(true)` called and has left the schedule, in this order.
    pub open spec fn interrupted_all(self, cs: Seq<usize>) -> Self
        decreases cs.len(),
    {
        if cs.len() == 0 {
            self
        } else {
            self.interrupted_all(cs.drop_last()).retired(cs.last()).logged(
                HookCall::End(AnyCommand(cs.last()), true),
            )
        }
    }

    /// The view after an admission that interrupts `owners` has made `done`
    /// hook calls, the last of which may have failed: the owners' `end(true)`
    /// first, then the `initialize` of the command in slot `c`.
    pub open spec fn admission_after(self, owners: Seq<usize>, c: usize, done: int) -> Self {
        if done <= 0 {
            self
        } else if done <= owners.len() {
            self.interrupted_all(owners.take(done - 1)).logged(
                HookCall::End(AnyCommand(owners[done - 1]), true),
            )
        } else {
            self.interrupted_all(owners).admitted(c).logged(HookCall::Initialize(AnyCommand(c)))
        }
    }

    /// Whether `after` is what an admission that interrupts `owners` leaves
    /// once it has made `done` hook calls: all of them if it went well, and
    /// otherwise those up to the one that failed. Where `initialize` was
    /// called, it was shown the schedule as it is afterwards, the command
    /// itself among the scheduled. The request queues are left out of the
    /// comparison.
    pub open spec fn admission_reached(
        self,
        after: Self,
        owners: Seq<usize>,
        c: usize,
        done: int,
        went_well: bool,
    ) -> bool {
        &&& 1 <= done <= owners.len() + 1
        &&& went_well ==> done == owners.len() + 1
        &&& after.settled() == self.admission_after(owners, c, done).settled()
        &&& done == owners.len() + 1 ==> after.shown.len() > 0 && after.shown.last() == (Shown {
            scheduled: after.scheduled,
            ending: after.ending,
        })
    }

    /// Whether `after` is what cancelling the scheduled commands in the order
    /// `order` leaves once `done` of them have been dealt with: all of them if
    /// it went well, and otherwise those up to the one whose `end(true)`
    /// failed. The request queues are left out of the comparison unless a
    /// tick's pass is under way, when the requests are queued and nothing
    /// else changes.
    pub open spec fn cancelled_all(
        self,
        after: Self,
        order: Seq<usize>,
        done: int,
        went_well: bool,
    ) -> bool {
        &&& self.lists_scheduled(order)
        &&& 0 <= done <= order.len()
        &&& went_well ==> done == order.len()
        &&& if self.in_run_loop {
            went_well && after == SchedulerView {
                to_cancel: self.to_cancel + order.map_values(|c: usize| AnyCommand(c)),
                cancel_log: self.cancel_log + order.map_values(|c: usize| AnyCommand(c)),
                ..self
            }
        } else if went_well {
            after.settled() == self.interrupted_all(order).settled()
        } else {
            done >= 1 && after.settled() == self.interrupted_all(order.take(done - 1)).logged(
                HookCall::End(AnyCommand(order[done - 1]), true),
            ).settled()
        }
    }

    /// The view after a tick's pass over the commands in the slots `order`:
    /// each has its `execute` called, and those marked in `finished` then
    /// have their `end(false)` called and leave the schedule.
    pub open spec fn ran(self, order: Seq<usize>, finished: Seq<bool>) -> Self
        decreases order.len(),
    {
        if order.len() == 0 {
            self
        } else {
            let executed = self.ran(order.drop_last(), finished.drop_last()).logged(
                HookCall::Execute(AnyCommand(order.last())),
            );
            if finished.last() {
                executed.retired(order.last()).logged(HookCall::End(AnyCommand(order.last()), false))
            } else {
                executed
            }
        }
    }

    /// Whether `after` is what a tick's pass over the scheduled commands
    /// leaves when every hook succeeds: the pass over the commands in the
    /// order `order`, of which those marked in `finished` are done. If the
    /// robot is disabled, a request to cancel each command that does not run
    /// when disabled is in the queue. The request queues are otherwise left
    /// out of the comparison.
    pub open spec fn passed(
        self,
        after: Self,
        order: Seq<usize>,
        finished: Seq<bool>,
        disabled: bool,
    ) -> bool {
        &&& self.lists_scheduled(order)
        &&& finished.len() == order.len()
        &&& after.settled() == (SchedulerView {
            in_run_loop: false,
            ..self.ran(order, finished)
        }).settled()
        &&& disabled ==> forall|c: usize| #[trigger]
            self.scheduled.contains(c) && !self.commands[c as int].runs_when_disabled
                ==> after.to_cancel.contains(AnyCommand(c))
    }

    /// Whether `after` is what a tick's pass over the scheduled commands
    /// leaves when a hook of the command in slot `order[finished.len()]`
    /// fails: the pass over the commands before it, then its `execute`, and,
    /// if `ended`, its `end(false)`, which failed. The command stays
    /// scheduled, and the pass is no longer marked as under way. The request
    /// queues are left out of the comparison.
    pub open spec fn stopped(
        self,
        after: Self,
        order: Seq<usize>,
        finished: Seq<bool>,
        ended: bool,
    ) -> bool {
        let c = order[finished.len() as int];
        let executed = self.ran(order.take(finished.len() as int), finished).logged(
            HookCall::Execute(AnyCommand(c)),
        );
        &&& self.lists_scheduled(order)
        &&& finished.len() < order.len()
        &&& after.settled() == (SchedulerView {
            in_run_loop: false,
            ..if ended {
                executed.logged(HookCall::End(AnyCommand(c), false))
            } else {
                executed
            }
        }).settled()
    }

    /// Whether `after` is what a request to schedule `command` now leaves. A
    /// request that is ignored or rejected changes nothing and goes well.
    /// One that is admitted leaves what [`Self::admission_reached`] says, and
    /// the request queues grow by what the hooks asked for.
    pub open spec fn scheduled_now(self, after: Self, command: AnyCommand, went_well: bool) -> bool {
        &&& self.to_schedule.is_prefix_of(after.to_schedule)
        &&& self.to_cancel.is_prefix_of(after.to_cancel)
        &&& self.heard(after)
        &&& match self.admission(command) {
            Admission::Ignored => went_well && after == self,
            Admission::Rejected => went_well && after == self,
            Admission::Admitted(owners) => exists|done: int| #[trigger]
                self.admission_reached(after, owners, command.0, done, went_well),
        }
    }

    /// Whether `after` is what a request to schedule `command` leaves: while
    /// a tick's pass over the scheduled commands is under way the request is
    /// queued, and otherwise the command is scheduled now.
    pub open spec fn schedule_requested(self, after: Self, command: AnyCommand, went_well: bool) -> bool {
        if self.in_run_loop {
            went_well && after == (SchedulerView {
                to_schedule: self.to_schedule.push(command),
                schedule_log: self.schedule_log.push(command),
                ..self
            })
        } else {
            self.scheduled_now(after, command, went_well)
        }
    }

    /// Whether `after` is what a request to cancel `command` leaves. A
    /// request that is ignored changes nothing, and one that is deferred
    /// joins the queue; both go well. One that interrupts the command has its
    /// `end(true)` called; the command leaves the schedule if the hook
    /// succeeds and stays if it fails, and the request queues grow by what
    /// the hook asked for.
    pub open spec fn cancel_requested(self, after: Self, command: AnyCommand, went_well: bool) -> bool {
        match self.cancellation(command) {
            Cancellation::Ignored => went_well && after == self,
            Cancellation::Deferred => went_well && after == (SchedulerView {
                to_cancel: self.to_cancel.push(command),
                cancel_log: self.cancel_log.push(command),
                ..self
            }),
            Cancellation::Interrupts => {
                &&& self.to_schedule.is_prefix_of(after.to_schedule)
                &&& self.to_cancel.is_prefix_of(after.to_cancel)
                &&& self.heard(after)
                &&& after.shown == self.shown.push(
                    Shown { scheduled: self.scheduled, ending: self.ending.insert(command.0) },
                )
                &&& after.settled() == (if went_well {
                    self.retired(command.0)
                } else {
                    self
                }).logged(HookCall::End(command, true)).settled()
            },
        }
    }

    /// Whether applying the requests to schedule `to_schedule` and then the
    /// requests to cancel `to_cancel`, each in order, leads from this view to
    /// `after` by way of `steps`: the view before each request that was
    /// applied, and at the end the view after the last. If all went well,
    /// every request was applied; otherwise a hook failed while the last one
    /// was applied. Each request comes to what [`Self::schedule_requested`]
    /// and [`Self::cancel_requested`] say.
    pub open spec fn requests_applied(
        self,
        after: Self,
        to_schedule: Seq<AnyCommand>,
        to_cancel: Seq<AnyCommand>,
        steps: Seq<SchedulerView>,
        went_well: bool,
    ) -> bool {
        &&& 1 <= steps.len() <= to_schedule.len() + to_cancel.len() + 1
        &&& steps[0] == self
        &&& steps.last() == after
        &&& went_well ==> steps.len() == to_schedule.len() + to_cancel.len() + 1
        &&& !went_well ==> steps.len() >= 2
        &&& forall|i: int|
            0 <= i < steps.len() - 1 ==> if i < to_schedule.len() {
                (#[trigger] steps[i]).schedule_requested(
                    steps[i + 1],
                    to_schedule[i],
                    went_well || i < steps.len() - 2,
                )
            } else {
                steps[i].cancel_requested(
                    steps[i + 1],
                    to_cancel[i - to_schedule.len()],
                    went_well || i < steps.len() - 2,
                )
            }
    }

    /// The view after `command` has been scheduled now and every hook
    /// succeeded.
    pub open spec fn after_schedule(self, command: AnyCommand) -> Self {
        match self.admission(command) {
            Admission::Admitted(owners) => self.admission_after(
                owners,
                command.0,
                (owners.len() + 1) as int,
            ),
            _ => self,
        }
    }

    /// The view after each of `commands` has been scheduled now, in this
    /// order, and every hook succeeded.
    pub open spec fn after_schedules(self, commands: Seq<AnyCommand>) -> Self
        decreases commands.len(),
    {
        if commands.len() == 0 {
            self
        } else {
            self.after_schedules(commands.drop_last()).after_schedule(commands.last())
        }
    }

    /// Whether `after` is what a request to schedule `command` now leaves
    /// when one of its hooks fails. The request queues are left out of the
    /// comparison.
    pub open spec fn schedule_stopped(self, after: Self, command: AnyCommand) -> bool {
        match self.admission(command) {
            Admission::Admitted(owners) => exists|done: int| #[trigger]
                self.admission_reached(after, owners, command.0, done, false),
            _ => false,
        }
    }

    /// The view after `command` has been cancelled and its `end(true)`, if it
    /// was called, succeeded.
    pub open spec fn after_cancel(self, command: AnyCommand) -> Self {
        match self.cancellation(command) {
            Cancellation::Ignored => self,
            Cancellation::Deferred => SchedulerView {
                to_cancel: self.to_cancel.push(command),
                cancel_log: self.cancel_log.push(command),
                ..self
            },
            Cancellation::Interrupts => self.retired(command.0).logged(HookCall::End(command, true)),
        }
    }

    /// The view after each of `commands` has been cancelled, in this order,
    /// and every `end(true)` succeeded.
    pub open spec fn after_cancels(self, commands: Seq<AnyCommand>) -> Self
        decreases commands.len(),
    {
        if commands.len() == 0 {
            self
        } else {
            self.after_cancels(commands.drop_last()).after_cancel(commands.last())
        }
    }

    /// Whether `after` is what a request to cancel `command` leaves when its
    /// `end(true)` fails. The request queues are left out of the comparison.
    pub open spec fn cancel_stopped(self, after: Self, command: AnyCommand) -> bool {
        self.cancellation(command) == Cancellation::Interrupts && after.settled() == self.logged(
            HookCall::End(command, true),
        ).settled()
    }

    /// What the queues hold once the queued requests have been applied, `done`
    /// of them before a hook failed, if one did. The queue of requests to
    /// schedule was emptied at the start, so it holds what was queued since.
    /// The queue of requests to cancel was emptied once the requests to
    /// schedule had all been applied: before that it holds what it held and
    /// what was queued since, and after that what was queued since it was
    /// emptied, `extra` being what was queued before.
    pub open spec fn drained_queues(self, after: Self, extra: Seq<AnyCommand>, done: int) -> bool {
        let logged = self.cancel_log.len() as int;
        &&& self.schedule_log.is_prefix_of(after.schedule_log)
        &&& self.cancel_log.is_prefix_of(after.cancel_log)
        &&& after.to_schedule == after.schedule_log.skip(self.schedule_log.len() as int)
        &&& if done < self.to_schedule.len() {
            after.to_cancel == self.to_cancel + after.cancel_log.skip(logged)
        } else {
            &&& logged + extra.len() <= after.cancel_log.len()
            &&& extra == after.cancel_log.subrange(logged, logged + extra.len())
            &&& after.to_cancel == after.cancel_log.skip(logged + extra.len())
        }
    }

    /// Whether `after` is what applying the queued requests leaves: first the
    /// requests to schedule, then the requests to cancel, to which the hooks
    /// called on the way added `extra`. If all went well, all `done` requests
    /// were applied; otherwise a hook failed while request number `done` was
    /// applied, and the requests behind it were dropped. What the queues hold
    /// afterwards is what [`Self::drained_queues`] says.
    pub open spec fn drained(
        self,
        after: Self,
        extra: Seq<AnyCommand>,
        done: int,
        went_well: bool,
    ) -> bool {
        let to_schedule = self.to_schedule;
        let to_cancel = self.to_cancel + extra;
        let scheduled = self.after_schedules(to_schedule);
        &&& 0 <= done <= to_schedule.len() + to_cancel.len()
        &&& self.drained_queues(after, extra, done)
        &&& went_well ==> done == to_schedule.len() + to_cancel.len() && after.settled()
            == scheduled.after_cancels(to_cancel).settled()
        &&& !went_well ==> done < to_schedule.len() + to_cancel.len() && if done
            < to_schedule.len() {
            self.after_schedules(to_schedule.take(done)).schedule_stopped(after, to_schedule[done])
        } else {
            scheduled.after_cancels(to_cancel.take(done - to_schedule.len())).cancel_stopped(
                after,
                to_cancel[done - to_schedule.len()],
            )
        }
    }

    /// The view after the subsystem in slot `s` has had its turn to fall back
    /// on its default command: a subsystem that has a default command and no
    /// owner has that command scheduled now.
    pub open spec fn after_default(self, s: usize) -> Self {
        if self.defaults.contains_key(s) && !self.owners.contains_key(s) {
            self.after_schedule(AnyCommand(self.defaults[s]))
        } else {
            self
        }
    }

    /// The view after the subsystems in the slots `0..n` have had their turn
    /// to fall back on their default commands, in this order, and every hook
    /// succeeded.
    pub open spec fn after_defaults(self, n: nat) -> Self
        decreases n,
    {
        if n == 0 {
            self
        } else {
            self.after_defaults((n - 1) as nat).after_default((n - 1) as usize)
        }
    }

    /// Whether `after` is what the fall-back on the default commands leaves:
    /// if all went well, every registered subsystem has had its turn;
    /// otherwise a hook failed while the default command of the subsystem in
    /// slot `done` was scheduled. The request queues are left out of the
    /// comparison.
    pub open spec fn defaults_reached(self, after: Self, done: int, went_well: bool) -> bool {
        &&& 0 <= done <= self.subsystems
        &&& went_well ==> done == self.subsystems && after.settled() == self.after_defaults(
            self.subsystems,
        ).settled()
        &&& !went_well ==> {
            let before = self.after_defaults(done as nat);
            &&& done < self.subsystems
            &&& before.defaults.contains_key(done as usize)
            &&& !before.owners.contains_key(done as usize)
            &&& before.schedule_stopped(after, AnyCommand(before.defaults[done as usize]))
        }
    }

    /// Whether `after` is what the part of a tick that deals with the
    /// commands leaves, given how it went: the pass over the scheduled
    /// commands, then the queued requests, then the fall-back on the default
    /// commands. If a hook failed, the tick stopped in the step in which it
    /// failed.
    pub open spec fn commands_ran(
        self,
        after: Self,
        disabled: bool,
        record: TickRecord,
        went_well: bool,
    ) -> bool {
        if went_well {
            &&& self.passed(record.passed, record.order, record.finished, disabled)
            &&& self.heard(record.passed)
            &&& record.drained.heard(after)
            &&& record.passed.wf()
            &&& record.passed.drained(record.drained, record.extra, record.applied, true)
            &&& record.drained.wf()
            &&& self.same_arenas(record.drained)
            &&& !record.drained.in_run_loop
            &&& record.drained.defaults_reached(after, record.defaulted, true)
        } else {
            ||| self.stopped(after, record.order, record.finished, record.ended)
            ||| {
                &&& self.passed(record.passed, record.order, record.finished, disabled)
                &&& record.passed.drained(after, record.extra, record.applied, false)
            }
            ||| {
                &&& self.passed(record.passed, record.order, record.finished, disabled)
                &&& record.passed.drained(record.drained, record.extra, record.applied, true)
                &&& record.drained.defaults_reached(after, record.defaulted, false)
            }
        }
    }

    /// Whether `after` and `buttons_after` are what one tick makes of this
    /// scheduler and of the event loop `buttons`, given how it went. The
    /// subsystems are ticked; the event loop is polled, which leaves the
    /// scheduler as `record.polled`; and the commands are dealt with. If a
    /// binding of the event loop failed, the tick stopped there.
    pub open spec fn ticked(
        self,
        buttons: EventLoopView,
        after: Self,
        buttons_after: EventLoopView,
        mode: CompetitionMode,
        simulated: bool,
        record: TickRecord,
        went_well: bool,
    ) -> bool {
        let ticked = SchedulerView {
            trace: self.trace + periodic_calls(self.subsystems, simulated),
            ..self
        };
        &&& record.polled.wf()
        &&& ticked.same_setup(record.polled)
        &&& buttons.polling(ticked, buttons_after, record.polled, record.steps, !record.poll_failed)
        &&& if record.poll_failed {
            !went_well && after == record.polled
        } else {
            record.polled.commands_ran(after, mode == CompetitionMode::Disabled, record, went_well)
        }
    }

    /// The view after the command in slot `c` has claimed every subsystem it
    /// requires and joined the scheduled commands.
    pub open spec fn admitted(self, c: usize) -> Self {
        let requirements = self.requirements(c);
        SchedulerView {
            scheduled: self.scheduled.insert(c),
            owners: Map::new(
                |s: usize| self.owners.contains_key(s) || requirements.contains(AnySubsystem(s)),
                |s: usize|
                    if requirements.contains(AnySubsystem(s)) {
                        c
                    } else {
                        self.owners[s]
                    },
            ),
            ..self
        }
    }

    /// The view after the command in slot `c` has left the scheduled commands
    /// and given up every subsystem it owned.
    pub open spec fn retired(self, c: usize) -> Self {
        SchedulerView {
            scheduled: self.scheduled.remove(c),
            owners: Map::new(
                |s: usize| self.owners.contains_key(s) && self.owners[s] != c,
                |s: usize| self.owners[s],
            ),
            ..self
        }
    }
}

} // verus!
