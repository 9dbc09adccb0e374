//! What follows from the contracts of the scheduler and of the event loop.
use vstd::prelude::*;
use crate::command::InterruptionBehavior;
use crate::event::{
    Binding, Condition, Edge, EdgeAction, EventLoopView, PollState, condition_reads, derived_value,
    edge_decision, lemma_wf_remembers,
};
use crate::robot::CompetitionMode;
use crate::lemmas::{
    lemma_admitted_wf, lemma_conflicting_owners, lemma_interrupted_all, lemma_interrupted_all_wf,
    lemma_prefix_transitive, lemma_skip_grows, lemma_wf_frame,
};
use crate::model::{Admission, HookCall, SchedulerView, TickRecord, distinct_owners};
use crate::{AnyCommand, AnySubsystem};

verus! {

/// How often `call` occurs in `trace`.
pub open spec fn occurrences(trace: Seq<HookCall>, call: HookCall) -> nat
    decreases trace.len(),
{
    if trace.len() == 0 {
        0
    } else {
        occurrences(trace.drop_last(), call) + if trace.last() == call {
            1nat
        } else {
            0nat
        }
    }
}

/// A subsystem has one owner at most: two different scheduled commands never
/// require the same subsystem.
pub proof fn theorem_exclusive_ownership(view: SchedulerView, c: usize, d: usize, s: AnySubsystem)
    requires
        view.wf(),
        view.scheduled.contains(c),
        view.scheduled.contains(d),
        view.requirements(c).contains(s),
        view.requirements(d).contains(s),
    ensures
        c == d,
{
}

/// Scheduling a command that shares a subsystem with a scheduled command,
/// while no owner of a subsystem that the incoming command requires declares
/// `CancelIncoming`, interrupts the scheduled command before it initializes
/// the incoming one: in the trace, the `end(true)` of the one stands before
/// the `initialize` of the other, which is the last call. Afterwards the
/// incoming command is scheduled and the other is not.
pub proof fn theorem_incoming_interrupts(view: SchedulerView, c: usize, d: usize, s: AnySubsystem)
    requires
        view.wf(),
        view.scheduled.contains(c),
        view.knows(AnyCommand(d)),
        c != d,
        view.requirements(c).contains(s),
        view.requirements(d).contains(s),
        !view.any_refuses(view.conflicting_owners(view.requirements(d))),
    ensures
        view.admission(AnyCommand(d)) matches Admission::Admitted(owners) && owners.contains(c),
        !view.after_schedule(AnyCommand(d)).scheduled.contains(c),
        view.after_schedule(AnyCommand(d)).scheduled.contains(d),
        view.after_schedule(AnyCommand(d)).wf(),
        exists|i: int|
            view.trace.len() <= i < view.after_schedule(AnyCommand(d)).trace.len() - 1
                && #[trigger] view.after_schedule(AnyCommand(d)).trace[i] == HookCall::End(
                AnyCommand(c),
                true,
            ),
        view.after_schedule(AnyCommand(d)).trace.last() == HookCall::Initialize(AnyCommand(d)),
        occurrences(
            view.after_schedule(AnyCommand(d)).trace.skip(view.trace.len() as int),
            HookCall::Initialize(AnyCommand(d)),
        ) == 1,
{
    let requirements = view.requirements(d);
    let owners = view.conflicting_owners(requirements);
    lemma_conflicting_owners(view, requirements);
    lemma_interrupted_all(view, owners);
    lemma_interrupted_all_wf(view, owners);
    let i = choose|i: int| 0 <= i < requirements.len() && requirements[i] == s;
    assert(view.owners.contains_key(requirements[i].0) && view.owners[requirements[i].0] == c);
    assert(owners.contains(c));
    let cleared = view.interrupted_all(owners);
    let after = view.after_schedule(AnyCommand(d));
    assert(after == cleared.admitted(d).logged(HookCall::Initialize(AnyCommand(d))));
    assert forall|r: AnySubsystem| #[trigger] cleared.requirements(d).contains(r) implies !cleared.owners.contains_key(
        r.0,
    ) by {
        let k = choose|k: int| 0 <= k < requirements.len() && requirements[k] == r;
        if view.owners.contains_key(requirements[k].0) {
            assert(owners.contains(view.owners[requirements[k].0]));
        }
    }
    lemma_admitted_wf(cleared, d);
    lemma_wf_frame(cleared.admitted(d), after);
    let at = choose|at: int| 0 <= at < owners.len() && owners[at] == c;
    assert(after.trace[view.trace.len() + at] == HookCall::End(AnyCommand(c), true));
    let ends = Seq::new(owners.len(), |j: int| HookCall::End(AnyCommand(owners[j]), true));
    let added = after.trace.skip(view.trace.len() as int);
    assert(added =~= ends.push(HookCall::Initialize(AnyCommand(d))));
    assert(added.drop_last() =~= ends);
    lemma_no_initialize_among_ends(owners, AnyCommand(d));
}

/// An `initialize` does not occur among calls of `end`.
proof fn lemma_no_initialize_among_ends(owners: Seq<usize>, command: AnyCommand)
    ensures
        occurrences(
            Seq::new(owners.len(), |j: int| HookCall::End(AnyCommand(owners[j]), true)),
            HookCall::Initialize(command),
        ) == 0,
    decreases owners.len(),
{
    let ends = Seq::new(owners.len(), |j: int| HookCall::End(AnyCommand(owners[j]), true));
    if owners.len() > 0 {
        let shorter = owners.drop_last();
        lemma_no_initialize_among_ends(shorter, command);
        assert(ends.drop_last() =~= Seq::new(
            shorter.len(),
            |j: int| HookCall::End(AnyCommand(shorter[j]), true),
        ));
    }
}

/// Scheduling a command that shares a subsystem with a scheduled command
/// which declares `CancelIncoming` is rejected: nothing changes, so that the
/// scheduled command is left as it is and the incoming one is not
/// initialized.
pub proof fn theorem_cancel_incoming_rejects(view: SchedulerView, c: usize, d: usize, s: AnySubsystem)
    requires
        view.wf(),
        view.scheduled.contains(c),
        view.knows(AnyCommand(d)),
        c != d,
        view.requirements(c).contains(s),
        view.requirements(d).contains(s),
        view.commands[c as int].interruption_behavior == InterruptionBehavior::CancelIncoming,
    ensures
        view.admission(AnyCommand(d)) == Admission::Rejected,
        view.after_schedule(AnyCommand(d)) == view,
{
    let requirements = view.requirements(d);
    let owners = view.conflicting_owners(requirements);
    lemma_conflicting_owners(view, requirements);
    let i = choose|i: int| 0 <= i < requirements.len() && requirements[i] == s;
    assert(view.owners.contains_key(requirements[i].0) && view.owners[requirements[i].0] == c);
    assert(owners.contains(c));
    let at = choose|at: int| 0 <= at < owners.len() && owners[at] == c;
    assert(view.commands[owners[at] as int].interruption_behavior
        == InterruptionBehavior::CancelIncoming);
}

/// Scheduling a command that is scheduled changes nothing, and scheduling a
/// command twice in a row comes to the same as scheduling it once: there is
/// no second `initialize`.
pub proof fn theorem_schedule_idempotent(view: SchedulerView, command: AnyCommand)
    requires
        view.wf(),
    ensures
        view.scheduled.contains(command.0) ==> view.admission(command) == Admission::Ignored
            && view.after_schedule(command) == view,
        view.after_schedule(command).after_schedule(command) == view.after_schedule(command),
{
    match view.admission(command) {
        Admission::Admitted(owners) => {
            lemma_interrupted_all(view, owners);
        },
        _ => {},
    }
}

/// When every scheduled command has been cancelled and nothing failed, no
/// command is scheduled and no subsystem has an owner.
pub proof fn theorem_cancel_all_clears(
    view: SchedulerView,
    after: SchedulerView,
    order: Seq<usize>,
    done: int,
)
    requires
        view.wf(),
        !view.in_run_loop,
        view.cancelled_all(after, order, done, true),
    ensures
        after.scheduled == Set::<usize>::empty(),
        after.owners == Map::<usize, usize>::empty(),
        after.wf(),
{
    lemma_interrupted_all(view, order);
    lemma_interrupted_all_wf(view, order);
    lemma_wf_frame(view.interrupted_all(order), after);
    assert(after.scheduled == after.settled().scheduled);
    assert(after.owners == after.settled().owners);
    assert(after.scheduled =~= Set::<usize>::empty());
    assert(after.owners =~= Map::<usize, usize>::empty()) by {
        assert forall|s: usize| !after.owners.contains_key(s) by {
            if view.owners.contains_key(s) {
                assert(view.scheduled.contains(view.owners[s]));
                assert(order.to_set().contains(view.owners[s]));
            }
        }
    }
}

/// The commands among `order` that `finished` marks.
pub open spec fn finished_commands(order: Seq<usize>, finished: Seq<bool>) -> Set<usize> {
    Set::new(|c: usize| exists|j: int| 0 <= j < order.len() && order[j] == c && finished[j])
}

/// The calls that a tick's pass over the commands in the slots `order`
/// makes: for each command its `execute`, followed by its `end(false)` if
/// `finished` marks it.
pub open spec fn pass_calls(order: Seq<usize>, finished: Seq<bool>) -> Seq<HookCall>
    decreases order.len(),
{
    if order.len() == 0 {
        Seq::empty()
    } else {
        let executed = pass_calls(order.drop_last(), finished.drop_last()).push(
            HookCall::Execute(AnyCommand(order.last())),
        );
        if finished.last() {
            executed.push(HookCall::End(AnyCommand(order.last()), false))
        } else {
            executed
        }
    }
}

/// What a tick's pass changes: the finished commands leave the schedule,
/// their subsystems lose their owner, and the trace grows by the calls of the
/// pass.
pub proof fn lemma_pass_result(view: SchedulerView, order: Seq<usize>, finished: Seq<bool>)
    requires
        finished.len() == order.len(),
    ensures
        view.ran(order, finished) == (SchedulerView {
            scheduled: view.scheduled.difference(finished_commands(order, finished)),
            owners: Map::new(
                |s: usize|
                    view.owners.contains_key(s) && !finished_commands(order, finished).contains(
                        view.owners[s],
                    ),
                |s: usize| view.owners[s],
            ),
            trace: view.trace + pass_calls(order, finished),
            ..view
        }),
    decreases order.len(),
{
    let done = finished_commands(order, finished);
    if order.len() == 0 {
        assert(view.scheduled.difference(done) =~= view.scheduled);
        assert(Map::new(
            |s: usize| view.owners.contains_key(s) && !done.contains(view.owners[s]),
            |s: usize| view.owners[s],
        ) =~= view.owners);
        assert(view.trace + pass_calls(order, finished) =~= view.trace);
    } else {
        let shorter = order.drop_last();
        let earlier = finished.drop_last();
        lemma_pass_result(view, shorter, earlier);
        let before = finished_commands(shorter, earlier);
        let after = view.ran(order, finished);
        assert forall|c: usize| done.contains(c) <==> (before.contains(c) || (c == order.last()
            && finished.last())) by {
            if done.contains(c) {
                let j = choose|j: int| 0 <= j < order.len() && order[j] == c && finished[j];
                if j < shorter.len() {
                    assert(shorter[j] == c && earlier[j]);
                }
            }
            if before.contains(c) {
                let j = choose|j: int| 0 <= j < shorter.len() && shorter[j] == c && earlier[j];
                assert(order[j] == c && finished[j]);
            }
            if c == order.last() && finished.last() {
                assert(order[order.len() - 1] == c && finished[order.len() - 1]);
            }
        }
        assert(after.scheduled =~= view.scheduled.difference(done));
        assert(after.owners =~= Map::new(
            |s: usize| view.owners.contains_key(s) && !done.contains(view.owners[s]),
            |s: usize| view.owners[s],
        ));
        assert(after.trace =~= view.trace + pass_calls(order, finished));
    }
}

/// One more call at the end of a trace is one more occurrence of that call
/// and of no other.
pub proof fn lemma_occurrences_push(trace: Seq<HookCall>, last: HookCall, call: HookCall)
    ensures
        occurrences(trace.push(last), call) == occurrences(trace, call) + if last == call {
            1nat
        } else {
            0nat
        },
{
    assert(trace.push(last).drop_last() =~= trace);
}

/// How often the calls of a pass hold the `execute` and the `end(false)` of
/// a command: each command of the pass is executed once, and ended once if
/// it is marked as finished. The pass initializes and interrupts nothing.
proof fn lemma_pass_counts(order: Seq<usize>, finished: Seq<bool>, c: usize)
    requires
        finished.len() == order.len(),
        order.no_duplicates(),
    ensures
        occurrences(pass_calls(order, finished), HookCall::Execute(AnyCommand(c))) == if order.contains(
            c,
        ) {
            1nat
        } else {
            0nat
        },
        occurrences(pass_calls(order, finished), HookCall::End(AnyCommand(c), false))
            == if finished_commands(order, finished).contains(c) {
            1nat
        } else {
            0nat
        },
        occurrences(pass_calls(order, finished), HookCall::End(AnyCommand(c), true)) == 0,
        occurrences(pass_calls(order, finished), HookCall::Initialize(AnyCommand(c))) == 0,
    decreases order.len(),
{
    if order.len() > 0 {
        let shorter = order.drop_last();
        let earlier = finished.drop_last();
        let last = order.last();
        assert(shorter.no_duplicates());
        lemma_pass_counts(shorter, earlier, c);
        let calls = pass_calls(shorter, earlier);
        let executed = calls.push(HookCall::Execute(AnyCommand(last)));
        lemma_occurrences_push(calls, HookCall::Execute(AnyCommand(last)), HookCall::Execute(AnyCommand(c)));
        lemma_occurrences_push(
            calls,
            HookCall::Execute(AnyCommand(last)),
            HookCall::End(AnyCommand(c), false),
        );
        lemma_occurrences_push(
            calls,
            HookCall::Execute(AnyCommand(last)),
            HookCall::End(AnyCommand(c), true),
        );
        lemma_occurrences_push(
            calls,
            HookCall::Execute(AnyCommand(last)),
            HookCall::Initialize(AnyCommand(c)),
        );
        if finished.last() {
            let ended = HookCall::End(AnyCommand(last), false);
            lemma_occurrences_push(executed, ended, HookCall::Execute(AnyCommand(c)));
            lemma_occurrences_push(executed, ended, HookCall::End(AnyCommand(c), false));
            lemma_occurrences_push(executed, ended, HookCall::End(AnyCommand(c), true));
            lemma_occurrences_push(executed, ended, HookCall::Initialize(AnyCommand(c)));
        }
        assert(order[order.len() - 1] == last);
        assert(order.contains(c) <==> (shorter.contains(c) || c == last)) by {
            if order.contains(c) {
                let j = choose|j: int| 0 <= j < order.len() && order[j] == c;
                if j < shorter.len() {
                    assert(shorter[j] == c);
                }
            }
            if shorter.contains(c) {
                let j = choose|j: int| 0 <= j < shorter.len() && shorter[j] == c;
                assert(order[j] == c);
            }
        }
        assert(!shorter.contains(last)) by {
            if shorter.contains(last) {
                let j = choose|j: int| 0 <= j < shorter.len() && shorter[j] == last;
                assert(order[j] == order[order.len() - 1]);
            }
        }
        let done = finished_commands(order, finished);
        let before = finished_commands(shorter, earlier);
        assert(done.contains(c) <==> (before.contains(c) || (c == last && finished.last()))) by {
            if done.contains(c) {
                let j = choose|j: int| 0 <= j < order.len() && order[j] == c && finished[j];
                if j < shorter.len() {
                    assert(shorter[j] == c && earlier[j]);
                }
            }
            if before.contains(c) {
                let j = choose|j: int| 0 <= j < shorter.len() && shorter[j] == c && earlier[j];
                assert(order[j] == c && finished[j]);
            }
            if c == last && finished.last() {
                assert(order[order.len() - 1] == c && finished[order.len() - 1]);
            }
        }
        assert(before.contains(c) ==> shorter.contains(c)) by {
            if before.contains(c) {
                let j = choose|j: int| 0 <= j < shorter.len() && shorter[j] == c && earlier[j];
                assert(shorter[j] == c);
            }
        }
    }
}

/// A command that says it is finished during a tick's pass has its
/// `end(false)` called once in that pass, and never its `end(true)`. When the
/// pass is over, before any queued request is applied, it has left the
/// schedule and owns no subsystem. A command of the pass that does not say
/// so is executed once, is not ended, and stays scheduled.
pub proof fn theorem_finished_ends_once(
    view: SchedulerView,
    after: SchedulerView,
    order: Seq<usize>,
    finished: Seq<bool>,
    disabled: bool,
    i: int,
)
    requires
        view.wf(),
        view.passed(after, order, finished, disabled),
        0 <= i < order.len(),
    ensures
        after.trace == view.trace + pass_calls(order, finished),
        occurrences(pass_calls(order, finished), HookCall::Execute(AnyCommand(order[i]))) == 1,
        occurrences(pass_calls(order, finished), HookCall::End(AnyCommand(order[i]), true)) == 0,
        occurrences(pass_calls(order, finished), HookCall::End(AnyCommand(order[i]), false))
            == if finished[i] {
            1nat
        } else {
            0nat
        },
        after.scheduled.contains(order[i]) == !finished[i],
        finished[i] ==> forall|s: usize| #[trigger]
            after.owners.contains_key(s) ==> after.owners[s] != order[i],
{
    lemma_pass_result(view, order, finished);
    lemma_pass_counts(order, finished, order[i]);
    let done = finished_commands(order, finished);
    assert(after.trace == after.settled().trace);
    assert(after.scheduled == after.settled().scheduled);
    assert(after.owners == after.settled().owners);
    assert(order.to_set().contains(order[i]));
    if done.contains(order[i]) {
        let j = choose|j: int| 0 <= j < order.len() && order[j] == order[i] && finished[j];
        assert(j == i);
    }
}

/// Requests that arrive during a tick's pass do not change the set of
/// scheduled commands: when the pass is over, the scheduled commands are
/// those that were scheduled before it and did not finish, whatever the
/// hooks asked for. What they asked for stands in the queues behind what was
/// there.
pub proof fn theorem_pass_defers_requests(
    view: SchedulerView,
    after: SchedulerView,
    order: Seq<usize>,
    finished: Seq<bool>,
    disabled: bool,
)
    requires
        view.wf(),
        view.passed(after, order, finished, disabled),
    ensures
        after.scheduled == view.scheduled.difference(finished_commands(order, finished)),
        after.scheduled.subset_of(view.scheduled),
        forall|command: AnyCommand|
            #[trigger] occurrences(pass_calls(order, finished), HookCall::Initialize(command)) == 0,
{
    lemma_pass_result(view, order, finished);
    assert(after.scheduled == after.settled().scheduled);
    assert forall|command: AnyCommand| #[trigger]
        occurrences(pass_calls(order, finished), HookCall::Initialize(command)) == 0 by {
        lemma_pass_counts(order, finished, command.0);
        assert(AnyCommand(command.0) == command);
    }
}

/// A subsystem that has a default command and no owner gets its default
/// command scheduled when it has its turn, unless an owner of another
/// subsystem that the default command requires declares `CancelIncoming`:
/// the command is initialized, is then scheduled, and owns the subsystem.
pub proof fn theorem_default_takes_over(view: SchedulerView, s: usize)
    requires
        view.wf(),
        view.defaults.contains_key(s),
        !view.owners.contains_key(s),
        !view.any_refuses(view.conflicting_owners(view.requirements(view.defaults[s]))),
    ensures
        view.after_default(s).wf(),
        view.after_default(s).scheduled.contains(view.defaults[s]),
        view.after_default(s).owners.contains_key(s),
        view.after_default(s).owners[s] == view.defaults[s],
        view.after_default(s).trace.last() == HookCall::Initialize(AnyCommand(view.defaults[s])),
{
    let d = view.defaults[s];
    let requirements = view.requirements(d);
    let owners = view.conflicting_owners(requirements);
    assert(requirements.contains(AnySubsystem(s)));
    assert(!view.scheduled.contains(d));
    lemma_conflicting_owners(view, requirements);
    lemma_interrupted_all(view, owners);
    lemma_interrupted_all_wf(view, owners);
    let cleared = view.interrupted_all(owners);
    let after = view.after_default(s);
    assert(after == cleared.admitted(d).logged(HookCall::Initialize(AnyCommand(d))));
    assert forall|r: AnySubsystem| #[trigger] cleared.requirements(d).contains(r) implies !cleared.owners.contains_key(
        r.0,
    ) by {
        let k = choose|k: int| 0 <= k < requirements.len() && requirements[k] == r;
        if view.owners.contains_key(requirements[k].0) {
            assert(owners.contains(view.owners[requirements[k].0]));
        }
    }
    lemma_admitted_wf(cleared, d);
    lemma_wf_frame(cleared.admitted(d), after);
}

/// Whether every default command requires its own subsystem and no other.
pub open spec fn defaults_stand_alone(view: SchedulerView) -> bool {
    forall|s: usize| #[trigger]
        view.defaults.contains_key(s) ==> view.requirements(view.defaults[s]) == seq![
            AnySubsystem(s),
        ]
}

/// Where every default command requires its own subsystem and no other, the
/// fall-back on the default commands interrupts nothing and leaves no
/// subsystem that has a default command without an owner: a subsystem that
/// had an owner keeps it, and one that had none is owned by its default
/// command, which is scheduled.
pub proof fn theorem_defaults_fill(view: SchedulerView, n: nat)
    requires
        view.wf(),
        n <= view.subsystems,
        defaults_stand_alone(view),
    ensures
        view.after_defaults(n).wf(),
        view.same_setup(view.after_defaults(n)),
        view.scheduled.subset_of(view.after_defaults(n).scheduled),
        forall|s: usize| #[trigger]
            view.owners.contains_key(s) ==> view.after_defaults(n).owners.contains_key(s)
                && view.after_defaults(n).owners[s] == view.owners[s],
        forall|s: usize|
            s < n && #[trigger] view.defaults.contains_key(s) && !view.owners.contains_key(s) ==> {
                &&& view.after_defaults(n).owners.contains_key(s)
                &&& view.after_defaults(n).owners[s] == view.defaults[s]
                &&& view.after_defaults(n).scheduled.contains(view.defaults[s])
            },
        forall|s: usize|
            s >= n && !view.owners.contains_key(s) ==> !(#[trigger] view.after_defaults(
                n,
            ).owners.contains_key(s)),
    decreases n,
{
    if n > 0 {
        let s = (n - 1) as usize;
        theorem_defaults_fill(view, (n - 1) as nat);
        let mid = view.after_defaults((n - 1) as nat);
        let after = view.after_defaults(n);
        if mid.defaults.contains_key(s) && !mid.owners.contains_key(s) {
            let d = mid.defaults[s];
            let requirements = mid.requirements(d);
            assert(requirements == seq![AnySubsystem(s)]);
            assert(requirements.drop_last() =~= Seq::<AnySubsystem>::empty());
            assert(distinct_owners(mid.owners, requirements.drop_last()) =~= Seq::<usize>::empty());
            let owners = mid.conflicting_owners(requirements);
            assert(owners =~= Seq::<usize>::empty());
            assert(requirements[0] == AnySubsystem(s));
            assert(requirements.contains(AnySubsystem(s)));
            assert(!mid.scheduled.contains(d));
            assert(after == mid.admitted(d).logged(HookCall::Initialize(AnyCommand(d))));
            assert forall|r: AnySubsystem| #[trigger] mid.requirements(d).contains(r) implies !mid.owners.contains_key(
                r.0,
            ) by {
                let k = choose|k: int| 0 <= k < requirements.len() && requirements[k] == r;
                assert(r == AnySubsystem(s));
            }
            lemma_admitted_wf(mid, d);
            lemma_wf_frame(mid.admitted(d), after);
            assert forall|t: usize| #[trigger] view.owners.contains_key(t) implies after.owners.contains_key(
                t,
            ) && after.owners[t] == view.owners[t] by {
                assert(mid.owners.contains_key(t));
                if requirements.contains(AnySubsystem(t)) {
                    let k = choose|k: int| 0 <= k < requirements.len() && requirements[k] == AnySubsystem(t);
                    assert(t == s);
                }
            }
            assert forall|t: usize|
                t < n && #[trigger] view.defaults.contains_key(t) && !view.owners.contains_key(
                    t,
                ) implies after.owners.contains_key(t) && after.owners[t] == view.defaults[t]
                && after.scheduled.contains(view.defaults[t]) by {
                if t != s {
                    assert(mid.owners.contains_key(t));
                    if requirements.contains(AnySubsystem(t)) {
                        let k = choose|k: int|
                            0 <= k < requirements.len() && requirements[k] == AnySubsystem(t);
                        assert(t == s);
                    }
                }
            }
            assert forall|t: usize| t >= n && !view.owners.contains_key(t) implies !(#[trigger] after.owners.contains_key(
                t,
            )) by {
                if requirements.contains(AnySubsystem(t)) {
                    let k = choose|k: int| 0 <= k < requirements.len() && requirements[k] == AnySubsystem(t);
                    assert(t == s);
                }
            }
        } else {
            assert(after == mid);
            assert forall|t: usize|
                t < n && #[trigger] view.defaults.contains_key(t) && !view.owners.contains_key(
                    t,
                ) implies after.owners.contains_key(t) && after.owners[t] == view.defaults[t]
                && after.scheduled.contains(view.defaults[t]) by {
                if t == s {
                    assert(mid.owners.contains_key(s));
                    assert(false);
                }
            }
        }
    }
}

/// Where every default command requires its own subsystem and no other, a
/// tick in which nothing fails ends with every subsystem that has a default
/// command in the hands of an owner. So a subsystem whose command has
/// finished, and for which nothing else is scheduled, is back with its
/// default command at the end of the next tick.
pub proof fn theorem_tick_restores_defaults(
    view: SchedulerView,
    after: SchedulerView,
    buttons: EventLoopView,
    buttons_after: EventLoopView,
    mode: CompetitionMode,
    simulated: bool,
    record: TickRecord,
    s: usize,
)
    requires
        view.wf(),
        defaults_stand_alone(view),
        view.ticked(buttons, after, buttons_after, mode, simulated, record, true),
        view.defaults.contains_key(s),
    ensures
        after.owners.contains_key(s),
        after.scheduled.contains(after.owners[s]),
        !record.drained.owners.contains_key(s) ==> after.owners[s] == view.defaults[s],
{
    let drained = record.drained;
    assert(drained.commands == view.commands);
    assert(drained.defaults == view.defaults);
    assert(defaults_stand_alone(drained)) by {
        assert forall|t: usize| #[trigger] drained.defaults.contains_key(t) implies drained.requirements(
            drained.defaults[t],
        ) == seq![AnySubsystem(t)] by {
            assert(view.defaults.contains_key(t));
            assert(view.requirements(view.defaults[t]) == seq![AnySubsystem(t)]);
        }
    }
    theorem_defaults_fill(drained, drained.subsystems);
    let filled = drained.after_defaults(drained.subsystems);
    assert(after.owners == after.settled().owners);
    assert(after.scheduled == after.settled().scheduled);
    assert(filled.owners == filled.settled().owners);
    assert(s < drained.subsystems);
    if drained.owners.contains_key(s) {
        assert(filled.owners.contains_key(s));
    } else {
        assert(filled.owners.contains_key(s));
    }
    assert(filled.scheduled.contains(filled.owners[s]));
}

/// Whether `now` is what the loop `before` has become once the first `k`
/// bindings of a poll have been run: each derived event among them has the
/// value that follows from its sources, the bindings behind them remember
/// what they did, and a cell that none of them writes is as it was.
pub open spec fn polled_until(before: EventLoopView, now: EventLoopView, k: int) -> bool {
    &&& before.same_bindings(now)
    &&& forall|j: int|
        0 <= j < k ==> match #[trigger] before.events[j] {
            Binding::Derive { derivation, first, second, cell } => now.cached(cell)
                == derived_value(derivation, before.memory[j], now.cached(first), now.cached(second))
                && now.memory[j] == now.cached(first),
            Binding::Trigger { .. } => true,
            _ => now.memory[j] == before.memory[j],
        }
    &&& forall|cell: usize|
        cell < before.cells.len() && (forall|j: int|
            0 <= j < k ==> (#[trigger] before.events[j]).written_cell() != Some(cell))
            ==> #[trigger] now.cached(cell) == before.cached(cell)
    &&& forall|j: int| k <= j < now.memory.len() ==> now.memory[j] == before.memory[j]
}

/// Running one more binding keeps the derived events in step with their
/// sources.
proof fn lemma_polled_step(
    before: EventLoopView,
    now: EventLoopView,
    next: EventLoopView,
    k: int,
    scheduler: SchedulerView,
    scheduler_next: SchedulerView,
)
    requires
        before.wf(),
        0 <= k < before.events.len(),
        polled_until(before, now, k),
        now.fired(next, k, scheduler, scheduler_next, true),
    ensures
        polled_until(before, next, k + 1),
{
    lemma_wf_remembers(before, now);
    assert(before.binding_ok(k));
    assert(now.events[k] == before.events[k]);
    assert forall|j: int| 0 <= j < k + 1 implies match #[trigger] before.events[j] {
        Binding::Derive { derivation, first, second, cell } => next.cached(cell) == derived_value(
            derivation,
            before.memory[j],
            next.cached(first),
            next.cached(second),
        ) && next.memory[j] == next.cached(first),
        Binding::Trigger { .. } => true,
        _ => next.memory[j] == before.memory[j],
    } by {
        assert(before.binding_ok(j));
        if j < k {
            if before.events[j].written_cell() is Some && before.events[k].written_cell() is Some {
                assert(before.events[j].written_cell().unwrap() < before.events[k].written_cell().unwrap());
            }
        }
    }
    assert forall|cell: usize|
        cell < before.cells.len() && (forall|j: int|
            0 <= j < k + 1 ==> (#[trigger] before.events[j]).written_cell() != Some(cell))
        implies #[trigger] next.cached(cell) == before.cached(cell) by {
        assert(before.events[k].written_cell() != Some(cell));
        assert(now.cached(cell) == before.cached(cell));
    }
}

/// The first `k` steps of a poll in which nothing failed keep the derived
/// events in step with their sources.
proof fn lemma_polled_steps(
    before: EventLoopView,
    scheduler: SchedulerView,
    after: EventLoopView,
    scheduler_after: SchedulerView,
    steps: Seq<PollState>,
    k: int,
)
    requires
        before.wf(),
        before.polling(scheduler, after, scheduler_after, steps, true),
        0 <= k <= before.events.len(),
    ensures
        polled_until(before, steps[k].bindings, k),
    decreases k,
{
    if k > 0 {
        lemma_polled_steps(before, scheduler, after, scheduler_after, steps, k - 1);
        assert(steps[k - 1].bindings.fired(
            steps[k].bindings,
            k - 1,
            steps[k - 1].scheduler,
            steps[k].scheduler,
            true,
        ));
        lemma_polled_step(
            before,
            steps[k - 1].bindings,
            steps[k].bindings,
            k - 1,
            steps[k - 1].scheduler,
            steps[k].scheduler,
        );
    }
}

/// After a poll in which nothing failed, every derived event has the value
/// that follows from the values that its sources have after the poll, and a
/// cell that no binding writes is as it was.
pub proof fn theorem_poll_keeps_events_in_step(
    before: EventLoopView,
    scheduler: SchedulerView,
    after: EventLoopView,
    scheduler_after: SchedulerView,
    steps: Seq<PollState>,
)
    requires
        before.wf(),
        before.polling(scheduler, after, scheduler_after, steps, true),
    ensures
        before.polled(after),
{
    lemma_polled_steps(before, scheduler, after, scheduler_after, steps, before.events.len() as int);
}

/// Events derived from the same source see the same sample: after a poll in
/// which nothing failed, each derived event has the value that follows from
/// the one value cached for the source in that poll, however often the
/// source's signal would have changed had it been read again, and each
/// remembers that same value for the next poll.
pub proof fn theorem_derived_events_agree(
    before: EventLoopView,
    scheduler: SchedulerView,
    after: EventLoopView,
    scheduler_after: SchedulerView,
    steps: Seq<PollState>,
    j: int,
    k: int,
)
    requires
        before.wf(),
        before.polling(scheduler, after, scheduler_after, steps, true),
        0 <= j < before.events.len(),
        0 <= k < before.events.len(),
        before.events[j] is Derive,
        before.events[k] is Derive,
        before.events[j]->Derive_first == before.events[k]->Derive_first,
    ensures
        after.memory[j] == after.cached(before.events[j]->Derive_first),
        after.memory[k] == after.cached(before.events[j]->Derive_first),
        after.cached(before.events[j]->Derive_cell) == derived_value(
            before.events[j]->Derive_derivation,
            before.memory[j],
            after.cached(before.events[j]->Derive_first),
            after.cached(before.events[j]->Derive_second),
        ),
        after.cached(before.events[k]->Derive_cell) == derived_value(
            before.events[k]->Derive_derivation,
            before.memory[k],
            after.cached(before.events[j]->Derive_first),
            after.cached(before.events[k]->Derive_second),
        ),
{
    theorem_poll_keeps_events_in_step(before, scheduler, after, scheduler_after, steps);
    let first = before.events[j];
    let second = before.events[k];
}

/// What each kind of trigger binding asks for, poll by poll.
///
/// `on_true` schedules in the polls in which the condition has turned true
/// and asks for nothing else; `on_false` likewise when it has turned false.
/// `while_true` schedules when the condition has turned true and cancels when
/// it has turned false; `while_false` the other way round. The toggles wake
/// up like `on_true` and `on_false`, and then cancel a command that is
/// scheduled and schedule one that is not. While the condition stays as it
/// was, no binding asks for anything.
pub proof fn theorem_edges(edge: Edge, pressed_last: bool, pressed: bool, scheduled: bool)
    ensures
        pressed == pressed_last ==> edge_decision(edge, pressed_last, pressed, scheduled)
            == EdgeAction::Nothing,
        edge == Edge::OnTrue ==> edge_decision(edge, pressed_last, pressed, scheduled) == if !pressed_last
            && pressed {
            EdgeAction::Schedule
        } else {
            EdgeAction::Nothing
        },
        edge == Edge::OnFalse ==> edge_decision(edge, pressed_last, pressed, scheduled)
            == if pressed_last && !pressed {
            EdgeAction::Schedule
        } else {
            EdgeAction::Nothing
        },
        edge == Edge::WhileTrue ==> edge_decision(edge, pressed_last, pressed, scheduled)
            == if !pressed_last && pressed {
            EdgeAction::Schedule
        } else if pressed_last && !pressed {
            EdgeAction::Cancel
        } else {
            EdgeAction::Nothing
        },
        edge == Edge::WhileFalse ==> edge_decision(edge, pressed_last, pressed, scheduled)
            == if pressed_last && !pressed {
            EdgeAction::Schedule
        } else if !pressed_last && pressed {
            EdgeAction::Cancel
        } else {
            EdgeAction::Nothing
        },
        edge == Edge::ToggleOnTrue ==> edge_decision(edge, pressed_last, pressed, scheduled)
            == if !pressed_last && pressed {
            if scheduled {
                EdgeAction::Cancel
            } else {
                EdgeAction::Schedule
            }
        } else {
            EdgeAction::Nothing
        },
        edge == Edge::ToggleOnFalse ==> edge_decision(edge, pressed_last, pressed, scheduled)
            == if pressed_last && !pressed {
            if scheduled {
                EdgeAction::Cancel
            } else {
                EdgeAction::Schedule
            }
        } else {
            EdgeAction::Nothing
        },
{
}

/// A request to schedule a command that is scheduled starts nothing,
/// whether it is applied at once or queued: no hook is called, and the
/// schedule and the owners of the subsystems stay as they are.
pub proof fn theorem_schedule_of_scheduled(
    view: SchedulerView,
    after: SchedulerView,
    command: AnyCommand,
    went_well: bool,
)
    requires
        view.wf(),
        view.scheduled.contains(command.0),
        view.schedule_requested(after, command, went_well),
    ensures
        went_well,
        after.trace == view.trace,
        after.scheduled == view.scheduled,
        after.owners == view.owners,
        view.after_schedule(command) == view,
{
}

/// After a tick in which nothing failed, the queues hold what was queued
/// after the pass over the scheduled commands and was not applied any more:
/// the requests to schedule that hooks left while the queued requests were
/// applied and the default commands scheduled, and the requests to cancel
/// that they left from the moment at which the requests to cancel were
/// applied. What was queued before or during the pass has been applied. So
/// where those hooks left no request, both queues are empty.
pub proof fn theorem_tick_applies_queues(
    view: SchedulerView,
    after: SchedulerView,
    buttons: EventLoopView,
    buttons_after: EventLoopView,
    mode: CompetitionMode,
    simulated: bool,
    record: TickRecord,
)
    requires
        view.wf(),
        view.ticked(buttons, after, buttons_after, mode, simulated, record, true),
    ensures
        record.passed.schedule_log.is_prefix_of(after.schedule_log),
        record.passed.cancel_log.is_prefix_of(after.cancel_log),
        after.to_schedule == after.schedule_log.skip(record.passed.schedule_log.len() as int),
        after.to_cancel == after.cancel_log.skip(
            (record.passed.cancel_log.len() + record.extra.len()) as int,
        ),
        after.schedule_log == record.passed.schedule_log ==> after.to_schedule
            == Seq::<AnyCommand>::empty(),
        after.cancel_log.len() == record.passed.cancel_log.len() + record.extra.len()
            ==> after.to_cancel == Seq::<AnyCommand>::empty(),
{
    let passed = record.passed;
    let drained = record.drained;
    lemma_prefix_transitive(passed.schedule_log, drained.schedule_log, after.schedule_log);
    lemma_prefix_transitive(passed.cancel_log, drained.cancel_log, after.cancel_log);
    lemma_skip_grows(passed.schedule_log, drained.schedule_log, after.schedule_log);
    let logged = (passed.cancel_log.len() + record.extra.len()) as int;
    assert(after.to_schedule =~= after.schedule_log.skip(passed.schedule_log.len() as int));
    assert forall|i: int| 0 <= i < drained.cancel_log.len() implies drained.cancel_log[i]
        == after.cancel_log[i] by {
        assert(drained.cancel_log[i] == after.cancel_log.subrange(0, drained.cancel_log.len() as int)[i]);
    }
    assert(after.to_cancel =~= after.cancel_log.skip(logged));
}

/// A condition made with `and` from two signals is their conjunction, taken
/// anew each time: when it is evaluated, the first signal is sampled; if it
/// gives false, that is the value and the second signal is not sampled; if
/// it gives true, the second signal is sampled and gives the value.
pub proof fn theorem_and_of_signals(
    view: EventLoopView,
    after: EventLoopView,
    i: int,
    first: usize,
    second: usize,
    value: bool,
)
    requires
        0 <= i < view.conditions.len(),
        view.conditions[i] == Condition::And(first, second),
        first < i,
        second < i,
        view.conditions[first as int] is Source,
        view.conditions[second as int] is Source,
        view.read(after, i, value),
    ensures
        ({
            let taken = after.samples.skip(view.samples.len() as int);
            &&& taken.len() >= 1
            &&& taken[0].signal == view.conditions[first as int]->Source_0
            &&& if taken[0].value {
                &&& taken.len() == 2
                &&& taken[1].signal == view.conditions[second as int]->Source_0
                &&& value == taken[1].value
            } else {
                taken.len() == 1 && !value
            }
        }),
{
    reveal_with_fuel(condition_reads, 3);
    let taken = after.samples.skip(view.samples.len() as int);
    let rest = taken.skip(1);
    if taken.len() >= 1 && taken[0].value {
        assert(rest.len() >= 1 ==> rest[0] == taken[1]);
        assert(rest.len() >= 1 ==> rest.skip(1).len() == rest.len() - 1);
    }
}

} // verus!
