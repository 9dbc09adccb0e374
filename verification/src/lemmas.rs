//! Lemmas about the steps of the scheduler.
use vstd::prelude::*;
use crate::model::{HookCall, SchedulerView};
use crate::{AnyCommand, AnySubsystem};

verus! {

/// Well-formedness does not depend on the request queues, the trace or the
/// run-loop flag.
pub proof fn lemma_wf_frame(before: SchedulerView, after: SchedulerView)
    requires
        before.wf(),
        after.subsystems == before.subsystems,
        after.commands == before.commands,
        after.defaults == before.defaults,
        after.scheduled == before.scheduled,
        after.owners == before.owners,
        after.ending == before.ending,
    ensures
        after.wf(),
{
    assert forall|c: usize, s: AnySubsystem|
        after.scheduled.contains(c) && #[trigger] after.requirements(c).contains(s) implies
        after.owners.contains_key(s.0) && after.owners[s.0] == c by {
        assert(before.scheduled.contains(c) && before.requirements(c).contains(s));
    }
}

/// Registering one more subsystem keeps the scheduler well formed.
pub proof fn lemma_wf_more_subsystems(before: SchedulerView, after: SchedulerView)
    requires
        before.wf(),
        before.subsystems < usize::MAX,
        after == (SchedulerView { subsystems: before.subsystems + 1, ..before }),
    ensures
        after.wf(),
{
    assert forall|c: usize, s: AnySubsystem|
        after.scheduled.contains(c) && #[trigger] after.requirements(c).contains(s) implies
        after.owners.contains_key(s.0) && after.owners[s.0] == c by {
        assert(before.scheduled.contains(c) && before.requirements(c).contains(s));
    }
}

/// Retiring a command keeps the scheduler well formed.
pub proof fn lemma_retired_wf(view: SchedulerView, c: usize)
    requires
        view.wf(),
    ensures
        view.retired(c).wf(),
{
    let after = view.retired(c);
    assert forall|c2: usize, s: AnySubsystem|
        after.scheduled.contains(c2) && #[trigger] after.requirements(c2).contains(s) implies
        after.owners.contains_key(s.0) && after.owners[s.0] == c2 by {
        assert(view.scheduled.contains(c2) && view.requirements(c2).contains(s));
    }
}

/// Admitting a command that is not scheduled, and none of whose requirements
/// has an owner, keeps the scheduler well formed.
pub proof fn lemma_admitted_wf(view: SchedulerView, c: usize)
    requires
        view.wf(),
        c < view.commands.len(),
        !view.scheduled.contains(c),
        forall|s: AnySubsystem| #[trigger]
            view.requirements(c).contains(s) ==> !view.owners.contains_key(s.0),
    ensures
        view.admitted(c).wf(),
{
    let after = view.admitted(c);
    assert forall|s: usize| #[trigger] after.owners.contains_key(s) implies after.scheduled.contains(
        after.owners[s],
    ) && after.requirements(after.owners[s]).contains(AnySubsystem(s)) by {
        if view.requirements(c).contains(AnySubsystem(s)) {
        } else {
            assert(view.owners.contains_key(s));
        }
    }
    assert forall|c2: usize, s: AnySubsystem|
        after.scheduled.contains(c2) && #[trigger] after.requirements(c2).contains(s) implies
        after.owners.contains_key(s.0) && after.owners[s.0] == c2 by {
        assert(AnySubsystem(s.0) == s);
        if c2 != c {
            assert(view.scheduled.contains(c2) && view.requirements(c2).contains(s));
        }
    }
}

/// What `conflicting_owners` holds: distinct commands, each the owner of one
/// of the requirements, and the owner of every owned requirement.
pub proof fn lemma_conflicting_owners(view: SchedulerView, requirements: Seq<AnySubsystem>)
    ensures
        view.conflicting_owners(requirements).no_duplicates(),
        forall|j: int|
            0 <= j < view.conflicting_owners(requirements).len() ==> view.owns_one_of(
                #[trigger] view.conflicting_owners(requirements)[j],
                requirements,
            ),
        forall|i: int|
            0 <= i < requirements.len() && view.owners.contains_key(#[trigger] requirements[i].0)
                ==> view.conflicting_owners(requirements).contains(view.owners[requirements[i].0]),
    decreases requirements.len(),
{
    let found = view.conflicting_owners(requirements);
    if requirements.len() > 0 {
        let shorter = requirements.drop_last();
        let earlier = view.conflicting_owners(shorter);
        let last = requirements.last();
        lemma_conflicting_owners(view, shorter);
        assert forall|j: int| 0 <= j < found.len() implies view.owns_one_of(
            #[trigger] found[j],
            requirements,
        ) by {
            if j < earlier.len() {
                assert(view.owns_one_of(earlier[j], shorter));
                let i = choose|i: int| view.owns_at(earlier[j], shorter, i);
                assert(view.owns_at(found[j], requirements, i));
            } else {
                assert(view.owns_at(found[j], requirements, requirements.len() - 1));
            }
        }
        assert forall|i: int|
            0 <= i < requirements.len() && view.owners.contains_key(
                #[trigger] requirements[i].0,
            ) implies found.contains(view.owners[requirements[i].0]) by {
            let o = view.owners[requirements[i].0];
            if i < shorter.len() {
                assert(shorter[i] == requirements[i]);
                assert(earlier.contains(o));
                let j = choose|j: int| 0 <= j < earlier.len() && earlier[j] == o;
                assert(found[j] == o);
            } else {
                if earlier.contains(o) {
                    let j = choose|j: int| 0 <= j < earlier.len() && earlier[j] == o;
                    assert(found[j] == o);
                } else {
                    assert(found[found.len() - 1] == o);
                }
            }
        }
    }
}

/// What `interrupted_all` changes: the commands leave the schedule, their
/// subsystems lose their owner, and the trace grows by one `end(true)` each.
pub proof fn lemma_interrupted_all(view: SchedulerView, cs: Seq<usize>)
    ensures
        view.interrupted_all(cs) == (SchedulerView {
            scheduled: view.scheduled.difference(cs.to_set()),
            owners: Map::new(
                |s: usize| view.owners.contains_key(s) && !cs.contains(view.owners[s]),
                |s: usize| view.owners[s],
            ),
            trace: view.trace + Seq::new(cs.len(), |j: int| HookCall::End(AnyCommand(cs[j]), true)),
            ..view
        }),
    decreases cs.len(),
{
    let ends = Seq::new(cs.len(), |j: int| HookCall::End(AnyCommand(cs[j]), true));
    if cs.len() == 0 {
        assert(view.scheduled.difference(cs.to_set()) =~= view.scheduled);
        assert(Map::new(
            |s: usize| view.owners.contains_key(s) && !cs.contains(view.owners[s]),
            |s: usize| view.owners[s],
        ) =~= view.owners);
        assert(view.trace + ends =~= view.trace);
    } else {
        let shorter = cs.drop_last();
        lemma_interrupted_all(view, shorter);
        let mid = view.interrupted_all(shorter);
        let after = view.interrupted_all(cs);
        assert forall|x: usize| cs.contains(x) <==> (shorter.contains(x) || x == cs.last()) by {
            if cs.contains(x) {
                let j = choose|j: int| 0 <= j < cs.len() && cs[j] == x;
                if j < shorter.len() {
                    assert(shorter[j] == x);
                }
            }
            if shorter.contains(x) {
                let j = choose|j: int| 0 <= j < shorter.len() && shorter[j] == x;
                assert(cs[j] == x);
            }
            if x == cs.last() {
                assert(cs[cs.len() - 1] == x);
            }
        }
        assert(after.scheduled =~= view.scheduled.difference(cs.to_set()));
        assert(after.owners =~= Map::new(
            |s: usize| view.owners.contains_key(s) && !cs.contains(view.owners[s]),
            |s: usize| view.owners[s],
        ));
        assert(after.trace =~= view.trace + ends);
    }
}

/// Interrupting commands keeps the scheduler well formed.
pub proof fn lemma_interrupted_all_wf(view: SchedulerView, cs: Seq<usize>)
    requires
        view.wf(),
    ensures
        view.interrupted_all(cs).wf(),
    decreases cs.len(),
{
    if cs.len() > 0 {
        lemma_interrupted_all_wf(view, cs.drop_last());
        let mid = view.interrupted_all(cs.drop_last());
        lemma_retired_wf(mid, cs.last());
        lemma_wf_frame(mid.retired(cs.last()), view.interrupted_all(cs));
    }
}

/// A tick's pass changes the schedule and the trace only, and leaves every
/// command that it does not visit as it was.
pub proof fn lemma_ran(view: SchedulerView, order: Seq<usize>, finished: Seq<bool>)
    requires
        finished.len() == order.len(),
    ensures
        view.ran(order, finished).subsystems == view.subsystems,
        view.ran(order, finished).commands == view.commands,
        view.ran(order, finished).defaults == view.defaults,
        view.ran(order, finished).ending == view.ending,
        view.ran(order, finished).in_run_loop == view.in_run_loop,
        view.ran(order, finished).to_schedule == view.to_schedule,
        view.ran(order, finished).to_cancel == view.to_cancel,
        forall|c: usize|
            !order.contains(c) ==> (#[trigger] view.ran(order, finished).scheduled.contains(c)
                <==> view.scheduled.contains(c)),
    decreases order.len(),
{
    if order.len() > 0 {
        lemma_ran(view, order.drop_last(), finished.drop_last());
        assert forall|c: usize| !order.contains(c) implies (#[trigger] view.ran(
            order,
            finished,
        ).scheduled.contains(c) <==> view.scheduled.contains(c)) by {
            assert(order[order.len() - 1] == order.last());
            if order.drop_last().contains(c) {
                let k = choose|k: int| 0 <= k < order.drop_last().len() && order.drop_last()[k] == c;
                assert(order[k] == c);
            }
        }
    }
}

/// Two views that differ in their request queues only stay so under every
/// step of an admission and of a cancellation.
pub proof fn lemma_settled_agree(a: SchedulerView, b: SchedulerView, command: AnyCommand)
    requires
        a.settled() == b.settled(),
    ensures
        a.admission(command) == b.admission(command),
        a.cancellation(command) == b.cancellation(command),
        forall|owners: Seq<usize>, done: int| #[trigger]
            a.admission_after(owners, command.0, done).settled() == b.admission_after(
                owners,
                command.0,
                done,
            ).settled(),
        a.after_schedule(command).settled() == b.after_schedule(command).settled(),
        a.after_cancel(command).settled() == b.after_cancel(command).settled(),
        a.retired(command.0).logged(HookCall::End(command, true)).settled() == b.retired(
            command.0,
        ).logged(HookCall::End(command, true)).settled(),
        a.logged(HookCall::End(command, true)).settled() == b.logged(
            HookCall::End(command, true),
        ).settled(),
{
    assert(a.scheduled == a.settled().scheduled);
    assert(a.owners == a.settled().owners);
    assert(a.commands == a.settled().commands);
    assert(a.ending == a.settled().ending);
    assert(a.in_run_loop == a.settled().in_run_loop);
    assert(a.trace == a.settled().trace);
    assert(a.any_refuses(a.conflicting_owners(a.requirements(command.0))) == b.any_refuses(
        b.conflicting_owners(b.requirements(command.0)),
    ));
    assert forall|owners: Seq<usize>, done: int| #[trigger]
        a.admission_after(owners, command.0, done).settled() == b.admission_after(
            owners,
            command.0,
            done,
        ).settled() by {
        if 0 < done <= owners.len() {
            lemma_interrupted_all(a, owners.take(done - 1));
            lemma_interrupted_all(b, owners.take(done - 1));
        } else if done > owners.len() {
            lemma_interrupted_all(a, owners);
            lemma_interrupted_all(b, owners);
        }
    }
}

/// A prefix of a prefix is a prefix.
pub proof fn lemma_prefix_transitive<A>(a: Seq<A>, b: Seq<A>, c: Seq<A>)
    requires
        a.is_prefix_of(b),
        b.is_prefix_of(c),
    ensures
        a.is_prefix_of(c),
{
    assert forall|i: int| 0 <= i < a.len() implies a[i] == c[i] by {
        assert(a[i] == b.subrange(0, a.len() as int)[i]);
        assert(b[i] == c.subrange(0, b.len() as int)[i]);
    }
    assert(a =~= c.subrange(0, a.len() as int));
}

/// What a prefix holds, the whole sequence holds.
pub proof fn lemma_prefix_keeps<A>(a: Seq<A>, b: Seq<A>, x: A)
    requires
        a.is_prefix_of(b),
        a.contains(x),
    ensures
        b.contains(x),
{
    let i = choose|i: int| 0 <= i < a.len() && a[i] == x;
    assert(a[i] == b.subrange(0, a.len() as int)[i]);
    assert(b[i] == x);
}

/// What was queued up to some moment and what was queued from then on is
/// what was queued altogether.
pub proof fn lemma_heard_transitive(a: SchedulerView, b: SchedulerView, c: SchedulerView)
    requires
        a.heard(b),
        b.heard(c),
    ensures
        a.heard(c),
{
    lemma_prefix_transitive(a.schedule_log, b.schedule_log, c.schedule_log);
    lemma_prefix_transitive(a.cancel_log, b.cancel_log, c.cancel_log);
    lemma_skip_grows(a.schedule_log, b.schedule_log, c.schedule_log);
    lemma_skip_grows(a.cancel_log, b.cancel_log, c.cancel_log);
    assert(c.to_schedule =~= a.to_schedule + c.schedule_log.skip(a.schedule_log.len() as int));
    assert(c.to_cancel =~= a.to_cancel + c.cancel_log.skip(a.cancel_log.len() as int));
}

/// What a log has gained since it was `a` is what it had gained when it was
/// `b` and what it has gained since.
pub proof fn lemma_skip_grows<A>(a: Seq<A>, b: Seq<A>, c: Seq<A>)
    requires
        a.is_prefix_of(b),
        b.is_prefix_of(c),
    ensures
        c.skip(a.len() as int) == b.skip(a.len() as int) + c.skip(b.len() as int),
{
    assert forall|i: int| 0 <= i < b.len() implies b[i] == c[i] by {
        assert(b[i] == c.subrange(0, b.len() as int)[i]);
    }
    assert(c.skip(a.len() as int) =~= b.skip(a.len() as int) + c.skip(b.len() as int));
}

/// Where the queues have grown by what was queued, they hold what they
/// held.
pub proof fn lemma_heard_keeps(a: SchedulerView, b: SchedulerView)
    requires
        a.heard(b),
    ensures
        a.to_schedule.is_prefix_of(b.to_schedule),
        a.to_cancel.is_prefix_of(b.to_cancel),
{
    assert(a.to_schedule =~= b.to_schedule.subrange(0, a.to_schedule.len() as int));
    assert(a.to_cancel =~= b.to_cancel.subrange(0, a.to_cancel.len() as int));
}

/// A view has heard itself: nothing was queued.
pub proof fn lemma_heard_nothing(a: SchedulerView, b: SchedulerView)
    requires
        b.to_schedule == a.to_schedule,
        b.to_cancel == a.to_cancel,
        b.schedule_log == a.schedule_log,
        b.cancel_log == a.cancel_log,
    ensures
        a.heard(b),
{
    assert(a.schedule_log.skip(a.schedule_log.len() as int) =~= Seq::<AnyCommand>::empty());
    assert(a.cancel_log.skip(a.cancel_log.len() as int) =~= Seq::<AnyCommand>::empty());
    assert(b.to_schedule =~= a.to_schedule + b.schedule_log.skip(a.schedule_log.len() as int));
    assert(b.to_cancel =~= a.to_cancel + b.cancel_log.skip(a.cancel_log.len() as int));
    assert(a.schedule_log =~= b.schedule_log.subrange(0, a.schedule_log.len() as int));
    assert(a.cancel_log =~= b.cancel_log.subrange(0, a.cancel_log.len() as int));
}

/// Requests put at the end of the queues are heard.
pub proof fn lemma_heard_asked(a: SchedulerView, to_schedule: Seq<AnyCommand>, to_cancel: Seq<AnyCommand>)
    ensures
        a.heard(a.asked(to_schedule, to_cancel)),
{
    let b = a.asked(to_schedule, to_cancel);
    assert(b.schedule_log.skip(a.schedule_log.len() as int) =~= to_schedule);
    assert(b.cancel_log.skip(a.cancel_log.len() as int) =~= to_cancel);
    assert(a.schedule_log =~= b.schedule_log.subrange(0, a.schedule_log.len() as int));
    assert(a.cancel_log =~= b.cancel_log.subrange(0, a.cancel_log.len() as int));
}

/// What the queues hold while the requests to schedule are applied.
pub proof fn lemma_drained_first(start: SchedulerView, now: SchedulerView, done: int)
    requires
        done < start.to_schedule.len(),
        (SchedulerView { to_schedule: Seq::empty(), ..start }).heard(now),
    ensures
        start.drained_queues(now, Seq::empty(), done),
{
    assert(now.to_schedule =~= now.schedule_log.skip(start.schedule_log.len() as int));
}

/// What the queues hold while the requests to cancel are applied, `middle`
/// being the view at the moment at which the queue of requests to cancel was
/// emptied.
pub proof fn lemma_drained_second(
    start: SchedulerView,
    middle: SchedulerView,
    now: SchedulerView,
    extra: Seq<AnyCommand>,
    done: int,
)
    requires
        done >= start.to_schedule.len(),
        (SchedulerView { to_schedule: Seq::empty(), ..start }).heard(
            SchedulerView { to_cancel: start.to_cancel + extra, ..middle },
        ),
        middle.to_cancel == Seq::<AnyCommand>::empty(),
        middle.heard(now),
    ensures
        start.drained_queues(now, extra, done),
{
    let logged = start.cancel_log.len() as int;
    lemma_prefix_transitive(start.schedule_log, middle.schedule_log, now.schedule_log);
    lemma_prefix_transitive(start.cancel_log, middle.cancel_log, now.cancel_log);
    lemma_skip_grows(start.schedule_log, middle.schedule_log, now.schedule_log);
    assert(middle.to_schedule =~= middle.schedule_log.skip(start.schedule_log.len() as int));
    assert(now.to_schedule =~= now.schedule_log.skip(start.schedule_log.len() as int));
    let gained = middle.cancel_log.skip(logged);
    assert(start.to_cancel + extra == start.to_cancel + gained);
    assert(extra =~= gained) by {
        assert((start.to_cancel + extra).len() == (start.to_cancel + gained).len());
        assert forall|i: int| 0 <= i < extra.len() implies extra[i] == gained[i] by {
            assert((start.to_cancel + extra)[start.to_cancel.len() + i] == extra[i]);
            assert((start.to_cancel + gained)[start.to_cancel.len() + i] == gained[i]);
        }
    }
    assert(middle.cancel_log.len() == logged + extra.len());
    assert forall|i: int| 0 <= i < middle.cancel_log.len() implies middle.cancel_log[i]
        == now.cancel_log[i] by {
        assert(middle.cancel_log[i] == now.cancel_log.subrange(0, middle.cancel_log.len() as int)[i]);
    }
    assert(extra =~= now.cancel_log.subrange(logged, logged + extra.len()));
    assert(now.to_cancel =~= now.cancel_log.skip(logged + extra.len()));
}

/// Whatever a request to cancel comes to, the queues grow by what was
/// queued.
pub proof fn lemma_cancel_heard(before: SchedulerView, after: SchedulerView, command: AnyCommand, went_well: bool)
    requires
        before.cancel_requested(after, command, went_well),
    ensures
        before.heard(after),
{
    if before.cancellation(command) is Ignored {
        lemma_heard_nothing(before, after);
    } else if before.cancellation(command) is Deferred {
        lemma_heard_asked(before, Seq::empty(), seq![command]);
        let asked = before.asked(Seq::empty(), seq![command]);
        assert(asked.to_schedule =~= after.to_schedule);
        assert(asked.schedule_log =~= after.schedule_log);
        assert(asked.to_cancel =~= after.to_cancel);
        assert(asked.cancel_log =~= after.cancel_log);
    }
}

/// Whatever a request to schedule comes to, the queues grow by what was
/// queued.
pub proof fn lemma_schedule_heard(before: SchedulerView, after: SchedulerView, command: AnyCommand, went_well: bool)
    requires
        before.schedule_requested(after, command, went_well),
    ensures
        before.heard(after),
{
    if before.in_run_loop {
        lemma_heard_asked(before, seq![command], Seq::empty());
        let asked = before.asked(seq![command], Seq::empty());
        assert(asked.to_schedule =~= after.to_schedule);
        assert(asked.schedule_log =~= after.schedule_log);
        assert(asked.to_cancel =~= after.to_cancel);
        assert(asked.cancel_log =~= after.cancel_log);
    }
}

} // verus!
