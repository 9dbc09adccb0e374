//! Triggers: conditions that schedule and cancel commands when they change.
use vstd::prelude::*;
use crate::command::Command;
use crate::event::{Action, Binding, Condition, Edge, EventLoop, EventLoopView, Signal};
use crate::scheduler::CommandScheduler;
use crate::subsystem::Subsystem;
use crate::{AnyCommand, CommandError};

verus! {

/// A condition of an event loop that commands can be bound to. The condition
/// is evaluated anew whenever it is asked for: nothing is cached.
#[derive(Clone, Copy, Debug, PartialEq, Eq, Structural)]
pub struct Trigger {
    /// The slot of the condition in its event loop.
    pub condition: usize,
}

impl Trigger {
    /// Makes a trigger on the event loop of the buttons of `scheduler` whose
    /// condition is `condition`.
    pub fn new<S: Subsystem<C>, C: Command, G: Signal, A: Action>(
        scheduler: &mut CommandScheduler<S, C, G, A>,
        condition: G,
    ) -> (trigger: Trigger)
        requires
            old(scheduler).wf(),
        ensures
            final(scheduler).wf(),
            final(scheduler)@ == old(scheduler)@,
            trigger.condition == old(scheduler).buttons().conditions.len(),
            final(scheduler).buttons() == (EventLoopView {
                signals: old(scheduler).buttons().signals + 1,
                conditions: old(scheduler).buttons().conditions.push(
                    Condition::Source(old(scheduler).buttons().signals as usize),
                ),
                ..old(scheduler).buttons()
            }),
    {
        Trigger::new_with_loop(scheduler.button_event_loop(), condition)
    }

    /// Makes a trigger on `event_loop` whose condition is `condition`.
    pub fn new_with_loop<G: Signal, A: Action>(event_loop: &mut EventLoop<G, A>, condition: G) -> (trigger:
        Trigger)
        requires
            old(event_loop)@.wf(),
        ensures
            final(event_loop)@.wf(),
            trigger.condition == old(event_loop)@.conditions.len(),
            final(event_loop)@ == (EventLoopView {
                signals: old(event_loop)@.signals + 1,
                conditions: old(event_loop)@.conditions.push(
                    Condition::Source(old(event_loop)@.signals as usize),
                ),
                ..old(event_loop)@
            }),
    {
        let signal = event_loop.push_signal(condition);
        Trigger { condition: event_loop.push_condition(Condition::Source(signal)) }
    }

    /// Binds `command` to this trigger in the given way. The condition is
    /// evaluated once now, and the binding starts out remembering that
    /// value. If the evaluation fails, its failure is returned and nothing is
    /// bound.
    pub fn bind<G: Signal, A: Action>(
        self,
        event_loop: &mut EventLoop<G, A>,
        edge: Edge,
        command: AnyCommand,
    ) -> (outcome: Result<Trigger, CommandError>)
        requires
            old(event_loop)@.wf(),
            self.condition < old(event_loop)@.conditions.len(),
        ensures
            final(event_loop)@.wf(),
            outcome is Err ==> old(event_loop)@.sampled(final(event_loop)@),
            old(event_loop)@.source_free(self.condition as int) ==> outcome is Ok,
            outcome matches Ok(trigger) ==> trigger == self && old(event_loop)@.bound(
                final(event_loop)@,
                Binding::Trigger { edge, condition: self.condition, command },
            ),
    {
        let pressed_last = match event_loop.evaluate(self.condition) {
            Ok(pressed_last) => pressed_last,
            Err(failure) => {
                return Err(failure);
            },
        };
        event_loop.bind_trigger(edge, self.condition, pressed_last, command);
        Ok(self)
    }

    /// Schedules `command` whenever the condition turns true.
    pub fn on_true<G: Signal, A: Action>(
        self,
        event_loop: &mut EventLoop<G, A>,
        command: AnyCommand,
    ) -> (outcome: Result<Trigger, CommandError>)
        requires
            old(event_loop)@.wf(),
            self.condition < old(event_loop)@.conditions.len(),
        ensures
            final(event_loop)@.wf(),
            outcome is Err ==> old(event_loop)@.sampled(final(event_loop)@),
            old(event_loop)@.source_free(self.condition as int) ==> outcome is Ok,
            outcome matches Ok(trigger) ==> trigger == self && old(event_loop)@.bound(
                final(event_loop)@,
                Binding::Trigger { edge: Edge::OnTrue, condition: self.condition, command },
            ),
    {
        self.bind(event_loop, Edge::OnTrue, command)
    }

    /// Schedules `command` whenever the condition turns false.
    pub fn on_false<G: Signal, A: Action>(
        self,
        event_loop: &mut EventLoop<G, A>,
        command: AnyCommand,
    ) -> (outcome: Result<Trigger, CommandError>)
        requires
            old(event_loop)@.wf(),
            self.condition < old(event_loop)@.conditions.len(),
        ensures
            final(event_loop)@.wf(),
            outcome is Err ==> old(event_loop)@.sampled(final(event_loop)@),
            old(event_loop)@.source_free(self.condition as int) ==> outcome is Ok,
            outcome matches Ok(trigger) ==> trigger == self && old(event_loop)@.bound(
                final(event_loop)@,
                Binding::Trigger { edge: Edge::OnFalse, condition: self.condition, command },
            ),
    {
        self.bind(event_loop, Edge::OnFalse, command)
    }

    /// Schedules `command` whenever the condition turns true and cancels it
    /// whenever the condition turns false.
    pub fn while_true<G: Signal, A: Action>(
        self,
        event_loop: &mut EventLoop<G, A>,
        command: AnyCommand,
    ) -> (outcome: Result<Trigger, CommandError>)
        requires
            old(event_loop)@.wf(),
            self.condition < old(event_loop)@.conditions.len(),
        ensures
            final(event_loop)@.wf(),
            outcome is Err ==> old(event_loop)@.sampled(final(event_loop)@),
            old(event_loop)@.source_free(self.condition as int) ==> outcome is Ok,
            outcome matches Ok(trigger) ==> trigger == self && old(event_loop)@.bound(
                final(event_loop)@,
                Binding::Trigger { edge: Edge::WhileTrue, condition: self.condition, command },
            ),
    {
        self.bind(event_loop, Edge::WhileTrue, command)
    }

    /// Schedules `command` whenever the condition turns false and cancels it
    /// whenever the condition turns true.
    pub fn while_false<G: Signal, A: Action>(
        self,
        event_loop: &mut EventLoop<G, A>,
        command: AnyCommand,
    ) -> (outcome: Result<Trigger, CommandError>)
        requires
            old(event_loop)@.wf(),
            self.condition < old(event_loop)@.conditions.len(),
        ensures
            final(event_loop)@.wf(),
            outcome is Err ==> old(event_loop)@.sampled(final(event_loop)@),
            old(event_loop)@.source_free(self.condition as int) ==> outcome is Ok,
            outcome matches Ok(trigger) ==> trigger == self && old(event_loop)@.bound(
                final(event_loop)@,
                Binding::Trigger { edge: Edge::WhileFalse, condition: self.condition, command },
            ),
    {
        self.bind(event_loop, Edge::WhileFalse, command)
    }

    /// Whenever the condition turns true, cancels `command` if it is
    /// scheduled and schedules it if it is not.
    pub fn toggle_on_true<G: Signal, A: Action>(
        self,
        event_loop: &mut EventLoop<G, A>,
        command: AnyCommand,
    ) -> (outcome: Result<Trigger, CommandError>)
        requires
            old(event_loop)@.wf(),
            self.condition < old(event_loop)@.conditions.len(),
        ensures
            final(event_loop)@.wf(),
            outcome is Err ==> old(event_loop)@.sampled(final(event_loop)@),
            old(event_loop)@.source_free(self.condition as int) ==> outcome is Ok,
            outcome matches Ok(trigger) ==> trigger == self && old(event_loop)@.bound(
                final(event_loop)@,
                Binding::Trigger { edge: Edge::ToggleOnTrue, condition: self.condition, command },
            ),
    {
        self.bind(event_loop, Edge::ToggleOnTrue, command)
    }

    /// Whenever the condition turns false, cancels `command` if it is
    /// scheduled and schedules it if it is not.
    pub fn toggle_on_false<G: Signal, A: Action>(
        self,
        event_loop: &mut EventLoop<G, A>,
        command: AnyCommand,
    ) -> (outcome: Result<Trigger, CommandError>)
        requires
            old(event_loop)@.wf(),
            self.condition < old(event_loop)@.conditions.len(),
        ensures
            final(event_loop)@.wf(),
            outcome is Err ==> old(event_loop)@.sampled(final(event_loop)@),
            old(event_loop)@.source_free(self.condition as int) ==> outcome is Ok,
            outcome matches Ok(trigger) ==> trigger == self && old(event_loop)@.bound(
                final(event_loop)@,
                Binding::Trigger { edge: Edge::ToggleOnFalse, condition: self.condition, command },
            ),
    {
        self.bind(event_loop, Edge::ToggleOnFalse, command)
    }

    /// Evaluates the condition now.
    pub fn is_active<G: Signal, A: Action>(&self, event_loop: &mut EventLoop<G, A>) -> (outcome: Result<
        bool,
        CommandError,
    >)
        requires
            old(event_loop)@.wf(),
            self.condition < old(event_loop)@.conditions.len(),
        ensures
            old(event_loop)@.sampled(final(event_loop)@),
            outcome matches Ok(value) ==> old(event_loop)@.can_be(self.condition as int, value)
                && old(event_loop)@.read(final(event_loop)@, self.condition as int, value),
            old(event_loop)@.source_free(self.condition as int) ==> outcome == Ok::<bool, CommandError>(
                old(event_loop)@.value_of(self.condition as int),
            ),
    {
        event_loop.evaluate(self.condition)
    }

    /// The trigger whose condition holds when the conditions of `self` and of
    /// `other` both hold. Both are evaluated anew each time, the second only
    /// if the first holds.
    pub fn and<G: Signal, A: Action>(&self, event_loop: &mut EventLoop<G, A>, other: &Trigger) -> (trigger:
        Trigger)
        requires
            old(event_loop)@.wf(),
            self.condition < old(event_loop)@.conditions.len(),
            other.condition < old(event_loop)@.conditions.len(),
        ensures
            final(event_loop)@.wf(),
            trigger.condition == old(event_loop)@.conditions.len(),
            final(event_loop)@ == (EventLoopView {
                conditions: old(event_loop)@.conditions.push(
                    Condition::And(self.condition, other.condition),
                ),
                ..old(event_loop)@
            }),
    {
        Trigger {
            condition: event_loop.push_condition(Condition::And(self.condition, other.condition)),
        }
    }

    /// The trigger whose condition holds when the condition of `self` or that
    /// of `other` holds. Both are evaluated anew each time, the second only
    /// if the first does not hold.
    pub fn or<G: Signal, A: Action>(&self, event_loop: &mut EventLoop<G, A>, other: &Trigger) -> (trigger:
        Trigger)
        requires
            old(event_loop)@.wf(),
            self.condition < old(event_loop)@.conditions.len(),
            other.condition < old(event_loop)@.conditions.len(),
        ensures
            final(event_loop)@.wf(),
            trigger.condition == old(event_loop)@.conditions.len(),
            final(event_loop)@ == (EventLoopView {
                conditions: old(event_loop)@.conditions.push(
                    Condition::Or(self.condition, other.condition),
                ),
                ..old(event_loop)@
            }),
    {
        Trigger {
            condition: event_loop.push_condition(Condition::Or(self.condition, other.condition)),
        }
    }

    /// The trigger whose condition holds when that of `self` does not.
    pub fn negate<G: Signal, A: Action>(&self, event_loop: &mut EventLoop<G, A>) -> (trigger: Trigger)
        requires
            old(event_loop)@.wf(),
            self.condition < old(event_loop)@.conditions.len(),
        ensures
            final(event_loop)@.wf(),
            trigger.condition == old(event_loop)@.conditions.len(),
            final(event_loop)@ == (EventLoopView {
                conditions: old(event_loop)@.conditions.push(Condition::Not(self.condition)),
                ..old(event_loop)@
            }),
    {
        Trigger { condition: event_loop.push_condition(Condition::Not(self.condition)) }
    }
}

} // verus!
