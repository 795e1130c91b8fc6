use vstd::prelude::*;
use std::collections::VecDeque;
use crate::components::{drain_front, ActionQueue, CurrentAction, DropReason, StopReason};

verus! {

/// A call of one lifecycle method of an action.
///
/// `action` is the id of the action whose method is called; `agent` is the
/// entity bits of the agent it is called for, `None` where the agent no
/// longer exists.
#[derive(Debug, Clone, Copy, PartialEq, Eq, Structural)]
pub enum HookCall {
    /// `on_add`: the action is being added to the queue of `agent`.
    OnAdd { action: u64, agent: u64 },
    /// `on_start`: the action is started; its answer says whether it is
    /// already finished.
    OnStart { action: u64, agent: u64 },
    /// `on_stop`: the action is stopped for `reason`.
    OnStop { action: u64, agent: Option<u64>, reason: StopReason },
    /// `on_remove`: the action leaves the queue for good.
    OnRemove { action: u64, agent: Option<u64> },
    /// `on_drop`: the last call, with full ownership of the action.
    OnDrop { action: u64, agent: Option<u64>, reason: DropReason },
}

/// The calls that take `action` out of use for `reason`: `on_remove`, then
/// `on_drop`.
pub open spec fn dropped(action: u64, agent: Option<u64>, reason: DropReason) -> Seq<HookCall> {
    seq![HookCall::OnRemove { action, agent }, HookCall::OnDrop { action, agent, reason }]
}

/// The calls that take each of `actions` out of use for `reason`, front
/// first: for each action `on_remove`, then `on_drop`.
pub open spec fn dropped_each(actions: Seq<u64>, agent: Option<u64>, reason: DropReason) -> Seq<
    HookCall,
>
    decreases actions.len(),
{
    if actions.len() == 0 {
        seq![]
    } else {
        dropped_each(actions.drop_last(), agent, reason) + dropped(actions.last(), agent, reason)
    }
}

/// The calls that clear `actions` from a queue, front first: for each
/// action `on_remove`, then `on_drop` as cleared.
pub open spec fn cleared(actions: Seq<u64>, agent: Option<u64>) -> Seq<HookCall> {
    dropped_each(actions, agent, DropReason::Cleared)
}

/// Appends to `calls` the calls that take each of `actions` out of use for
/// `reason`, front first.
pub(crate) fn push_dropped_each(
    calls: &mut VecDeque<HookCall>,
    actions: &Vec<u64>,
    agent: Option<u64>,
    reason: DropReason,
)
    ensures
        final(calls)@ == old(calls)@ + dropped_each(actions@, agent, reason),
{
    let n = actions.len();
    let mut i: usize = 0;
    while i < n
        invariant
            n == actions@.len(),
            i <= n,
            calls@ == old(calls)@ + dropped_each(actions@.take(i as int), agent, reason),
        decreases n - i,
    {
        let a = actions[i];
        calls.push_back(HookCall::OnRemove { action: a, agent });
        calls.push_back(HookCall::OnDrop { action: a, agent, reason });
        proof {
            assert(actions@.take(i + 1).drop_last() =~= actions@.take(i as int));
            assert(actions@.take(i + 1).last() == a);
            assert(calls@ =~= old(calls)@ + dropped_each(actions@.take(i + 1), agent, reason));
        }
        i = i + 1;
    }
    assert(actions@.take(n as int) =~= actions@);
}

impl CurrentAction {
    /// What happens when the current action component is removed from an
    /// agent (the agent was despawned): the running action is taken out and
    /// the returned calls stop it as canceled and drop it as done, with no
    /// agent.
    pub fn on_remove_hook(&mut self) -> (calls: Vec<HookCall>)
        ensures
            final(self)@ == None::<u64>,
            old(self)@ is None ==> calls@ == Seq::<HookCall>::empty(),
            old(self)@ matches Some(a) ==> calls@ == seq![
                HookCall::OnStop { action: a, agent: None, reason: StopReason::Canceled },
            ] + dropped(a, None, DropReason::Done),
    {
        let mut calls: Vec<HookCall> = Vec::new();
        if let Some(a) = self.take() {
            calls.push(HookCall::OnStop { action: a, agent: None, reason: StopReason::Canceled });
            calls.push(HookCall::OnRemove { action: a, agent: None });
            calls.push(HookCall::OnDrop { action: a, agent: None, reason: DropReason::Done });
            assert(calls@ =~= seq![
                HookCall::OnStop { action: a, agent: None, reason: StopReason::Canceled },
            ] + dropped(a, None, DropReason::Done));
        }
        calls
    }
}

impl ActionQueue {
    /// What happens when the action queue component is removed from an
    /// agent (the agent was despawned): the queue is emptied and the
    /// returned calls drop each action as cleared, front first, with no
    /// agent.
    pub fn on_remove_hook(&mut self) -> (calls: Vec<HookCall>)
        ensures
            final(self)@ == Seq::<u64>::empty(),
            calls@ == cleared(old(self)@, None),
    {
        let actions = self.take_all();
        let mut queued: VecDeque<HookCall> = VecDeque::new();
        push_dropped_each(&mut queued, &actions, None, DropReason::Cleared);
        drain_front(&mut queued)
    }
}

} // verus!
