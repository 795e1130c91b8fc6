//! What holds of whole operations: an operation is driven to its end on an
//! agent whose components only the operation changes (the lifecycle calls
//! leave them alone), and `on_start` answers by a fixed rule per action.

use vstd::prelude::*;
use crate::agent::AgentView;
use crate::components::{AddConfig, AddOrder, DropReason, StopReason};
use crate::hooks::{cleared, dropped, dropped_each, HookCall};
use crate::lifecycle::carried;
use crate::plugin::{fresh, resume_step, OperationView, Phase, Request, Transition};

verus! {

/// Where a run of an operation ended, and the calls it asked for on the way.
#[verifier::ext_equal]
pub struct Run {
    pub end: Transition,
    pub calls: Seq<HookCall>,
}

/// The answer given at a resumption: what `on_start` answered for the action
/// that was just started, where one was.
pub open spec fn answer(op: OperationView, started: spec_fn(u64) -> bool) -> bool {
    match op.phase {
        Phase::AwaitStart { action } => started(action),
        _ => false,
    }
}

/// Driving `op` on agent `s` for at most `fuel` resumptions, where the
/// lifecycle calls leave the agent's components alone and `on_start` of an
/// action `a` answers `started(a)`.
pub open spec fn run(op: OperationView, s: AgentView, started: spec_fn(u64) -> bool, fuel: nat) -> Run
    decreases fuel,
{
    if fuel == 0 {
        Run { end: Transition { op, agent: s }, calls: seq![] }
    } else {
        let (t, request) = resume_step(op, s, answer(op, started));
        match request {
            Request::Call(call) => {
                let rest = run(t.op, t.agent, started, (fuel - 1) as nat);
                Run { end: rest.end, calls: seq![call] + rest.calls }
            },
            _ => Run { end: t, calls: seq![] },
        }
    }
}

/// The operation with nothing pending.
pub open spec fn settled(op: OperationView) -> OperationView {
    OperationView { pending: seq![], ..op }
}

/// Pending calls are handed out first, in order, before the operation
/// moves on.
pub proof fn lemma_run_pending(
    op: OperationView,
    s: AgentView,
    started: spec_fn(u64) -> bool,
    fuel: nat,
)
    requires
        fuel >= op.pending.len(),
    ensures
        run(op, s, started, fuel) == (Run {
            end: run(settled(op), s, started, (fuel - op.pending.len()) as nat).end,
            calls: op.pending + run(
                settled(op),
                s,
                started,
                (fuel - op.pending.len()) as nat,
            ).calls,
        }),
    decreases op.pending.len(),
{
    if op.pending.len() > 0 {
        let next = OperationView { pending: op.pending.drop_first(), ..op };
        lemma_run_pending(next, s, started, (fuel - 1) as nat);
        assert(settled(next) == settled(op));
        assert(op.pending =~= seq![op.pending[0]] + next.pending);
    } else {
        assert(settled(op) == op);
    }
}


/// An operation that has nothing pending and is done, or has reached the
/// limit, stays so: resuming it asks for nothing and changes nothing.
pub proof fn lemma_run_done(op: OperationView, s: AgentView, started: spec_fn(u64) -> bool, fuel: nat)
    requires
        op.pending.len() == 0,
        op.phase is Done || op.phase is LoopLimit,
    ensures
        run(op, s, started, fuel) == (Run { end: Transition { op, agent: s }, calls: seq![] }),
{
}

/// Pausing puts the running action back at the front of the queue, so that
/// executing the actions starts it again: pausing an agent whose action `a`
/// runs leaves nothing running and `a` in front of the queue, with the one
/// call `on_stop` as paused; executing then makes `a` run again (where its
/// `on_start` does not answer that it is finished) with the queue as it was
/// before the pause, with the one call `on_start`.
pub proof fn lemma_pause_then_execute(agent: u64, s: AgentView, started: spec_fn(u64) -> bool)
    requires
        s.exists,
        s.current matches Some(Some(a)) && !started(a),
        s.queue is Some,
    ensures
        ({
            let a = s.current->0->0;
            let q = s.queue->0;
            let paused = run(
                fresh(agent, Phase::StopCurrentAction { reason: StopReason::Paused, then_start: false }, seq![]),
                s,
                started,
                2,
            );
            let resumed = run(fresh(agent, Phase::ExecuteActions, seq![]), paused.end.agent, started, 2);
            &&& paused.end.op.phase is Done
            &&& paused.end.agent == (AgentView { current: Some(None), queue: Some(seq![a] + q), ..s })
            &&& paused.calls == seq![
                HookCall::OnStop { action: a, agent: Some(agent), reason: StopReason::Paused },
            ]
            &&& resumed.end.op.phase is Done
            &&& resumed.end.agent == (AgentView { current: Some(Some(a)), queue: Some(q), ..s })
            &&& resumed.calls == seq![HookCall::OnStart { action: a, agent }]
        }),
{
    reveal_with_fuel(run, 3);
    let a = s.current->0->0;
    let q = s.queue->0;
    assert((seq![a] + q).drop_first() =~= q);
}

/// The calls for an action that is finished as soon as it starts: it is
/// started, stopped as finished and dropped as done.
pub open spec fn finished_at_once(action: u64, agent: u64) -> Seq<HookCall> {
    seq![
        HookCall::OnStart { action, agent },
        HookCall::OnStop { action, agent: Some(agent), reason: StopReason::Finished },
    ] + dropped(action, Some(agent), DropReason::Done)
}

/// What starting the next action of a queue comes to.
#[verifier::ext_equal]
pub struct Started {
    /// The action left running, if any.
    pub running: Option<u64>,
    /// The queue that is left.
    pub rest: Seq<u64>,
    /// The calls made on the way.
    pub calls: Seq<HookCall>,
    /// How many actions finished as soon as they started.
    pub finished: nat,
}

/// Starting the next action of `queue` for `agent`, where `on_start` of an
/// action `a` answers `started(a)`: actions are started front first; each
/// that is finished at once is dropped, and the first that is not is left
/// running; where all are finished, nothing runs and the queue is empty.
pub open spec fn start_from(queue: Seq<u64>, agent: u64, started: spec_fn(u64) -> bool) -> Started
    decreases queue.len(),
{
    if queue.len() == 0 {
        Started { running: None, rest: seq![], calls: seq![], finished: 0 }
    } else if !started(queue[0]) {
        Started {
            running: Some(queue[0]),
            rest: queue.drop_first(),
            calls: seq![HookCall::OnStart { action: queue[0], agent }],
            finished: 0,
        }
    } else {
        let r = start_from(queue.drop_first(), agent, started);
        Started {
            running: r.running,
            rest: r.rest,
            calls: finished_at_once(queue[0], agent) + r.calls,
            finished: r.finished + 1,
        }
    }
}

/// The calls for actions that each finish as soon as they start, in order.
pub open spec fn finished_all(actions: Seq<u64>, agent: u64) -> Seq<HookCall>
    decreases actions.len(),
{
    if actions.len() == 0 {
        seq![]
    } else {
        finished_at_once(actions[0], agent) + finished_all(actions.drop_first(), agent)
    }
}

/// How many actions, at most, may finish at once while starting the next
/// action of an operation that has counted `counter` of them already.
pub open spec fn finish_budget(counter: u16) -> nat {
    (u16::MAX - counter) as nat
}

/// Where starting the next action comes to: to rest as [`start_from`]
/// says, or, where that would take `finish_budget(counter)` or more actions
/// finishing at once, to the limit right after that many have finished.
#[verifier::ext_equal]
pub struct Outcome {
    /// Whether the limit was reached.
    pub limited: bool,
    /// The action left running, if any.
    pub running: Option<u64>,
    /// The queue that is left.
    pub rest: Seq<u64>,
    /// The calls made on the way.
    pub calls: Seq<HookCall>,
}

/// The phase in which starting the next action ends: the limit, or done.
pub open spec fn ending(o: Outcome) -> Phase {
    if o.limited {
        Phase::LoopLimit
    } else {
        Phase::Done
    }
}

/// Starting the next action of `queue`, by an operation that has counted
/// `counter` actions finishing at once already.
pub open spec fn start_outcome(queue: Seq<u64>, agent: u64, started: spec_fn(u64) -> bool, counter: u16)
    -> Outcome {
    let o = start_from(queue, agent, started);
    if o.finished < finish_budget(counter) {
        Outcome { limited: false, running: o.running, rest: o.rest, calls: o.calls }
    } else {
        let n = finish_budget(counter) as int;
        Outcome {
            limited: true,
            running: None,
            rest: queue.skip(n),
            calls: finished_all(queue.take(n), agent),
        }
    }
}

/// At most every action of a queue finishes at once.
pub proof fn lemma_finished_at_most_all(queue: Seq<u64>, agent: u64, started: spec_fn(u64) -> bool)
    ensures
        start_from(queue, agent, started).finished <= queue.len(),
    decreases queue.len(),
{
    if queue.len() > 0 && started(queue[0]) {
        lemma_finished_at_most_all(queue.drop_first(), agent, started);
    }
}

/// Where as many actions finish at once as the budget allows, starting the
/// next action stops at the limit right after the last of them finished,
/// with nothing running.
pub proof fn lemma_start_next_limit(op: OperationView, s: AgentView, started: spec_fn(u64) -> bool, fuel: nat)
    requires
        op.pending.len() == 0,
        op.phase is StartNextAction,
        s.exists,
        s.current == Some(None::<u64>),
        s.queue is Some,
        op.counter < u16::MAX,
        start_from(s.queue->0, op.agent, started).finished >= finish_budget(op.counter),
        fuel >= 4 * finish_budget(op.counter) + 1,
    ensures
        ({
            let q = s.queue->0;
            let n = finish_budget(op.counter) as int;
            let r = run(op, s, started, fuel);
            &&& r.end.op.phase is LoopLimit
            &&& r.end.op.pending.len() == 0
            &&& r.end.agent == (AgentView { queue: Some(q.skip(n)), ..s })
            &&& r.calls == finished_all(q.take(n), op.agent)
        }),
    decreases s.queue->0.len(),
{
    let q = s.queue->0;
    let agent = op.agent;
    let n = finish_budget(op.counter) as int;
    lemma_finished_at_most_all(q, agent, started);
    assert(q.len() > 0);
    let a = q[0];
    assert(started(a));
    let s1 = AgentView { queue: Some(q.drop_first()), ..s };
    let op1 = OperationView { pending: seq![], phase: Phase::AwaitStart { action: a }, ..op };
    assert(resume_step(op, s, answer(op, started)).0 == (Transition { op: op1, agent: s1 }));
    assert(run(op, s, started, fuel).calls
        == seq![HookCall::OnStart { action: a, agent }] + run(op1, s1, started, (fuel - 1) as nat).calls);
    assert(run(op, s, started, fuel).end == run(op1, s1, started, (fuel - 1) as nat).end);
    let calls = seq![
        HookCall::OnStop { action: a, agent: Some(agent), reason: StopReason::Finished },
    ] + dropped(a, Some(agent), DropReason::Done);
    let f2 = (fuel - 2) as nat;
    assert(q.take(n).drop_first() =~= q.drop_first().take(n - 1));
    assert(q.drop_first().skip(n - 1) =~= q.skip(n));
    assert(q.take(n)[0] == a);
    if op.counter + 1 >= u16::MAX {
        let op2 = OperationView { pending: calls.drop_first(), phase: Phase::LoopLimit, ..op };
        assert(resume_step(op1, s1, answer(op1, started)).0 == (Transition { op: op2, agent: s1 }));
        assert(resume_step(op1, s1, answer(op1, started)).1 == Request::Call(calls[0]));
        assert(run(op1, s1, started, (fuel - 1) as nat).calls == seq![calls[0]] + run(op2, s1, started, f2).calls);
        assert(run(op1, s1, started, (fuel - 1) as nat).end == run(op2, s1, started, f2).end);
        lemma_run_pending(op2, s1, started, f2);
        lemma_run_done(settled(op2), s1, started, (f2 - 2) as nat);
        assert(n == 1);
        assert(q.take(n).drop_first() =~= seq![]);
        assert(finished_all(q.take(n).drop_first(), agent) =~= seq![]);
        assert(seq![calls[0]] + op2.pending =~= calls);
        assert(run(op, s, started, fuel).calls =~= finished_all(q.take(n), agent));
    } else {
        let op2 = OperationView {
            pending: calls.drop_first(),
            phase: Phase::StartNextAction,
            counter: (op.counter + 1) as u16,
            ..op
        };
        assert(resume_step(op1, s1, answer(op1, started)).0 == (Transition { op: op2, agent: s1 }));
        assert(resume_step(op1, s1, answer(op1, started)).1 == Request::Call(calls[0]));
        assert(run(op1, s1, started, (fuel - 1) as nat).calls == seq![calls[0]] + run(op2, s1, started, f2).calls);
        assert(run(op1, s1, started, (fuel - 1) as nat).end == run(op2, s1, started, f2).end);
        lemma_run_pending(op2, s1, started, f2);
        let op3 = settled(op2);
        let f4 = (fuel - 4) as nat;
        lemma_start_next_limit(op3, s1, started, f4);
        assert(seq![calls[0]] + op2.pending =~= calls);
        assert(run(op, s, started, fuel).calls =~= finished_at_once(a, agent) + finished_all(
            q.drop_first().take(n - 1),
            agent,
        ));
    }
}

/// Starting the next action comes to what [`start_outcome`] says, on every
/// queue: to rest, or to the limit.
pub proof fn lemma_start_next_outcome(
    op: OperationView,
    s: AgentView,
    started: spec_fn(u64) -> bool,
    fuel: nat,
)
    requires
        op.pending.len() == 0,
        op.phase is StartNextAction,
        s.exists,
        s.current == Some(None::<u64>),
        s.queue is Some,
        op.counter < u16::MAX,
        fuel >= 4 * s.queue->0.len() + 2,
    ensures
        ({
            let o = start_outcome(s.queue->0, op.agent, started, op.counter);
            let r = run(op, s, started, fuel);
            &&& r.end.op.phase == ending(o)
            &&& r.end.op.pending.len() == 0
            &&& r.end.agent == (AgentView { current: Some(o.running), queue: Some(o.rest), ..s })
            &&& r.calls == o.calls
        }),
{
    let q = s.queue->0;
    lemma_finished_at_most_all(q, op.agent, started);
    if start_from(q, op.agent, started).finished < finish_budget(op.counter) {
        lemma_start_next(op, s, started, fuel);
    } else {
        lemma_start_next_limit(op, s, started, fuel);
    }
}

/// Starting the next action goes on until a started action is not
/// immediately finished or the queue is empty (see [`start_from`]), as long
/// as fewer than `u16::MAX` actions in all finish at once.
pub proof fn lemma_start_next(op: OperationView, s: AgentView, started: spec_fn(u64) -> bool, fuel: nat)
    requires
        op.pending.len() == 0,
        op.phase is StartNextAction,
        s.exists,
        s.current == Some(None::<u64>),
        s.queue is Some,
        op.counter + start_from(s.queue->0, op.agent, started).finished < u16::MAX,
        fuel >= 4 * s.queue->0.len() + 2,
    ensures
        ({
            let o = start_from(s.queue->0, op.agent, started);
            let r = run(op, s, started, fuel);
            &&& r.end.op.phase is Done
            &&& r.end.op.pending.len() == 0
            &&& r.end.agent == (AgentView { current: Some(o.running), queue: Some(o.rest), ..s })
            &&& r.calls == o.calls
        }),
    decreases s.queue->0.len(),
{
    let q = s.queue->0;
    let agent = op.agent;
    if q.len() > 0 {
        let a = q[0];
        let s1 = AgentView { queue: Some(q.drop_first()), ..s };
        let op1 = OperationView { pending: seq![], phase: Phase::AwaitStart { action: a }, ..op };
        assert(resume_step(op, s, answer(op, started)).0 == (Transition { op: op1, agent: s1 }));
        assert(run(op, s, started, fuel).calls
            == seq![HookCall::OnStart { action: a, agent }] + run(op1, s1, started, (fuel - 1) as nat).calls);
        assert(run(op, s, started, fuel).end == run(op1, s1, started, (fuel - 1) as nat).end);
        if !started(a) {
            assert(run(op1, s1, started, (fuel - 1) as nat).calls =~= seq![]);
            assert(q.drop_first() == start_from(q, agent, started).rest);
        } else {
            let calls = seq![
                HookCall::OnStop { action: a, agent: Some(agent), reason: StopReason::Finished },
            ] + dropped(a, Some(agent), DropReason::Done);
            let op2 = OperationView {
                pending: calls.drop_first(),
                phase: Phase::StartNextAction,
                counter: (op.counter + 1) as u16,
                ..op
            };
            assert(resume_step(op1, s1, answer(op1, started)).0 == (Transition { op: op2, agent: s1 }));
            assert(resume_step(op1, s1, answer(op1, started)).1 == Request::Call(calls[0]));
            let f2 = (fuel - 2) as nat;
            assert(run(op1, s1, started, (fuel - 1) as nat).calls == seq![calls[0]] + run(op2, s1, started, f2).calls);
            assert(run(op1, s1, started, (fuel - 1) as nat).end == run(op2, s1, started, f2).end);
            lemma_run_pending(op2, s1, started, f2);
            let op3 = settled(op2);
            let f4 = (fuel - 4) as nat;
            lemma_start_next(op3, s1, started, f4);
            let r = start_from(q.drop_first(), agent, started);
            assert(run(op, s, started, fuel).calls =~= finished_at_once(a, agent) + r.calls);
        }
    }
}

/// Stopping the running action `a` as finished or canceled and then starting
/// the next action (what `next` does, and what the check does for a finished
/// action): `a` is stopped and dropped as done, then the next action starts
/// as [`start_outcome`] says, coming to rest or to the limit.
pub proof fn lemma_stop_then_start(
    agent: u64,
    reason: StopReason,
    s: AgentView,
    started: spec_fn(u64) -> bool,
    fuel: nat,
)
    requires
        reason != StopReason::Paused,
        s.exists,
        s.current matches Some(Some(_)),
        s.queue is Some,
        fuel >= 4 * s.queue->0.len() + 5,
    ensures
        ({
            let a = s.current->0->0;
            let o = start_outcome(s.queue->0, agent, started, 0);
            let r = run(
                fresh(agent, Phase::StopCurrentAction { reason, then_start: true }, seq![]),
                s,
                started,
                fuel,
            );
            &&& r.end.op.phase == ending(o)
            &&& r.end.agent == (AgentView { current: Some(o.running), queue: Some(o.rest), ..s })
            &&& r.calls == seq![HookCall::OnStop { action: a, agent: Some(agent), reason }]
                + dropped(a, Some(agent), DropReason::Done) + o.calls
        }),
{
    let a = s.current->0->0;
    let op = fresh(agent, Phase::StopCurrentAction { reason, then_start: true }, seq![]);
    let s1 = AgentView { current: Some(None), ..s };
    let op1 = OperationView {
        pending: dropped(a, Some(agent), DropReason::Done),
        phase: Phase::StartNextAction,
        ..op
    };
    assert((seq![HookCall::OnStop { action: a, agent: Some(agent), reason }] + dropped(
        a,
        Some(agent),
        DropReason::Done,
    )).drop_first() =~= dropped(a, Some(agent), DropReason::Done));
    assert(resume_step(op, s, answer(op, started)).0 == (Transition { op: op1, agent: s1 }));
    lemma_run_pending(op1, s1, started, (fuel - 1) as nat);
    lemma_start_next_outcome(settled(op1), s1, started, (fuel - 3) as nat);
    let o = start_outcome(s.queue->0, agent, started, 0);
    assert(run(op, s, started, fuel).calls =~= seq![
        HookCall::OnStop { action: a, agent: Some(agent), reason },
    ] + dropped(a, Some(agent), DropReason::Done) + o.calls);
}

/// The action running on agent `s`, if it has the current action component
/// and an action runs.
pub open spec fn running_in(s: AgentView) -> Option<u64> {
    match s.current {
        Some(c) => c,
        None => None,
    }
}

/// The calls that clear the running action `current`, if any: it is
/// stopped as canceled and dropped as cleared.
pub open spec fn cleared_current(current: Option<u64>, agent: u64) -> Seq<HookCall> {
    match current {
        Some(a) => seq![
            HookCall::OnStop { action: a, agent: Some(agent), reason: StopReason::Canceled },
        ] + dropped(a, Some(agent), DropReason::Cleared),
        None => seq![],
    }
}

/// Taking actions out of use makes two calls per action.
pub proof fn lemma_dropped_each_len(actions: Seq<u64>, agent: Option<u64>, reason: DropReason)
    ensures
        dropped_each(actions, agent, reason).len() == 2 * actions.len(),
    decreases actions.len(),
{
    if actions.len() > 0 {
        lemma_dropped_each_len(actions.drop_last(), agent, reason);
    }
}

/// Clearing leaves nothing running and an empty queue: the running action
/// is stopped as canceled and dropped as cleared, then every queued action
/// is dropped as cleared, front first. An agent without the current action
/// component has its queue cleared all the same.
pub proof fn lemma_clear(agent: u64, s: AgentView, started: spec_fn(u64) -> bool, fuel: nat)
    requires
        s.exists,
        s.queue is Some,
        fuel >= 2 * s.queue->0.len() + 5,
    ensures
        ({
            let r = run(fresh(agent, Phase::ClearActions, seq![]), s, started, fuel);
            &&& r.end.op.phase is Done
            &&& r.end.agent == (AgentView {
                current: match s.current {
                    Some(_) => Some(None),
                    None => None,
                },
                queue: Some(Seq::<u64>::empty()),
                ..s
            })
            &&& r.calls == cleared_current(running_in(s), agent) + cleared(s.queue->0, Some(agent))
        }),
{
    let op = fresh(agent, Phase::ClearActions, seq![]);
    let q = s.queue->0;
    let opq = OperationView { phase: Phase::ClearQueue, ..op };
    if s.current matches Some(Some(_)) {
        let s1 = AgentView { current: Some(None), ..s };
        let calls = cleared_current(running_in(s), agent);
        let op1 = OperationView { pending: calls.drop_first(), phase: Phase::ClearQueue, ..op };
        assert(resume_step(op, s, answer(op, started)).0 == (Transition { op: op1, agent: s1 }));
        assert(run(op, s, started, fuel).calls == seq![calls[0]] + run(op1, s1, started, (fuel - 1) as nat).calls);
        lemma_run_pending(op1, s1, started, (fuel - 1) as nat);
        assert(settled(op1) == opq);
        lemma_clear_queue(opq, s1, started, (fuel - 3) as nat);
        assert(seq![calls[0]] + op1.pending =~= calls);
    } else {
        assert(resume_step(op, s, answer(op, started)) == resume_step(opq, s, answer(opq, started)));
        assert(run(op, s, started, fuel) == run(opq, s, started, fuel));
        lemma_clear_queue(opq, s, started, fuel);
        assert(cleared_current(running_in(s), agent) =~= seq![]);
    }
}

/// Clearing the queue drops every queued action as cleared, front first,
/// and leaves the queue empty.
proof fn lemma_clear_queue(op: OperationView, s: AgentView, started: spec_fn(u64) -> bool, fuel: nat)
    requires
        op.pending.len() == 0,
        op.phase is ClearQueue,
        s.exists,
        s.queue is Some,
        fuel >= 2 * s.queue->0.len() + 1,
    ensures
        ({
            let r = run(op, s, started, fuel);
            &&& r.end.op.phase is Done
            &&& r.end.agent == (AgentView { queue: Some(Seq::<u64>::empty()), ..s })
            &&& r.calls == cleared(s.queue->0, Some(op.agent))
        }),
{
    let q = s.queue->0;
    let agent = op.agent;
    let s2 = AgentView { queue: Some(Seq::<u64>::empty()), ..s };
    lemma_dropped_each_len(q, Some(agent), DropReason::Cleared);
    if q.len() > 0 {
        let p = cleared(q, Some(agent));
        let opd = OperationView { pending: p.drop_first(), phase: Phase::Done, ..op };
        assert(resume_step(op, s, answer(op, started)).0 == (Transition { op: opd, agent: s2 }));
        assert(run(op, s, started, fuel).calls == seq![p[0]] + run(opd, s2, started, (fuel - 1) as nat).calls);
        lemma_run_pending(opd, s2, started, (fuel - 1) as nat);
        lemma_run_done(settled(opd), s2, started, (fuel - 1 - opd.pending.len()) as nat);
        assert(seq![p[0]] + opd.pending =~= p);
    } else {
        assert(cleared(q, Some(agent)) =~= seq![]);
        assert(q =~= Seq::<u64>::empty());
    }
}

/// Skipping drops the action at the front of the queue as skipped, and
/// leaves the rest of the queue; an empty queue is left alone.
pub proof fn lemma_skip(agent: u64, s: AgentView, started: spec_fn(u64) -> bool, fuel: nat)
    requires
        s.exists,
        s.queue is Some,
        fuel >= 3,
    ensures
        ({
            let q = s.queue->0;
            let r = run(fresh(agent, Phase::SkipNextAction, seq![]), s, started, fuel);
            &&& r.end.op.phase is Done
            &&& q.len() > 0 ==> r.end.agent == (AgentView { queue: Some(q.drop_first()), ..s })
                && r.calls == dropped(q[0], Some(agent), DropReason::Skipped)
            &&& q.len() == 0 ==> r.end.agent == s && r.calls == Seq::<HookCall>::empty()
        }),
{
    reveal_with_fuel(run, 3);
    let q = s.queue->0;
    if q.len() > 0 {
        assert(dropped(q[0], Some(agent), DropReason::Skipped) =~= seq![
            HookCall::OnRemove { action: q[0], agent: Some(agent) },
        ] + seq![HookCall::OnDrop { action: q[0], agent: Some(agent), reason: DropReason::Skipped }]);
    }
}

/// Executing where no action can start (the agent is missing, an action
/// runs, or the queue is missing or empty) changes nothing and makes no
/// call.
pub proof fn lemma_execute_unless_idle(agent: u64, s: AgentView, started: spec_fn(u64) -> bool, fuel: nat)
    requires
        !crate::plugin::can_start(s),
    ensures
        run(fresh(agent, Phase::ExecuteActions, seq![]), s, started, fuel).end.agent == s,
        run(fresh(agent, Phase::ExecuteActions, seq![]), s, started, fuel).calls
            == Seq::<HookCall>::empty(),
{
    reveal_with_fuel(run, 2);
}

/// Adding to an agent that does not exist changes nothing and makes no
/// call, for a single action and for a collection; the operation is left
/// holding what it was given.
pub proof fn lemma_add_to_missing_agent(
    agent: u64,
    config: AddConfig,
    action: u64,
    actions: Seq<u64>,
    s: AgentView,
    started: spec_fn(u64) -> bool,
    fuel: nat,
)
    requires
        !s.exists,
    ensures
        run(fresh(agent, Phase::AddAction { config, action }, seq![]), s, started, fuel).end.agent
            == s,
        run(fresh(agent, Phase::AddAction { config, action }, seq![]), s, started, fuel).calls
            == Seq::<HookCall>::empty(),
        run(fresh(agent, Phase::AddActions { config }, actions), s, started, fuel).end.agent == s,
        run(fresh(agent, Phase::AddActions { config }, actions), s, started, fuel).calls
            == Seq::<HookCall>::empty(),
        fuel >= 1 ==> carried(
            run(fresh(agent, Phase::AddAction { config, action }, seq![]), s, started, fuel).end.op,
        ) == seq![action],
        fuel >= 1 ==> carried(
            run(fresh(agent, Phase::AddActions { config }, actions), s, started, fuel).end.op,
        ) == actions,
{
    reveal_with_fuel(run, 2);
    assert(seq![action] + Seq::<u64>::empty() =~= seq![action]);
}

/// The `on_add` calls for `actions`, in their order.
pub open spec fn added(actions: Seq<u64>, agent: u64) -> Seq<HookCall> {
    actions.map_values(|a: u64| HookCall::OnAdd { action: a, agent })
}

/// The order in which the actions of a collection are added to the queue:
/// their own for the back, the reverse for the front.
pub open spec fn adding_order(actions: Seq<u64>, order: AddOrder) -> Seq<u64> {
    match order {
        AddOrder::Back => actions,
        AddOrder::Front => actions.reverse(),
    }
}

/// The queue after the collection `actions` was added, in their order, at
/// the end that `order` names.
pub open spec fn queue_with(queue: Seq<u64>, actions: Seq<u64>, order: AddOrder) -> Seq<u64> {
    match order {
        AddOrder::Back => queue + actions,
        AddOrder::Front => actions + queue,
    }
}

#[verifier::spinoff_prover]
#[verifier::rlimit(50)]
proof fn lemma_enqueue_batch(
    op: OperationView,
    s: AgentView,
    started: spec_fn(u64) -> bool,
    fuel: nat,
    config: AddConfig,
    action: u64,
)
    requires
        op.pending.len() == 0,
        op.phase == (Phase::EnqueueBatch { config, action }),
        s.exists,
        s.queue is Some,
        fuel >= op.batch.len() + 1,
    ensures
        ({
            let r = run(op, s, started, fuel);
            let q = s.queue->0;
            let sq = AgentView {
                queue: Some(
                    match config.order {
                        AddOrder::Back => q.push(action) + op.batch,
                        AddOrder::Front => op.batch + seq![action] + q,
                    },
                ),
                ..s
            };
            let tail = if config.start {
                run(
                    OperationView {
                        phase: Phase::StartNextAction,
                        pending: seq![],
                        batch: seq![],
                        ..op
                    },
                    sq,
                    started,
                    (fuel - op.batch.len()) as nat,
                )
            } else {
                Run {
                    end: Transition {
                        op: OperationView { phase: Phase::Done, pending: seq![], batch: seq![], ..op },
                        agent: sq,
                    },
                    calls: seq![],
                }
            };
            &&& r.end == tail.end
            &&& r.calls == added(adding_order(op.batch, config.order), op.agent) + tail.calls
        }),
    decreases op.batch.len(),
{
    let q = s.queue->0;
    let b = op.batch;
    let agent = op.agent;
    let s2 = AgentView { queue: Some(crate::components::pushed(q, action, config.order)), ..s };
    let startop = OperationView {
        phase: Phase::StartNextAction,
        pending: seq![],
        batch: seq![],
        ..op
    };
    if b.len() == 0 {
        assert(added(adding_order(b, config.order), agent) =~= seq![]);
        assert(q.push(action) + b =~= q.push(action));
        assert(b + seq![action] + q =~= seq![action] + q);
        if config.start {
            assert(startop == OperationView { phase: Phase::StartNextAction, ..op });
            assert(resume_step(op, s, answer(op, started)) == resume_step(
                startop,
                s2,
                answer(startop, started),
            ));
            assert(run(op, s, started, fuel) == run(startop, s2, started, fuel));
        }
    } else {
        let next = match config.order {
            AddOrder::Back => b[0],
            AddOrder::Front => b.last(),
        };
        let rest = match config.order {
            AddOrder::Back => b.drop_first(),
            AddOrder::Front => b.drop_last(),
        };
        let op2 = OperationView {
            pending: seq![],
            phase: Phase::EnqueueBatch { config, action: next },
            batch: rest,
            ..op
        };
        assert(resume_step(op, s, answer(op, started)).0 == (Transition { op: op2, agent: s2 }));
        assert(resume_step(op, s, answer(op, started)).1 == Request::Call(
            HookCall::OnAdd { action: next, agent },
        ));
        lemma_enqueue_batch(op2, s2, started, (fuel - 1) as nat, config, next);
        assert(OperationView { phase: Phase::StartNextAction, pending: seq![], batch: seq![], ..op2 }
            == startop);
        assert(OperationView { phase: Phase::Done, pending: seq![], batch: seq![], ..op2 }
            == OperationView { phase: Phase::Done, pending: seq![], batch: seq![], ..op });
        match config.order {
            AddOrder::Back => {
                assert(q.push(action).push(next) + rest =~= q.push(action) + b);
                assert(seq![HookCall::OnAdd { action: next, agent }] + added(rest, agent) =~= added(b, agent));
            },
            AddOrder::Front => {
                assert(rest + seq![next] + (seq![action] + q) =~= b + seq![action] + q);
                assert(seq![HookCall::OnAdd { action: next, agent }] + added(rest.reverse(), agent)
                    =~= added(b.reverse(), agent));
            },
        }
        let tail = if config.start {
            run(startop, AgentView {
                queue: Some(
                    match config.order {
                        AddOrder::Back => q.push(action) + b,
                        AddOrder::Front => b + seq![action] + q,
                    },
                ),
                ..s
            }, started, (fuel - b.len()) as nat)
        } else {
            Run {
                end: Transition {
                    op: OperationView { phase: Phase::Done, pending: seq![], batch: seq![], ..op },
                    agent: AgentView {
                        queue: Some(
                            match config.order {
                                AddOrder::Back => q.push(action) + b,
                                AddOrder::Front => b + seq![action] + q,
                            },
                        ),
                        ..s
                    },
                },
                calls: seq![],
            }
        };
        assert(run(op, s, started, fuel).calls =~= added(adding_order(b, config.order), agent)
            + tail.calls);
    }
}

/// Adding a collection of actions keeps their order in the queue: at the
/// back they follow the queue, at the front they precede it. `on_add` is
/// called for each in the order in which they are added. Where the config
/// says to start and nothing runs, the next action then starts as
/// [`start_outcome`] says; otherwise nothing starts.
pub proof fn lemma_add_actions(
    agent: u64,
    config: AddConfig,
    actions: Seq<u64>,
    s: AgentView,
    started: spec_fn(u64) -> bool,
    fuel: nat,
)
    requires
        actions.len() > 0,
        s.exists,
        s.queue is Some,
        fuel >= actions.len() + 4 * (s.queue->0.len() + actions.len()) + 2,
    ensures
        ({
            let qf = queue_with(s.queue->0, actions, config.order);
            let o = start_outcome(qf, agent, started, 0);
            let r = run(fresh(agent, Phase::AddActions { config }, actions), s, started, fuel);
            &&& if config.start && s.current == Some(None::<u64>) {
                &&& r.end.op.phase == ending(o)
                &&& r.end.agent == (AgentView { current: Some(o.running), queue: Some(o.rest), ..s })
                &&& r.calls == added(adding_order(actions, config.order), agent) + o.calls
            } else {
                &&& r.end.op.phase is Done
                &&& r.end.agent == (AgentView { queue: Some(qf), ..s })
                &&& r.calls == added(adding_order(actions, config.order), agent)
            }
        }),
{
    let op = fresh(agent, Phase::AddActions { config }, actions);
    let q = s.queue->0;
    let qf = queue_with(q, actions, config.order);
    let first = crate::plugin::batch_next(actions, config.order);
    let rest = crate::plugin::batch_rest(actions, config.order);
    let op1 = OperationView {
        pending: seq![],
        phase: Phase::EnqueueBatch { config, action: first },
        batch: rest,
        ..op
    };
    assert(resume_step(op, s, answer(op, started)).0 == (Transition { op: op1, agent: s }));
    let f1 = (fuel - 1) as nat;
    lemma_enqueue_batch(op1, s, started, f1, config, first);
    lemma_batch_order(actions, config.order, q, agent);
    let sq = AgentView { queue: Some(qf), ..s };
    let startop = fresh(agent, Phase::StartNextAction, seq![]);
    assert(OperationView { phase: Phase::StartNextAction, pending: seq![], batch: seq![], ..op1 }
        == startop);
    let f = (f1 - rest.len()) as nat;
    if config.start {
        if s.current == Some(None::<u64>) {
            lemma_start_next_outcome(startop, sq, started, f);
        } else {
            lemma_start_blocked(startop, sq, started, f);
        }
    }
}

/// Where no action can start, starting the next action ends at once with
/// no call.
proof fn lemma_start_blocked(op: OperationView, s: AgentView, started: spec_fn(u64) -> bool, fuel: nat)
    requires
        op.pending.len() == 0,
        op.phase is StartNextAction,
        !crate::plugin::can_start(s),
        fuel >= 1,
    ensures
        run(op, s, started, fuel) == (Run {
            end: Transition { op: OperationView { phase: Phase::Done, ..op }, agent: s },
            calls: seq![],
        }),
{
}

/// How the first action of a batch and the rest of it make up the batch at
/// either end of the queue, and the `on_add` calls in the order of adding.
proof fn lemma_batch_order(actions: Seq<u64>, order: AddOrder, q: Seq<u64>, agent: u64)
    requires
        actions.len() > 0,
    ensures
        ({
            let first = crate::plugin::batch_next(actions, order);
            let rest = crate::plugin::batch_rest(actions, order);
            &&& match order {
                AddOrder::Back => q.push(first) + rest,
                AddOrder::Front => rest + seq![first] + q,
            } == queue_with(q, actions, order)
            &&& seq![HookCall::OnAdd { action: first, agent }] + added(adding_order(rest, order), agent)
                == added(adding_order(actions, order), agent)
            &&& queue_with(q, actions, order).len() == q.len() + actions.len()
        }),
{
    let first = crate::plugin::batch_next(actions, order);
    let rest = crate::plugin::batch_rest(actions, order);
    match order {
        AddOrder::Back => {
            assert(q.push(first) + rest =~= q + actions);
            assert(seq![HookCall::OnAdd { action: first, agent }] + added(rest, agent) =~= added(actions, agent));
        },
        AddOrder::Front => {
            assert(rest + seq![first] + q =~= actions + q);
            assert(seq![HookCall::OnAdd { action: first, agent }] + added(rest.reverse(), agent)
                =~= added(actions.reverse(), agent));
        },
    }
}

/// Adding a collection of actions to an agent without a queue drops each of
/// them as skipped, in order, and changes nothing else.
pub proof fn lemma_add_actions_without_queue(
    agent: u64,
    config: AddConfig,
    actions: Seq<u64>,
    s: AgentView,
    started: spec_fn(u64) -> bool,
    fuel: nat,
)
    requires
        actions.len() > 0,
        s.exists,
        s.queue is None,
        fuel >= 2 * actions.len() + 1,
    ensures
        ({
            let r = run(fresh(agent, Phase::AddActions { config }, actions), s, started, fuel);
            &&& r.end.op.phase is Done
            &&& r.end.agent == s
            &&& r.calls == dropped_each(actions, Some(agent), DropReason::Skipped)
        }),
{
    let op = fresh(agent, Phase::AddActions { config }, actions);
    let p = dropped_each(actions, Some(agent), DropReason::Skipped);
    lemma_dropped_each_len(actions, Some(agent), DropReason::Skipped);
    let op1 = OperationView { pending: p.drop_first(), phase: Phase::Done, batch: seq![], ..op };
    assert(resume_step(op, s, answer(op, started)).0 == (Transition { op: op1, agent: s }));
    assert(resume_step(op, s, answer(op, started)).1 == Request::Call(p[0]));
    lemma_run_pending(op1, s, started, (fuel - 1) as nat);
    lemma_run_done(settled(op1), s, started, (fuel - 1 - op1.pending.len()) as nat);
    assert(seq![p[0]] + op1.pending =~= p);
}

/// Adding a single action calls its `on_add` and puts it at the end of the
/// queue that the config names; where the config says to start and nothing
/// runs, the next action then starts as [`start_outcome`] says.
pub proof fn lemma_add_action(
    agent: u64,
    config: AddConfig,
    action: u64,
    s: AgentView,
    started: spec_fn(u64) -> bool,
    fuel: nat,
)
    requires
        s.exists,
        s.queue is Some,
        fuel >= 4 * s.queue->0.len() + 8,
    ensures
        ({
            let q2 = crate::components::pushed(s.queue->0, action, config.order);
            let o = start_outcome(q2, agent, started, 0);
            let r = run(fresh(agent, Phase::AddAction { config, action }, seq![]), s, started, fuel);
            &&& if config.start && s.current == Some(None::<u64>) {
                &&& r.end.op.phase == ending(o)
                &&& r.end.agent == (AgentView { current: Some(o.running), queue: Some(o.rest), ..s })
                &&& r.calls == seq![HookCall::OnAdd { action, agent }] + o.calls
            } else {
                &&& r.end.op.phase is Done
                &&& r.end.agent == (AgentView { queue: Some(q2), ..s })
                &&& r.calls == seq![HookCall::OnAdd { action, agent }]
            }
        }),
{
    let op = fresh(agent, Phase::AddAction { config, action }, seq![]);
    let q2 = crate::components::pushed(s.queue->0, action, config.order);
    let s2 = AgentView { queue: Some(q2), ..s };
    let op1 = OperationView { phase: Phase::EnqueueAction { config, action }, ..op };
    assert(resume_step(op, s, answer(op, started)).0 == (Transition { op: op1, agent: s }));
    let f = (fuel - 1) as nat;
    if config.start && s.current == Some(None::<u64>) {
        let op2 = OperationView { phase: Phase::StartNextAction, ..op };
        assert(resume_step(op1, s, answer(op1, started)) == resume_step(op2, s2, answer(op2, started)));
        assert(run(op1, s, started, f) == run(op2, s2, started, f));
        assert(q2.len() == s.queue->0.len() + 1);
        lemma_start_next_outcome(op2, s2, started, f);
    } else {
        reveal_with_fuel(run, 3);
    }
}

/// Executing while nothing runs starts the next action, as
/// [`start_outcome`] says.
pub proof fn lemma_execute_when_idle(agent: u64, s: AgentView, started: spec_fn(u64) -> bool, fuel: nat)
    requires
        s.exists,
        s.current == Some(None::<u64>),
        s.queue is Some,
        fuel >= 4 * s.queue->0.len() + 2,
    ensures
        ({
            let o = start_outcome(s.queue->0, agent, started, 0);
            let r = run(fresh(agent, Phase::ExecuteActions, seq![]), s, started, fuel);
            &&& r.end.op.phase == ending(o)
            &&& r.end.agent == (AgentView { current: Some(o.running), queue: Some(o.rest), ..s })
            &&& r.calls == o.calls
        }),
{
    let op = fresh(agent, Phase::ExecuteActions, seq![]);
    let op2 = fresh(agent, Phase::StartNextAction, seq![]);
    assert(resume_step(op, s, answer(op, started)) == resume_step(op2, s, answer(op2, started)));
    assert(run(op, s, started, fuel) == run(op2, s, started, fuel));
    lemma_start_next_outcome(op2, s, started, fuel);
}

/// Canceling stops the running action as canceled and drops it as done;
/// nothing else starts and the queue stays as it was.
pub proof fn lemma_cancel(agent: u64, s: AgentView, started: spec_fn(u64) -> bool, fuel: nat)
    requires
        s.exists,
        s.current matches Some(Some(_)),
        fuel >= 4,
    ensures
        ({
            let a = s.current->0->0;
            let r = run(
                fresh(agent, Phase::StopCurrentAction { reason: StopReason::Canceled, then_start: false }, seq![]),
                s,
                started,
                fuel,
            );
            &&& r.end.op.phase is Done
            &&& r.end.agent == (AgentView { current: Some(None), ..s })
            &&& r.calls == seq![
                HookCall::OnStop { action: a, agent: Some(agent), reason: StopReason::Canceled },
            ] + dropped(a, Some(agent), DropReason::Done)
        }),
{
    reveal_with_fuel(run, 4);
    let a = s.current->0->0;
    assert(seq![HookCall::OnStop { action: a, agent: Some(agent), reason: StopReason::Canceled }]
        + dropped(a, Some(agent), DropReason::Done) =~= seq![
        HookCall::OnStop { action: a, agent: Some(agent), reason: StopReason::Canceled },
        HookCall::OnRemove { action: a, agent: Some(agent) },
        HookCall::OnDrop { action: a, agent: Some(agent), reason: DropReason::Done },
    ]);
}

/// Adding an empty collection does nothing.
pub proof fn lemma_add_nothing(
    agent: u64,
    config: AddConfig,
    s: AgentView,
    started: spec_fn(u64) -> bool,
    fuel: nat,
)
    ensures
        run(fresh(agent, Phase::AddActions { config }, seq![]), s, started, fuel).end.agent == s,
        run(fresh(agent, Phase::AddActions { config }, seq![]), s, started, fuel).calls
            == Seq::<HookCall>::empty(),
{
    reveal_with_fuel(run, 2);
}

/// Where starting the next action leaves nothing running, it leaves the
/// queue empty.
pub proof fn lemma_start_from_rests(queue: Seq<u64>, agent: u64, started: spec_fn(u64) -> bool)
    ensures
        start_from(queue, agent, started).running is None ==> start_from(
            queue,
            agent,
            started,
        ).rest.len() == 0,
    decreases queue.len(),
{
    if queue.len() > 0 && started(queue[0]) {
        lemma_start_from_rests(queue.drop_first(), agent, started);
    }
}

/// Executing twice in a row is executing once: where the first execution
/// completes (it did not stop at the limit), the second makes no call and
/// changes nothing.
pub proof fn lemma_execute_twice(agent: u64, s: AgentView, started: spec_fn(u64) -> bool, fuel: nat)
    requires
        crate::plugin::can_start(s) ==> fuel >= 4 * s.queue->0.len() + 2,
        run(fresh(agent, Phase::ExecuteActions, seq![]), s, started, fuel).end.op.phase is Done,
    ensures
        ({
            let first = run(fresh(agent, Phase::ExecuteActions, seq![]), s, started, fuel);
            let second = run(fresh(agent, Phase::ExecuteActions, seq![]), first.end.agent, started, fuel);
            &&& second.calls == Seq::<HookCall>::empty()
            &&& second.end.agent == first.end.agent
        }),
{
    if crate::plugin::can_start(s) {
        lemma_execute_when_idle(agent, s, started, fuel);
        lemma_start_from_rests(s.queue->0, agent, started);
        let first = run(fresh(agent, Phase::ExecuteActions, seq![]), s, started, fuel);
        lemma_execute_unless_idle(agent, first.end.agent, started, fuel);
    } else {
        lemma_execute_unless_idle(agent, s, started, fuel);
        lemma_execute_unless_idle(agent, s, started, fuel);
    }
}

/// Adding a collection with the config's `start` set does what adding it
/// without `start` and then executing does: the same calls, in the same
/// order, and the same agent at the end.
pub proof fn lemma_add_actions_then_execute(
    agent: u64,
    order: AddOrder,
    actions: Seq<u64>,
    s: AgentView,
    started: spec_fn(u64) -> bool,
    fuel: nat,
)
    requires
        actions.len() > 0,
        fuel >= 2 * actions.len() + 1,
        s.queue is Some ==> fuel >= actions.len() + 4 * (s.queue->0.len() + actions.len()) + 2,
    ensures
        ({
            let with = run(
                fresh(agent, Phase::AddActions { config: AddConfig { start: true, order } }, actions),
                s,
                started,
                fuel,
            );
            let without = run(
                fresh(agent, Phase::AddActions { config: AddConfig { start: false, order } }, actions),
                s,
                started,
                fuel,
            );
            let then = run(fresh(agent, Phase::ExecuteActions, seq![]), without.end.agent, started, fuel);
            &&& with.end.agent == then.end.agent
            &&& with.calls == without.calls + then.calls
        }),
{
    let on = AddConfig { start: true, order };
    let off = AddConfig { start: false, order };
    if !s.exists {
        lemma_add_to_missing_agent(agent, on, 0, actions, s, started, fuel);
        lemma_add_to_missing_agent(agent, off, 0, actions, s, started, fuel);
        lemma_execute_unless_idle(agent, s, started, fuel);
        assert(Seq::<HookCall>::empty() + Seq::<HookCall>::empty() =~= Seq::<HookCall>::empty());
    } else if s.queue is None {
        lemma_add_actions_without_queue(agent, on, actions, s, started, fuel);
        lemma_add_actions_without_queue(agent, off, actions, s, started, fuel);
        lemma_execute_unless_idle(agent, s, started, fuel);
        let p = dropped_each(actions, Some(agent), DropReason::Skipped);
        assert(p + Seq::<HookCall>::empty() =~= p);
    } else {
        lemma_add_actions(agent, on, actions, s, started, fuel);
        lemma_add_actions(agent, off, actions, s, started, fuel);
        let qf = queue_with(s.queue->0, actions, order);
        let sq = AgentView { queue: Some(qf), ..s };
        let a = added(adding_order(actions, order), agent);
        if s.current == Some(None::<u64>) {
            lemma_execute_when_idle(agent, sq, started, fuel);
        } else {
            lemma_execute_unless_idle(agent, sq, started, fuel);
            assert(a + Seq::<HookCall>::empty() =~= a);
        }
    }
}

/// Adding a single action with the config's `start` set does what adding
/// it without `start` and then executing does: the same calls, in the same
/// order, and the same agent at the end.
pub proof fn lemma_add_action_then_execute(
    agent: u64,
    order: AddOrder,
    action: u64,
    s: AgentView,
    started: spec_fn(u64) -> bool,
    fuel: nat,
)
    requires
        fuel >= 4,
        s.queue is Some ==> fuel >= 4 * s.queue->0.len() + 8,
    ensures
        ({
            let with = run(
                fresh(agent, Phase::AddAction { config: AddConfig { start: true, order }, action }, seq![]),
                s,
                started,
                fuel,
            );
            let without = run(
                fresh(agent, Phase::AddAction { config: AddConfig { start: false, order }, action }, seq![]),
                s,
                started,
                fuel,
            );
            let then = run(fresh(agent, Phase::ExecuteActions, seq![]), without.end.agent, started, fuel);
            &&& with.end.agent == then.end.agent
            &&& with.calls == without.calls + then.calls
        }),
{
    let on = AddConfig { start: true, order };
    let off = AddConfig { start: false, order };
    if !s.exists {
        lemma_add_to_missing_agent(agent, on, action, seq![], s, started, fuel);
        lemma_add_to_missing_agent(agent, off, action, seq![], s, started, fuel);
        lemma_execute_unless_idle(agent, s, started, fuel);
        assert(Seq::<HookCall>::empty() + Seq::<HookCall>::empty() =~= Seq::<HookCall>::empty());
    } else if s.queue is None {
        lemma_add_action_without_queue(agent, on, action, s, started, fuel);
        lemma_add_action_without_queue(agent, off, action, s, started, fuel);
        lemma_execute_unless_idle(agent, s, started, fuel);
        let p = seq![HookCall::OnAdd { action, agent }] + dropped(action, Some(agent), DropReason::Skipped);
        assert(p + Seq::<HookCall>::empty() =~= p);
    } else {
        lemma_add_action(agent, on, action, s, started, fuel);
        lemma_add_action(agent, off, action, s, started, fuel);
        let q2 = crate::components::pushed(s.queue->0, action, order);
        let sq = AgentView { queue: Some(q2), ..s };
        let a = seq![HookCall::OnAdd { action, agent }];
        assert(q2.len() == s.queue->0.len() + 1);
        if s.current == Some(None::<u64>) {
            lemma_execute_when_idle(agent, sq, started, fuel);
        } else {
            lemma_execute_unless_idle(agent, sq, started, fuel);
            assert(a + Seq::<HookCall>::empty() =~= a);
        }
    }
}

/// Adding a single action to an agent without a queue calls its `on_add`,
/// then drops it as skipped, and changes nothing else.
pub proof fn lemma_add_action_without_queue(
    agent: u64,
    config: AddConfig,
    action: u64,
    s: AgentView,
    started: spec_fn(u64) -> bool,
    fuel: nat,
)
    requires
        s.exists,
        s.queue is None,
        fuel >= 4,
    ensures
        ({
            let r = run(fresh(agent, Phase::AddAction { config, action }, seq![]), s, started, fuel);
            &&& r.end.op.phase is Done
            &&& r.end.agent == s
            &&& r.calls == seq![HookCall::OnAdd { action, agent }] + dropped(
                action,
                Some(agent),
                DropReason::Skipped,
            )
        }),
{
    reveal_with_fuel(run, 4);
    assert(seq![HookCall::OnAdd { action, agent }] + dropped(action, Some(agent), DropReason::Skipped)
        =~= seq![
        HookCall::OnAdd { action, agent },
        HookCall::OnRemove { action, agent: Some(agent) },
        HookCall::OnDrop { action, agent: Some(agent), reason: DropReason::Skipped },
    ]);
}

/// Adding one action on its own does what adding the collection of that
/// one action does (what `AgentCommands::add` relies on), for an agent that
/// has a queue or does not exist: the same calls and the same agent at the
/// end. (For an existing agent without a queue they differ: the single
/// action gets `on_add` before it is dropped as skipped.)
pub proof fn lemma_add_one_as_collection(
    agent: u64,
    config: AddConfig,
    action: u64,
    s: AgentView,
    started: spec_fn(u64) -> bool,
    fuel: nat,
)
    requires
        !(s.exists && s.queue is None),
    ensures
        run(fresh(agent, Phase::AddAction { config, action }, seq![]), s, started, fuel).end.agent
            == run(fresh(agent, Phase::AddActions { config }, seq![action]), s, started, fuel).end.agent,
        run(fresh(agent, Phase::AddAction { config, action }, seq![]), s, started, fuel).calls
            == run(fresh(agent, Phase::AddActions { config }, seq![action]), s, started, fuel).calls,
{
    let single = fresh(agent, Phase::AddAction { config, action }, seq![]);
    let batch = fresh(agent, Phase::AddActions { config }, seq![action]);
    if fuel > 0 && s.exists {
        let op1 = OperationView { phase: Phase::EnqueueAction { config, action }, ..single };
        let op2 = OperationView { phase: Phase::EnqueueBatch { config, action }, ..single };
        assert(seq![action].drop_first() =~= seq![]);
        assert(seq![action].drop_last() =~= seq![]);
        assert(resume_step(single, s, answer(single, started)).0 == (Transition { op: op1, agent: s }));
        assert(resume_step(batch, s, answer(batch, started)).0 == (Transition { op: op2, agent: s }));
        let f = (fuel - 1) as nat;
        if f > 0 {
            assert(resume_step(op1, s, answer(op1, started)) == resume_step(op2, s, answer(op2, started)));
            assert(run(op1, s, started, f) == run(op2, s, started, f));
        }
    }
}

/// How many of `agents` (pairs of an agent and its running action, if any)
/// have a running action.
pub open spec fn count_running(agents: Seq<(u64, Option<u64>)>) -> nat
    decreases agents.len(),
{
    if agents.len() == 0 {
        0
    } else {
        count_running(agents.drop_last()) + if agents.last().1 is Some {
            1nat
        } else {
            0nat
        }
    }
}

/// The check for finished actions asks `is_finished` exactly once for each
/// running action and for nothing else: there is one asked pair per agent
/// with a running action, every asked pair is such an agent with its action,
/// and every such agent is asked. (The check takes the agents by shared
/// reference and only returns values, so it changes nothing itself; what it
/// decides runs later, as the operations of `finish_actions`.)
pub proof fn lemma_check_asks_each_running_once(agents: Seq<(u64, Option<u64>)>)
    ensures
        crate::plugin::running(agents).len() == count_running(agents),
        count_running(agents) <= agents.len(),
        forall|i: int|
            0 <= i < crate::plugin::running(agents).len() ==> exists|j: int|
                0 <= j < agents.len() && agents[j] == (
                    #[trigger] crate::plugin::running(agents)[i].0,
                    Some(crate::plugin::running(agents)[i].1),
                ),
        forall|j: int|
            0 <= j < agents.len() && (#[trigger] agents[j]).1 is Some ==> exists|i: int|
                0 <= i < crate::plugin::running(agents).len() && crate::plugin::running(agents)[i]
                    == (agents[j].0, agents[j].1->0),
    decreases agents.len(),
{
    if agents.len() > 0 {
        let init = agents.drop_last();
        lemma_check_asks_each_running_once(init);
        let r0 = crate::plugin::running(init);
        let r = crate::plugin::running(agents);
        let last = agents.last();
        assert forall|i: int| 0 <= i < r.len() implies exists|j: int|
            0 <= j < agents.len() && agents[j] == (#[trigger] r[i].0, Some(r[i].1)) by {
            if i < r0.len() {
                assert(r[i] == r0[i]);
                let j = choose|j: int| 0 <= j < init.len() && init[j] == (r0[i].0, Some(r0[i].1));
                assert(agents[j] == init[j]);
            } else {
                assert(agents[agents.len() - 1] == (r[i].0, Some(r[i].1)));
            }
        }
        assert forall|j: int| 0 <= j < agents.len() && (#[trigger] agents[j]).1 is Some implies exists|i: int|
            0 <= i < r.len() && r[i] == (agents[j].0, agents[j].1->0) by {
            if j < init.len() {
                assert(init[j] == agents[j]);
                let i = choose|i: int| 0 <= i < r0.len() && r0[i] == (init[j].0, init[j].1->0);
                assert(r[i] == r0[i]);
            } else {
                assert(r[r.len() - 1] == (agents[j].0, agents[j].1->0));
            }
        }
    }
}

/// How many of `answers` are `true`.
pub open spec fn trues(answers: Seq<bool>) -> nat
    decreases answers.len(),
{
    if answers.len() == 0 {
        0
    } else {
        trues(answers.drop_last()) + if answers.last() {
            1nat
        } else {
            0nat
        }
    }
}

/// Counting the `true` answers one more at a time.
proof fn lemma_trues_take(answers: Seq<bool>, i: int)
    requires
        0 <= i < answers.len(),
    ensures
        trues(answers.take(i + 1)) == trues(answers.take(i)) + if answers[i] {
            1nat
        } else {
            0nat
        },
        trues(answers.take(i)) <= i,
    decreases i,
{
    assert(answers.take(i + 1).drop_last() =~= answers.take(i));
    if i > 0 {
        lemma_trues_take(answers, i - 1);
    }
}

/// The check for finished actions asks for one operation per running action
/// whose `is_finished` answered `true`, and for no other: there are as many
/// operations as `true` answers, and the answer at `i`, where it is `true`,
/// is served by the operation that comes after those of the `true` answers
/// before it, which stops the running action of agent `asked[i].0` as
/// finished and then starts its next action.
pub proof fn lemma_finishing(asked: Seq<(u64, u64)>, answers: Seq<bool>)
    requires
        answers.len() == asked.len(),
    ensures
        crate::plugin::finishing(asked, answers).len() == trues(answers),
        forall|i: int|
            0 <= i < answers.len() && #[trigger] answers[i] ==> trues(answers.take(i)) < trues(answers)
                && crate::plugin::finishing(asked, answers)[trues(answers.take(i)) as int] == fresh(
                asked[i].0,
                Phase::StopCurrentAction { reason: StopReason::Finished, then_start: true },
                seq![],
            ),
    decreases asked.len(),
{
    let f = crate::plugin::finishing(asked, answers);
    if asked.len() > 0 {
        let n = asked.len() - 1;
        let a0 = asked.drop_last();
        let b0 = answers.drop_last();
        lemma_finishing(a0, b0);
        let r = crate::plugin::finishing(a0, b0);
        assert forall|i: int| 0 <= i < answers.len() && #[trigger] answers[i] implies trues(answers.take(i))
            < trues(answers) && f[trues(answers.take(i)) as int] == fresh(
            asked[i].0,
            Phase::StopCurrentAction { reason: StopReason::Finished, then_start: true },
            seq![],
        ) by {
            if i < n {
                assert(answers.take(i) =~= b0.take(i));
                assert(b0[i] == answers[i]);
                assert(a0[i] == asked[i]);
                lemma_trues_take(b0, i);
                lemma_trues_le(b0, i + 1);
            } else {
                assert(answers.take(i) =~= b0);
            }
        }
    }
}

/// No more `true` answers come before `i` than among all of them.
proof fn lemma_trues_le(answers: Seq<bool>, i: int)
    requires
        0 <= i <= answers.len(),
    ensures
        trues(answers.take(i)) <= trues(answers),
    decreases answers.len() - i,
{
    if i < answers.len() {
        lemma_trues_take(answers, i);
        lemma_trues_le(answers, i + 1);
    } else {
        assert(answers.take(i) =~= answers);
    }
}

/// Going to the next action when nothing runs: where the agent exists,
/// nothing runs and it has a queue, stopping with the next action to start
/// stops nothing and starts the next action as [`start_outcome`] says, for
/// every reason.
pub proof fn lemma_stop_when_idle_then_start(
    agent: u64,
    reason: StopReason,
    s: AgentView,
    started: spec_fn(u64) -> bool,
    fuel: nat,
)
    requires
        s.exists,
        s.current == Some(None::<u64>),
        s.queue is Some,
        fuel >= 4 * s.queue->0.len() + 2,
    ensures
        ({
            let o = start_outcome(s.queue->0, agent, started, 0);
            let r = run(
                fresh(agent, Phase::StopCurrentAction { reason, then_start: true }, seq![]),
                s,
                started,
                fuel,
            );
            &&& r.end.op.phase == ending(o)
            &&& r.end.agent == (AgentView { current: Some(o.running), queue: Some(o.rest), ..s })
            &&& r.calls == o.calls
        }),
{
    let op = fresh(agent, Phase::StopCurrentAction { reason, then_start: true }, seq![]);
    let op2 = fresh(agent, Phase::StartNextAction, seq![]);
    assert(resume_step(op, s, answer(op, started)) == resume_step(op2, s, answer(op2, started)));
    assert(run(op, s, started, fuel) == run(op2, s, started, fuel));
    lemma_start_next_outcome(op2, s, started, fuel);
}

/// Stopping the running action `a` as finished or canceled, with no next
/// action to start: `a` is stopped for that reason and dropped as done,
/// nothing runs afterwards, nothing else starts and the queue stays as it
/// was.
pub proof fn lemma_stop_only(
    agent: u64,
    reason: StopReason,
    s: AgentView,
    started: spec_fn(u64) -> bool,
    fuel: nat,
)
    requires
        reason != StopReason::Paused,
        s.exists,
        s.current matches Some(Some(_)),
        fuel >= 4,
    ensures
        ({
            let a = s.current->0->0;
            let r = run(
                fresh(agent, Phase::StopCurrentAction { reason, then_start: false }, seq![]),
                s,
                started,
                fuel,
            );
            &&& r.end.op.phase is Done
            &&& r.end.agent == (AgentView { current: Some(None), ..s })
            &&& r.calls == seq![HookCall::OnStop { action: a, agent: Some(agent), reason }]
                + dropped(a, Some(agent), DropReason::Done)
        }),
{
    reveal_with_fuel(run, 4);
    let a = s.current->0->0;
    assert(seq![HookCall::OnStop { action: a, agent: Some(agent), reason }] + dropped(
        a,
        Some(agent),
        DropReason::Done,
    ) =~= seq![
        HookCall::OnStop { action: a, agent: Some(agent), reason },
        HookCall::OnRemove { action: a, agent: Some(agent) },
        HookCall::OnDrop { action: a, agent: Some(agent), reason: DropReason::Done },
    ]);
}

/// Stopping where no action runs (the agent is missing, or nothing runs),
/// with no next action to start, makes no call and changes nothing, for
/// every reason.
pub proof fn lemma_stop_when_idle(
    agent: u64,
    reason: StopReason,
    s: AgentView,
    started: spec_fn(u64) -> bool,
    fuel: nat,
)
    requires
        !(s.exists && s.current matches Some(Some(_))),
    ensures
        ({
            let r = run(
                fresh(agent, Phase::StopCurrentAction { reason, then_start: false }, seq![]),
                s,
                started,
                fuel,
            );
            &&& r.end.agent == s
            &&& r.calls == Seq::<HookCall>::empty()
            &&& fuel > 0 ==> r.end.op.phase is Done
        }),
{
    reveal_with_fuel(run, 2);
}

/// Pausing the running action `a` of an agent without a queue cannot put it
/// back: it is stopped as paused, then dropped as skipped, and nothing runs.
pub proof fn lemma_pause_without_queue(
    agent: u64,
    s: AgentView,
    started: spec_fn(u64) -> bool,
    fuel: nat,
)
    requires
        s.exists,
        s.current matches Some(Some(_)),
        s.queue is None,
        fuel >= 5,
    ensures
        ({
            let a = s.current->0->0;
            let r = run(
                fresh(agent, Phase::StopCurrentAction { reason: StopReason::Paused, then_start: false }, seq![]),
                s,
                started,
                fuel,
            );
            &&& r.end.op.phase is Done
            &&& r.end.agent == (AgentView { current: Some(None), ..s })
            &&& r.calls == seq![HookCall::OnStop { action: a, agent: Some(agent), reason: StopReason::Paused }]
                + dropped(a, Some(agent), DropReason::Skipped)
        }),
{
    reveal_with_fuel(run, 5);
    let a = s.current->0->0;
    assert(seq![HookCall::OnStop { action: a, agent: Some(agent), reason: StopReason::Paused }] + dropped(
        a,
        Some(agent),
        DropReason::Skipped,
    ) =~= seq![
        HookCall::OnStop { action: a, agent: Some(agent), reason: StopReason::Paused },
        HookCall::OnRemove { action: a, agent: Some(agent) },
        HookCall::OnDrop { action: a, agent: Some(agent), reason: DropReason::Skipped },
    ]);
}
} // verus!
