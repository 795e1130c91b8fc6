//! No action is added, removed or dropped twice in a run of an operation:
//! every action that an operation hands to `on_add` was one it was to add,
//! and is no longer once the call is handed out; every action that it hands
//! to `on_remove` or `on_drop` came from the agent or from the operation,
//! and is gone from both once the call is handed out.

use vstd::prelude::*;
use crate::agent::AgentView;
use crate::components::{pushed, AddOrder, DropReason, StopReason};
use crate::hooks::{dropped, dropped_each, HookCall};
use crate::laws::{answer, run};
use crate::lifecycle::{
    adds, apart, carried, distinct_ids, holds, keeps, lemma_advance_adds, lemma_advance_keeps,
    lemma_resume_keeps, no_adds,
};
use crate::plugin::{
    add_action_step, add_actions_step, advance_step, batch_next, batch_rest, can_start,
    clear_queue_step, enqueue_batch_step, next_in_batch, resume_step, start_next_action_step,
    OperationView, Phase, Transition,
};

verus! {

/// The action that `call` takes out of use in the way that `remove` names:
/// an `on_remove` call where `remove` holds, an `on_drop` call where not.
pub open spec fn taken(remove: bool, call: HookCall) -> Option<u64> {
    match call {
        HookCall::OnRemove { action, .. } => if remove {
            Some(action)
        } else {
            None
        },
        HookCall::OnDrop { action, .. } => if remove {
            None
        } else {
            Some(action)
        },
        _ => None,
    }
}

/// Whether `calls` takes `x` out of use in the way that `remove` names.
pub open spec fn taken_in(remove: bool, calls: Seq<HookCall>, x: u64) -> bool {
    exists|i: int| 0 <= i < calls.len() && #[trigger] taken(remove, calls[i]) == Some(x)
}

/// The calls of `calls` that take actions out of use in the way that
/// `remove` names are for distinct actions.
pub open spec fn taken_once(remove: bool, calls: Seq<HookCall>) -> bool {
    forall|i: int, j: int|
        0 <= i < j < calls.len() && (#[trigger] taken(remove, calls[i])) is Some ==> taken(remove, calls[i])
            != #[trigger] taken(remove, calls[j])
}

/// Whether `x` is held by agent `s` or in `batch`.
pub open spec fn owned(batch: Seq<u64>, s: AgentView, x: u64) -> bool {
    holds(s, x) || batch.contains(x)
}

/// Where the calls `pre` take nothing out of use, `pre` followed by the
/// calls that drop `x` take out `x` alone, once.
proof fn lemma_drop_tail(remove: bool, pre: Seq<HookCall>, x: u64, agent: Option<u64>, reason: DropReason)
    requires
        forall|i: int| 0 <= i < pre.len() ==> (#[trigger] taken(remove, pre[i])) is None,
    ensures
        taken_once(remove, pre + dropped(x, agent, reason)),
        forall|y: u64| taken_in(remove, pre + dropped(x, agent, reason), y) ==> y == x,
{
    let p = pre + dropped(x, agent, reason);
    assert forall|i: int| 0 <= i < p.len() && (#[trigger] taken(remove, p[i])) is Some implies i
        == p.len() - (if remove { 2int } else { 1int }) && taken(remove, p[i]) == Some(x) by {
        if i < pre.len() {
            assert(p[i] == pre[i]);
        } else {
            assert(p[i] == dropped(x, agent, reason)[i - pre.len()]);
        }
    }
}

/// Dropping each action of `q` takes out, at every other call, the action
/// of `q` at half its position.
proof fn lemma_dropped_each_once(remove: bool, q: Seq<u64>, agent: Option<u64>, reason: DropReason)
    ensures
        dropped_each(q, agent, reason).len() == 2 * q.len(),
        forall|i: int|
            0 <= i < dropped_each(q, agent, reason).len() && (#[trigger] taken(remove, 
                dropped_each(q, agent, reason)[i],
            )) is Some ==> i % 2 == (if remove { 0int } else { 1int }) && taken(remove, dropped_each(q, agent, reason)[i]) == Some(
                q[i / 2],
            ),
    decreases q.len(),
{
    if q.len() > 0 {
        let init = q.drop_last();
        lemma_dropped_each_once(remove, init, agent, reason);
        let p0 = dropped_each(init, agent, reason);
        let p = dropped_each(q, agent, reason);
        assert(p == p0 + dropped(q.last(), agent, reason));
        assert forall|i: int| 0 <= i < p.len() && (#[trigger] taken(remove, p[i])) is Some implies i % 2
            == (if remove { 0int } else { 1int }) && taken(remove, p[i]) == Some(q[i / 2]) by {
            if i < p0.len() {
                assert(p[i] == p0[i]);
                assert(q[i / 2] == init[i / 2]);
            } else {
                assert(p[i] == dropped(q.last(), agent, reason)[i - p0.len()]);
                assert(i == p0.len() + (if remove { 0int } else { 1int }));
                assert(i / 2 == q.len() - 1);
            }
        }
    }
}

/// Dropping each action of a queue whose actions are distinct drops each of
/// them once.
proof fn lemma_dropped_each_distinct(remove: bool, q: Seq<u64>, agent: Option<u64>, reason: DropReason)
    requires
        q.no_duplicates(),
    ensures
        taken_once(remove, dropped_each(q, agent, reason)),
        forall|y: u64| taken_in(remove, dropped_each(q, agent, reason), y) ==> q.contains(y),
{
    lemma_dropped_each_once(remove, q, agent, reason);
    let p = dropped_each(q, agent, reason);
    assert forall|i: int, j: int|
        0 <= i < j < p.len() && (#[trigger] taken(remove, p[i])) is Some implies taken(remove, p[i])
            != #[trigger] taken(remove, p[j]) by {
        if taken(remove, p[j]) is Some {
            assert(i / 2 < j / 2);
        }
    }
    assert forall|y: u64| taken_in(remove, p, y) implies q.contains(y) by {
        let i = choose|i: int| 0 <= i < p.len() && #[trigger] taken(remove, p[i]) == Some(y);
        assert(0 <= i / 2 < q.len());
    }
}

/// Every action that the agent or the operation holds after step `t`, or
/// that `t` asks to take out of use in the way that `remove` names, was held
/// before by agent `s` or was in `batch`.
spec fn came_from(remove: bool, t: Transition, batch: Seq<u64>, s: AgentView) -> bool {
    forall|x: u64|
        holds(t.agent, x) || carried(t.op).contains(x) || taken_in(remove, t.op.pending, x) ==> owned(
            batch,
            s,
            x,
        )
}

proof fn lemma_no_drops_one(remove: bool, c: HookCall)
    requires
        taken(remove, c) is None,
    ensures
        taken_once(remove, seq![c]),
        forall|y: u64| !taken_in(remove, seq![c], y),
{
    assert forall|y: u64| !taken_in(remove, seq![c], y) by {
        if taken_in(remove, seq![c], y) {
            let i = choose|i: int| 0 <= i < seq![c].len() && #[trigger] taken(remove, seq![c][i]) == Some(y);
            assert(i == 0);
        }
    }
}

/// What is in `q` after its first action left was in `q`.
proof fn lemma_rest_in(q: Seq<u64>)
    requires
        q.len() > 0,
    ensures
        forall|x: u64| q.drop_first().contains(x) ==> q.contains(x),
        q.contains(q[0]),
{
    assert forall|x: u64| q.drop_first().contains(x) implies q.contains(x) by {
        let k = choose|k: int| 0 <= k < q.drop_first().len() && q.drop_first()[k] == x;
        assert(q[k + 1] == x);
    }
}

proof fn lemma_start_next_from(remove: bool, op: OperationView, s: AgentView)
    ensures
        came_from(remove, start_next_action_step(op, s), op.batch, s),
        taken_once(remove, start_next_action_step(op, s).op.pending),
{
    let t = start_next_action_step(op, s);
    if can_start(s) {
        let q = s.queue->0;
        lemma_rest_in(q);
        lemma_no_drops_one(remove, crate::hooks::HookCall::OnStart { action: q[0], agent: op.agent });
        assert forall|x: u64| holds(t.agent, x) || carried(t.op).contains(x) || taken_in(remove, t.op.pending, x)
            implies owned(op.batch, s, x) by {
            if carried(t.op).contains(x) && x != q[0] {
                let k = choose|k: int| 0 <= k < carried(t.op).len() && carried(t.op)[k] == x;
                assert(op.batch[k - 1] == x);
            }
        }
    }
}

proof fn lemma_batch_from(remove: bool, op: OperationView, s: AgentView, config: crate::components::AddConfig)
    requires
        op.batch.len() > 0,
    ensures
        came_from(remove, next_in_batch(op, s, config), op.batch, s),
        taken_once(remove, next_in_batch(op, s, config).op.pending),
{
    let t = next_in_batch(op, s, config);
    let b = op.batch;
    let x0 = batch_next(b, config.order);
    lemma_no_drops_one(remove, HookCall::OnAdd { action: x0, agent: op.agent });
    assert(carried(t.op) == seq![x0] + batch_rest(b, config.order));
    assert forall|x: u64| carried(t.op).contains(x) implies b.contains(x) by {
        let k = choose|k: int| 0 <= k < carried(t.op).len() && carried(t.op)[k] == x;
        match config.order {
            AddOrder::Back => {
                assert(b[k] == x);
            },
            AddOrder::Front => {
                if k == 0 {
                    assert(b[b.len() - 1] == x);
                } else {
                    assert(b[k - 1] == x);
                }
            },
        }
    }
}

proof fn lemma_from_weaken(remove: bool, t: Transition, b1: Seq<u64>, s1: AgentView, b2: Seq<u64>, s2: AgentView)
    requires
        came_from(remove, t, b1, s1),
        forall|x: u64| owned(b1, s1, x) ==> owned(b2, s2, x),
    ensures
        came_from(remove, t, b2, s2),
{
}

proof fn lemma_pushed_in(q: Seq<u64>, a: u64, order: AddOrder)
    ensures
        forall|x: u64| pushed(q, a, order).contains(x) ==> q.contains(x) || x == a,
{
    assert forall|x: u64| pushed(q, a, order).contains(x) implies q.contains(x) || x == a by {
        let k = choose|k: int| 0 <= k < pushed(q, a, order).len() && pushed(q, a, order)[k] == x;
        match order {
            AddOrder::Back => {
                if k < q.len() {
                    assert(q[k] == x);
                }
            },
            AddOrder::Front => {
                if k > 0 {
                    assert(q[k - 1] == x);
                }
            },
        }
    }
}

proof fn lemma_carried_has(op: OperationView, a: u64)
    requires
        carried(op) == seq![a] + op.batch,
    ensures
        carried(op).contains(a),
        forall|x: u64| op.batch.contains(x) ==> carried(op).contains(x),
{
    assert(carried(op)[0] == a);
    assert forall|x: u64| op.batch.contains(x) implies carried(op).contains(x) by {
        let k = choose|k: int| 0 <= k < op.batch.len() && op.batch[k] == x;
        assert(carried(op)[k + 1] == x);
    }
}

proof fn lemma_stop_drops(remove: bool, a: u64, agent: Option<u64>, reason: StopReason, why: DropReason)
    ensures
        taken_once(remove, seq![HookCall::OnStop { action: a, agent, reason }] + dropped(a, agent, why)),
        forall|y: u64|
            taken_in(remove, seq![HookCall::OnStop { action: a, agent, reason }] + dropped(a, agent, why), y)
                ==> y == a,
{
    let pre = seq![HookCall::OnStop { action: a, agent, reason }];
    assert forall|i: int| 0 <= i < pre.len() implies (#[trigger] taken(remove, pre[i])) is None by {
        assert(i == 0);
    }
    lemma_drop_tail(remove, pre, a, agent, why);
}

proof fn lemma_drop_alone(remove: bool, a: u64, agent: Option<u64>, why: DropReason)
    ensures
        taken_once(remove, dropped(a, agent, why)),
        forall|y: u64| taken_in(remove, dropped(a, agent, why), y) ==> y == a,
{
    lemma_drop_tail(remove, seq![], a, agent, why);
    assert(Seq::<HookCall>::empty() + dropped(a, agent, why) =~= dropped(a, agent, why));
}

proof fn lemma_clear_queue_from(remove: bool, op: OperationView, s: AgentView)
    requires
        distinct_ids(s),
    ensures
        came_from(remove, clear_queue_step(op, s), op.batch, s),
        taken_once(remove, clear_queue_step(op, s).op.pending),
{
    if s.exists && s.queue is Some && s.queue->0.len() > 0 {
        let q = s.queue->0;
        lemma_dropped_each_distinct(remove, q, Some(op.agent), DropReason::Cleared);
        let t = clear_queue_step(op, s);
        assert forall|x: u64| holds(t.agent, x) || carried(t.op).contains(x) || taken_in(remove, t.op.pending, x)
            implies owned(op.batch, s, x) by {
            if taken_in(remove, t.op.pending, x) {
                assert(q.contains(x));
            }
        }
    }
}

/// Every action that a step of an operation leaves held, or asks to remove
/// or drop, was held before by the agent or the operation; and the step asks
/// to remove, and to drop, each action at most once.
proof fn lemma_advance_from(remove: bool, op: OperationView, s: AgentView, finished: bool)
    requires
        op.pending.len() == 0,
        apart(op, s),
    ensures
        came_from(remove, advance_step(op, s, finished), carried(op), s),
        taken_once(remove, advance_step(op, s, finished).op.pending),
{
    let t = advance_step(op, s, finished);
    match op.phase {
        Phase::AddAction { config, action } => {
            lemma_no_drops_one(remove, HookCall::OnAdd { action, agent: op.agent });
            assert(!s.exists ==> carried(t.op) == carried(op));
        },
        Phase::EnqueueAction { config, action } => {
            lemma_carried_has(op, action);
            lemma_drop_alone(remove, action, None, DropReason::Skipped);
            lemma_drop_alone(remove, action, Some(op.agent), DropReason::Skipped);
            if s.exists && s.queue is Some {
                let s2 = AgentView { queue: Some(pushed(s.queue->0, action, config.order)), ..s };
                lemma_pushed_in(s.queue->0, action, config.order);
                lemma_start_next_from(remove, op, s2);
                assert forall|x: u64| owned(op.batch, s2, x) implies owned(carried(op), s, x) by {}
                if config.start {
                    lemma_from_weaken(remove, t, op.batch, s2, carried(op), s);
                }
            }
        },
        Phase::AddActions { config } => {
            if op.batch.len() > 0 && s.exists {
                if s.queue is None {
                    lemma_dropped_each_distinct(remove, op.batch, Some(op.agent), DropReason::Skipped);
                } else {
                    lemma_batch_from(remove, op, s, config);
                }
            }
        },
        Phase::EnqueueBatch { config, action } => {
            lemma_carried_has(op, action);
            lemma_drop_alone(remove, action, None, DropReason::Skipped);
            lemma_drop_alone(remove, action, Some(op.agent), DropReason::Skipped);
            if s.exists && s.queue is Some {
                let s2 = AgentView { queue: Some(pushed(s.queue->0, action, config.order)), ..s };
                lemma_pushed_in(s.queue->0, action, config.order);
                assert forall|x: u64| owned(op.batch, s2, x) implies owned(carried(op), s, x) by {}
                if op.batch.len() > 0 {
                    lemma_batch_from(remove, op, s2, config);
                    lemma_from_weaken(remove, t, op.batch, s2, carried(op), s);
                } else if config.start {
                    lemma_start_next_from(remove, op, s2);
                    lemma_from_weaken(remove, t, op.batch, s2, carried(op), s);
                }
            }
        },
        Phase::ExecuteActions => {
            lemma_start_next_from(remove, op, s);
        },
        Phase::StopCurrentAction { reason, then_start } => {
            lemma_start_next_from(remove, op, s);
            if s.exists && s.current matches Some(Some(_)) {
                let a = s.current->0->0;
                lemma_no_drops_one(remove, HookCall::OnStop { action: a, agent: Some(op.agent), reason });
                lemma_stop_drops(remove, a, Some(op.agent), reason, DropReason::Done);
                assert(carried(t.op).contains(a) ==> holds(s, a));
                assert forall|x: u64| holds(t.agent, x) || carried(t.op).contains(x) || taken_in(remove, t.op.pending, x)
                    implies owned(carried(op), s, x) by {
                    if carried(t.op).contains(x) && x != a && reason == StopReason::Paused {
                        let k = choose|k: int| 0 <= k < carried(t.op).len() && carried(t.op)[k] == x;
                        assert(op.batch[k - 1] == x);
                    }
                }
            }
        },
        Phase::RequeuePaused { action, then_start } => {
            lemma_carried_has(op, action);
            lemma_drop_alone(remove, action, None, DropReason::Skipped);
            lemma_drop_alone(remove, action, Some(op.agent), DropReason::Skipped);
            if s.exists && s.queue is Some {
                let s2 = AgentView { queue: Some(seq![action] + s.queue->0), ..s };
                lemma_pushed_in(s.queue->0, action, AddOrder::Front);
                assert forall|x: u64| owned(op.batch, s2, x) implies owned(carried(op), s, x) by {}
                if then_start {
                    lemma_start_next_from(remove, op, s2);
                    lemma_from_weaken(remove, t, op.batch, s2, carried(op), s);
                }
            }
        },
        Phase::StartNextAction => {
            lemma_start_next_from(remove, op, s);
        },
        Phase::AwaitStart { action } => {
            lemma_carried_has(op, action);
            lemma_stop_drops(remove, action, None, StopReason::Canceled, DropReason::Done);
            lemma_stop_drops(remove, action, None, StopReason::Finished, DropReason::Done);
            lemma_stop_drops(remove, action, Some(op.agent), StopReason::Finished, DropReason::Done);
        },
        Phase::SkipNextAction => {
            if s.exists && s.queue is Some && s.queue->0.len() > 0 {
                let q = s.queue->0;
                lemma_rest_in(q);
                lemma_drop_alone(remove, q[0], Some(op.agent), DropReason::Skipped);
            }
        },
        Phase::ClearActions => {
            lemma_clear_queue_from(remove, op, s);
            if s.exists && s.current matches Some(Some(_)) {
                let a = s.current->0->0;
                lemma_stop_drops(remove, a, Some(op.agent), StopReason::Canceled, DropReason::Cleared);
            }
        },
        Phase::ClearQueue => {
            lemma_clear_queue_from(remove, op, s);
        },
        Phase::LoopLimit => {},
        Phase::Done => {},
    }
}

/// No action is removed or dropped twice. Where the actions of an operation
/// and of its agent are owned once (see [`keeps`]) and the pending
/// `on_remove` calls, like the pending `on_drop` calls, are for distinct
/// actions, the calls of a whole run of the operation hand each action to
/// `on_remove` at most once and to `on_drop` at most once (`remove` says
/// which of the two is meant), and only an action that the agent or the
/// operation held at the start, or whose call was pending then.
pub proof fn lemma_run_takes_out_once(
    remove: bool,
    op: OperationView,
    s: AgentView,
    started: spec_fn(u64) -> bool,
    fuel: nat,
)
    requires
        keeps(Transition { op, agent: s }),
        taken_once(remove, op.pending),
    ensures
        taken_once(remove, run(op, s, started, fuel).calls),
        forall|x: u64|
            taken_in(remove, run(op, s, started, fuel).calls, x) ==> owned(carried(op), s, x) || taken_in(remove, 
                op.pending,
                x,
            ),
    decreases fuel,
{
    if fuel > 0 {
        let f = answer(op, started);
        let t0 = if op.pending.len() == 0 {
            advance_step(op, s, f)
        } else {
            Transition { op, agent: s }
        };
        if op.pending.len() == 0 {
            lemma_advance_from(remove, op, s, f);
            lemma_advance_keeps(op, s, f);
        }
        assert(taken_once(remove, t0.op.pending));
        assert(forall|x: u64|
            holds(t0.agent, x) || carried(t0.op).contains(x) || taken_in(remove, t0.op.pending, x) ==> owned(
                carried(op),
                s,
                x,
            ) || taken_in(remove, op.pending, x));
        lemma_resume_keeps(op, s, f);
        let t = resume_step(op, s, f).0;
        if t0.op.pending.len() > 0 {
            let p = t0.op.pending;
            let c = p[0];
            let rest_p = p.drop_first();
            assert(t.op.pending == rest_p);
            assert(carried(t.op) == carried(t0.op));
            assert(t.agent == t0.agent);
            assert forall|i: int, j: int|
                0 <= i < j < rest_p.len() && (#[trigger] taken(remove, rest_p[i])) is Some implies taken(remove, 
                    rest_p[i],
                ) != #[trigger] taken(remove, rest_p[j]) by {
                assert(rest_p[i] == p[i + 1] && rest_p[j] == p[j + 1]);
                assert(taken(remove, p[i + 1]) != taken(remove, p[j + 1]));
            }
            assert forall|x: u64| taken_in(remove, rest_p, x) implies taken_in(remove, p, x) by {
                let i = choose|i: int| 0 <= i < rest_p.len() && #[trigger] taken(remove, rest_p[i]) == Some(x);
                assert(p[i + 1] == rest_p[i]);
            }
            let fuel1 = (fuel - 1) as nat;
            lemma_run_takes_out_once(remove, t.op, t.agent, started, fuel1);
            let calls = run(op, s, started, fuel).calls;
            let rest = run(t.op, t.agent, started, fuel1).calls;
            assert(calls == seq![c] + rest);
            if taken(remove, c) is Some {
                let y = taken(remove, c)->0;
                assert(!holds(t.agent, y) && !carried(t.op).contains(y));
                assert(!taken_in(remove, rest_p, y)) by {
                    if taken_in(remove, rest_p, y) {
                        let i = choose|i: int| 0 <= i < rest_p.len() && #[trigger] taken(remove, rest_p[i]) == Some(y);
                        assert(p[i + 1] == rest_p[i]);
                        assert(taken(remove, p[0]) != taken(remove, p[i + 1]));
                    }
                }
                assert(!taken_in(remove, rest, y));
                assert(taken_in(remove, p, y)) by {
                    assert(taken(remove, p[0]) == Some(y));
                }
            }
            assert forall|i: int, j: int|
                0 <= i < j < calls.len() && (#[trigger] taken(remove, calls[i])) is Some implies taken(remove, 
                    calls[i],
                ) != #[trigger] taken(remove, calls[j]) by {
                assert(calls[j] == rest[j - 1]);
                if i == 0 {
                    assert(calls[0] == c);
                    if taken(remove, rest[j - 1]) == taken(remove, c) {
                        assert(taken_in(remove, rest, taken(remove, c)->0));
                    }
                } else {
                    assert(calls[i] == rest[i - 1]);
                }
            }
            assert forall|x: u64| taken_in(remove, calls, x) implies owned(carried(op), s, x) || taken_in(remove, op.pending, x) by {
                let i = choose|i: int| 0 <= i < calls.len() && #[trigger] taken(remove, calls[i]) == Some(x);
                if i == 0 {
                    assert(calls[0] == c);
                    assert(taken_in(remove, p, x)) by {
                        assert(taken(remove, p[0]) == Some(x));
                    }
                } else {
                    assert(calls[i] == rest[i - 1]);
                    assert(taken_in(remove, rest, x));
                }
            }
        }
    }
}

/// The actions that operation `op` is still to hand to `on_add`: the single
/// action it adds, where it is about to, then its batch.
pub open spec fn to_add(op: OperationView) -> Seq<u64> {
    match op.phase {
        Phase::AddAction { action, .. } => seq![action] + op.batch,
        _ => op.batch,
    }
}

/// Whether `calls` holds an `on_add` call for `x`.
pub open spec fn added_in(calls: Seq<HookCall>, x: u64) -> bool {
    exists|i: int| 0 <= i < calls.len() && #[trigger] adds(calls[i]) == Some(x)
}

/// The `on_add` calls of `calls` are for distinct actions.
pub open spec fn added_once(calls: Seq<HookCall>) -> bool {
    forall|i: int, j: int|
        0 <= i < j < calls.len() && (#[trigger] adds(calls[i])) is Some ==> adds(calls[i])
            != #[trigger] adds(calls[j])
}

/// What `op` is still to add occurs once, the `on_add` calls it has pending
/// are for distinct actions, and none of them is still to add.
pub open spec fn adds_ahead(op: OperationView) -> bool {
    &&& to_add(op).no_duplicates()
    &&& added_once(op.pending)
    &&& forall|x: u64| added_in(op.pending, x) ==> !to_add(op).contains(x)
}

/// Step `t` of operation `op` asks for `on_add` only for what `op` was still
/// to add, keeps [`adds_ahead`], and is still to add only what `op` was.
spec fn adds_from(t: Transition, op: OperationView) -> bool {
    &&& adds_ahead(t.op)
    &&& forall|x: u64|
        added_in(t.op.pending, x) || to_add(t.op).contains(x) ==> to_add(op).contains(x)
}

proof fn lemma_no_added_in(calls: Seq<HookCall>)
    requires
        no_adds(calls),
    ensures
        added_once(calls),
        forall|x: u64| !added_in(calls, x),
{
    assert forall|x: u64| !added_in(calls, x) by {
        if added_in(calls, x) {
            let i = choose|i: int| 0 <= i < calls.len() && #[trigger] adds(calls[i]) == Some(x);
        }
    }
}

/// The next action of a batch whose actions occur once is not in the rest
/// of the batch, which occurs once and is part of the batch.
proof fn lemma_batch_split(b: Seq<u64>, order: AddOrder)
    requires
        b.len() > 0,
        b.no_duplicates(),
    ensures
        !batch_rest(b, order).contains(batch_next(b, order)),
        batch_rest(b, order).no_duplicates(),
        b.contains(batch_next(b, order)),
        forall|x: u64| batch_rest(b, order).contains(x) ==> b.contains(x),
{
    let x0 = batch_next(b, order);
    let rest = batch_rest(b, order);
    let d: int = match order {
        AddOrder::Back => 1,
        AddOrder::Front => 0,
    };
    assert forall|i: int| 0 <= i < rest.len() implies rest[i] == b[i + d] by {}
    match order {
        AddOrder::Back => assert(b[0] == x0),
        AddOrder::Front => assert(b[b.len() - 1] == x0),
    }
    if rest.contains(x0) {
        let k = choose|k: int| 0 <= k < rest.len() && rest[k] == x0;
        assert(rest[k] == b[k + d]);
    }
    assert forall|i: int, j: int| 0 <= i < rest.len() && 0 <= j < rest.len() && i != j implies rest[i]
        != rest[j] by {
        assert(rest[i] == b[i + d] && rest[j] == b[j + d]);
    }
    assert forall|x: u64| rest.contains(x) implies b.contains(x) by {
        let k = choose|k: int| 0 <= k < rest.len() && rest[k] == x;
        assert(rest[k] == b[k + d]);
    }
}

proof fn lemma_one_add(op: OperationView, x: u64, rest: Seq<u64>, t: Transition)
    requires
        t.op.pending == seq![HookCall::OnAdd { action: x, agent: op.agent }],
        to_add(t.op) == rest,
        !rest.contains(x),
        rest.no_duplicates(),
        to_add(op).contains(x),
        forall|y: u64| rest.contains(y) ==> to_add(op).contains(y),
    ensures
        adds_from(t, op),
{
    let p = t.op.pending;
    assert forall|y: u64| added_in(p, y) implies y == x by {
        let i = choose|i: int| 0 <= i < p.len() && #[trigger] adds(p[i]) == Some(y);
        assert(i == 0);
    }
    assert forall|i: int, j: int| 0 <= i < j < p.len() && (#[trigger] adds(p[i])) is Some implies adds(
        p[i],
    ) != #[trigger] adds(p[j]) by {}
}

/// A step of an operation asks for `on_add` only for actions that it was
/// still to add, each once, and then is no longer to add them.
proof fn lemma_advance_add_once(op: OperationView, s: AgentView, finished: bool)
    requires
        op.pending.len() == 0,
        to_add(op).no_duplicates(),
    ensures
        adds_from(advance_step(op, s, finished), op),
{
    let t = advance_step(op, s, finished);
    lemma_advance_adds(op, s, finished);
    match op.phase {
        Phase::AddAction { config, action } => {
            if s.exists {
                assert(to_add(op)[0] == action);
                assert forall|y: u64| op.batch.contains(y) implies to_add(op).contains(y) by {
                    let k = choose|k: int| 0 <= k < op.batch.len() && op.batch[k] == y;
                    assert(to_add(op)[k + 1] == y);
                }
                assert forall|i: int, j: int| 0 <= i < op.batch.len() && 0 <= j < op.batch.len() && i != j implies op.batch[i]
                    != op.batch[j] by {
                    assert(to_add(op)[i + 1] == op.batch[i] && to_add(op)[j + 1] == op.batch[j]);
                }
                if op.batch.contains(action) {
                    let k = choose|k: int| 0 <= k < op.batch.len() && op.batch[k] == action;
                    assert(to_add(op)[k + 1] == action);
                }
                lemma_one_add(op, action, op.batch, t);
            } else {
                lemma_no_added_in(t.op.pending);
            }
        },
        Phase::AddActions { config } => {
            if op.batch.len() > 0 && s.exists && s.queue is Some {
                lemma_batch_split(op.batch, config.order);
                lemma_one_add(op, batch_next(op.batch, config.order), batch_rest(op.batch, config.order), t);
            } else {
                if op.batch.len() > 0 && s.exists {
                    crate::lifecycle::lemma_no_adds_dropped_each(op.batch, Some(op.agent), DropReason::Skipped);
                }
                lemma_no_added_in(t.op.pending);
            }
        },
        Phase::EnqueueBatch { config, action } => {
            if s.exists && s.queue is Some && op.batch.len() > 0 {
                lemma_batch_split(op.batch, config.order);
                lemma_one_add(op, batch_next(op.batch, config.order), batch_rest(op.batch, config.order), t);
            } else {
                crate::lifecycle::lemma_no_adds_dropped(action, None, DropReason::Skipped);
                crate::lifecycle::lemma_no_adds_dropped(action, Some(op.agent), DropReason::Skipped);
                if s.exists && s.queue is Some {
                    let s2 = AgentView { queue: Some(pushed(s.queue->0, action, config.order)), ..s };
                    crate::lifecycle::lemma_start_next_no_adds(op, s2);
                }
                lemma_no_added_in(t.op.pending);
            }
        },
        _ => {
            lemma_no_added_in(t.op.pending);
        },
    }
}

/// `on_add` is called once per action. Where what an operation is still to
/// add occurs once and the `on_add` calls it has pending are for distinct
/// actions that it is no longer to add, the calls of a whole run of the
/// operation hand each action to `on_add` at most once, and only an action
/// that the operation was to add at the start, or whose call was pending
/// then.
pub proof fn lemma_run_adds_once(op: OperationView, s: AgentView, started: spec_fn(u64) -> bool, fuel: nat)
    requires
        adds_ahead(op),
    ensures
        added_once(run(op, s, started, fuel).calls),
        forall|x: u64|
            added_in(run(op, s, started, fuel).calls, x) ==> to_add(op).contains(x) || added_in(
                op.pending,
                x,
            ),
    decreases fuel,
{
    if fuel > 0 {
        let f = answer(op, started);
        let t0 = if op.pending.len() == 0 {
            advance_step(op, s, f)
        } else {
            Transition { op, agent: s }
        };
        if op.pending.len() == 0 {
            lemma_advance_add_once(op, s, f);
        }
        assert(adds_ahead(t0.op));
        assert(forall|x: u64|
            added_in(t0.op.pending, x) || to_add(t0.op).contains(x) ==> to_add(op).contains(x)
                || added_in(op.pending, x));
        let t = resume_step(op, s, f).0;
        if t0.op.pending.len() > 0 {
            let p = t0.op.pending;
            let c = p[0];
            let rest_p = p.drop_first();
            assert(t.op.pending == rest_p);
            assert(to_add(t.op) == to_add(t0.op));
            assert forall|i: int, j: int|
                0 <= i < j < rest_p.len() && (#[trigger] adds(rest_p[i])) is Some implies adds(
                    rest_p[i],
                ) != #[trigger] adds(rest_p[j]) by {
                assert(rest_p[i] == p[i + 1] && rest_p[j] == p[j + 1]);
                assert(adds(p[i + 1]) != adds(p[j + 1]));
            }
            assert forall|x: u64| added_in(rest_p, x) implies added_in(p, x) by {
                let i = choose|i: int| 0 <= i < rest_p.len() && #[trigger] adds(rest_p[i]) == Some(x);
                assert(p[i + 1] == rest_p[i]);
            }
            assert(adds_ahead(t.op));
            let fuel1 = (fuel - 1) as nat;
            lemma_run_adds_once(t.op, t.agent, started, fuel1);
            let calls = run(op, s, started, fuel).calls;
            let rest = run(t.op, t.agent, started, fuel1).calls;
            assert(calls == seq![c] + rest);
            if adds(c) is Some {
                let y = adds(c)->0;
                assert(added_in(p, y)) by {
                    assert(adds(p[0]) == Some(y));
                }
                assert(!to_add(t.op).contains(y));
                assert(!added_in(rest_p, y)) by {
                    if added_in(rest_p, y) {
                        let i = choose|i: int| 0 <= i < rest_p.len() && #[trigger] adds(rest_p[i]) == Some(y);
                        assert(p[i + 1] == rest_p[i]);
                        assert(adds(p[0]) != adds(p[i + 1]));
                    }
                }
                assert(!added_in(rest, y));
            }
            assert forall|i: int, j: int|
                0 <= i < j < calls.len() && (#[trigger] adds(calls[i])) is Some implies adds(calls[i])
                    != #[trigger] adds(calls[j]) by {
                assert(calls[j] == rest[j - 1]);
                if i == 0 {
                    assert(calls[0] == c);
                    if adds(rest[j - 1]) == adds(c) {
                        assert(added_in(rest, adds(c)->0));
                    }
                } else {
                    assert(calls[i] == rest[i - 1]);
                }
            }
            assert forall|x: u64| added_in(calls, x) implies to_add(op).contains(x) || added_in(op.pending, x) by {
                let i = choose|i: int| 0 <= i < calls.len() && #[trigger] adds(calls[i]) == Some(x);
                if i == 0 {
                    assert(calls[0] == c);
                    assert(added_in(p, x)) by {
                        assert(adds(p[0]) == Some(x));
                    }
                } else {
                    assert(calls[i] == rest[i - 1]);
                    assert(added_in(rest, x));
                }
            }
        }
    }
}

} // verus!
