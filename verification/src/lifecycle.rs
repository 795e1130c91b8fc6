//! Each action is owned once: where the ids in an agent's components are
//! distinct and an operation brings in only ids that the agent does not
//! hold, every step keeps them so; `on_add` is asked for only for an action
//! on its way into the agent, and every action that the operation asks to
//! remove and drop has left the agent's components (and the operation) by
//! then.

use vstd::prelude::*;
use crate::agent::AgentView;
use crate::components::{pushed, AddOrder, DropReason};
use crate::hooks::{cleared, dropped, dropped_each, HookCall};
use crate::plugin::{
    add_action_step, add_actions_step, advance_step, after_stop, await_start_step, batch_next,
    batch_rest, can_start, clear_actions_step, clear_queue_step, enqueue_action_step,
    enqueue_batch_step, moved, next_in_batch, requeue_paused_step, resume_step,
    skip_next_action_step, start_next_action_step, stop_current_action_step, OperationView, Phase,
    Request, Transition,
};

verus! {

/// The action that `call` takes out of use, where it is an `on_remove` or
/// an `on_drop` call.
pub open spec fn drops(call: HookCall) -> Option<u64> {
    match call {
        HookCall::OnRemove { action, .. } => Some(action),
        HookCall::OnDrop { action, .. } => Some(action),
        _ => None,
    }
}

/// Whether agent `s` holds action `x`, running or queued.
pub open spec fn holds(s: AgentView, x: u64) -> bool {
    ||| s.current == Some(Some(x))
    ||| (s.queue is Some && s.queue->0.contains(x))
}

/// Whether the ids that agent `s` holds are distinct: none stands twice in
/// the queue, and the running one is not queued.
pub open spec fn distinct_ids(s: AgentView) -> bool {
    s.queue is Some ==> {
        &&& s.queue->0.no_duplicates()
        &&& forall|c: u64| s.current == Some(Some(c)) ==> !s.queue->0.contains(c)
    }
}

/// The actions that operation `op` holds outside the agent: the one it is
/// adding, starting or putting back, and the rest of its batch.
pub open spec fn carried(op: OperationView) -> Seq<u64> {
    match op.phase {
        Phase::AddAction { action, .. } => seq![action] + op.batch,
        Phase::EnqueueAction { action, .. } => seq![action] + op.batch,
        Phase::EnqueueBatch { action, .. } => seq![action] + op.batch,
        Phase::RequeuePaused { action, .. } => seq![action] + op.batch,
        Phase::AwaitStart { action } => seq![action] + op.batch,
        _ => op.batch,
    }
}

/// Operation `op` and agent `s` own their actions apart: the agent's ids are
/// distinct, the operation's are distinct, and none is held by both.
pub open spec fn apart(op: OperationView, s: AgentView) -> bool {
    &&& distinct_ids(s)
    &&& carried(op).no_duplicates()
    &&& forall|x: u64| carried(op).contains(x) ==> !holds(s, x)
}

/// Every action that `op` asks to drop is held neither by agent `s` nor by
/// the operation.
pub open spec fn drops_released(op: OperationView, s: AgentView) -> bool {
    forall|i: int|
        0 <= i < op.pending.len() && (#[trigger] drops(op.pending[i])) is Some ==> {
            &&& !holds(s, drops(op.pending[i])->0)
            &&& !carried(op).contains(drops(op.pending[i])->0)
        }
}

/// The action that `call` adds, where it is an `on_add` call.
pub open spec fn adds(call: HookCall) -> Option<u64> {
    match call {
        HookCall::OnAdd { action, .. } => Some(action),
        _ => None,
    }
}

/// Every `on_add` call that `op` asks for is for an action that the
/// operation holds.
pub open spec fn adds_carried(op: OperationView) -> bool {
    forall|i: int|
        0 <= i < op.pending.len() && (#[trigger] adds(op.pending[i])) is Some ==> carried(
            op,
        ).contains(adds(op.pending[i])->0)
}

/// No call of `calls` is an `on_add` call.
pub(crate) open spec fn no_adds(calls: Seq<HookCall>) -> bool {
    forall|i: int| 0 <= i < calls.len() ==> (#[trigger] adds(calls[i])) is None
}

proof fn lemma_no_adds_concat(a: Seq<HookCall>, b: Seq<HookCall>)
    requires
        no_adds(a),
        no_adds(b),
    ensures
        no_adds(a + b),
{
    assert forall|i: int| 0 <= i < (a + b).len() implies (#[trigger] adds((a + b)[i])) is None by {
        if i < a.len() {
            assert((a + b)[i] == a[i]);
        } else {
            assert((a + b)[i] == b[i - a.len()]);
        }
    }
}

proof fn lemma_no_adds_one(c: HookCall)
    requires
        adds(c) is None,
    ensures
        no_adds(seq![c]),
{
    assert forall|i: int| 0 <= i < seq![c].len() implies (#[trigger] adds(seq![c][i])) is None by {
        assert(i == 0);
    }
}

pub(crate) proof fn lemma_no_adds_dropped(x: u64, agent: Option<u64>, reason: DropReason)
    ensures
        no_adds(dropped(x, agent, reason)),
{
    lemma_no_adds_one(HookCall::OnRemove { action: x, agent });
    lemma_no_adds_one(HookCall::OnDrop { action: x, agent, reason });
    assert(dropped(x, agent, reason) =~= seq![HookCall::OnRemove { action: x, agent }] + seq![
        HookCall::OnDrop { action: x, agent, reason },
    ]);
    lemma_no_adds_concat(
        seq![HookCall::OnRemove { action: x, agent }],
        seq![HookCall::OnDrop { action: x, agent, reason }],
    );
}

proof fn lemma_no_adds_stop_dropped(
    x: u64,
    agent: Option<u64>,
    reason: crate::components::StopReason,
    why: DropReason,
)
    ensures
        no_adds(seq![HookCall::OnStop { action: x, agent, reason }] + dropped(x, agent, why)),
{
    lemma_no_adds_one(HookCall::OnStop { action: x, agent, reason });
    lemma_no_adds_dropped(x, agent, why);
    lemma_no_adds_concat(seq![HookCall::OnStop { action: x, agent, reason }], dropped(x, agent, why));
}

pub(crate) proof fn lemma_no_adds_dropped_each(actions: Seq<u64>, agent: Option<u64>, reason: DropReason)
    ensures
        no_adds(dropped_each(actions, agent, reason)),
    decreases actions.len(),
{
    if actions.len() == 0 {
    } else {
        lemma_no_adds_dropped_each(actions.drop_last(), agent, reason);
        lemma_no_adds_dropped(actions.last(), agent, reason);
        lemma_no_adds_concat(
            dropped_each(actions.drop_last(), agent, reason),
            dropped(actions.last(), agent, reason),
        );
    }
}

pub(crate) proof fn lemma_start_next_no_adds(op: OperationView, s: AgentView)
    ensures
        no_adds(start_next_action_step(op, s).op.pending),
{
    if can_start(s) {
        lemma_no_adds_one(HookCall::OnStart { action: s.queue->0[0], agent: op.agent });
    }
}

/// The `on_add` call of the next action in a batch is for an action that the
/// operation then holds.
proof fn lemma_next_in_batch_adds(op: OperationView, s: AgentView, config: crate::components::AddConfig)
    ensures
        adds_carried(next_in_batch(op, s, config).op),
{
    let t = next_in_batch(op, s, config);
    assert forall|i: int|
        0 <= i < t.op.pending.len() && (#[trigger] adds(t.op.pending[i])) is Some implies carried(
            t.op,
        ).contains(adds(t.op.pending[i])->0) by {
        assert(i == 0);
        assert(carried(t.op)[0] == batch_next(op.batch, config.order));
    }
}

/// Every step of an operation asks for `on_add` only for an action that the
/// operation holds; a step of an operation that is not adding actions asks
/// for none and keeps its batch.
pub(crate) proof fn lemma_advance_adds(op: OperationView, s: AgentView, finished: bool)
    requires
        op.pending.len() == 0,
    ensures
        adds_carried(advance_step(op, s, finished).op),
        !(op.phase is AddAction || op.phase is AddActions || op.phase is EnqueueBatch) ==> {
            &&& no_adds(advance_step(op, s, finished).op.pending)
            &&& advance_step(op, s, finished).op.batch == op.batch
        },
{
    let t = advance_step(op, s, finished);
    match op.phase {
        Phase::AddAction { config, action } => {
            if s.exists {
                assert forall|i: int|
                    0 <= i < t.op.pending.len() && (#[trigger] adds(t.op.pending[i])) is Some implies carried(
                        t.op,
                    ).contains(adds(t.op.pending[i])->0) by {
                    assert(i == 0);
                    assert(carried(t.op)[0] == action);
                }
            }
        },
        Phase::EnqueueAction { config, action } => {
            lemma_no_adds_dropped(action, None, DropReason::Skipped);
            lemma_no_adds_dropped(action, Some(op.agent), DropReason::Skipped);
            if s.exists && s.queue is Some {
                let s2 = AgentView { queue: Some(pushed(s.queue->0, action, config.order)), ..s };
                lemma_start_next_no_adds(op, s2);
            }
        },
        Phase::AddActions { config } => {
            lemma_no_adds_dropped_each(op.batch, Some(op.agent), DropReason::Skipped);
            lemma_next_in_batch_adds(op, s, config);
        },
        Phase::EnqueueBatch { config, action } => {
            lemma_no_adds_dropped(action, None, DropReason::Skipped);
            lemma_no_adds_dropped(action, Some(op.agent), DropReason::Skipped);
            if s.exists && s.queue is Some {
                let s2 = AgentView { queue: Some(pushed(s.queue->0, action, config.order)), ..s };
                lemma_start_next_no_adds(op, s2);
                lemma_next_in_batch_adds(op, s2, config);
            }
        },
        Phase::ExecuteActions => lemma_start_next_no_adds(op, s),
        Phase::StopCurrentAction { reason, then_start } => {
            lemma_start_next_no_adds(op, s);
            if s.exists && s.current matches Some(Some(_)) {
                let a = s.current->0->0;
                lemma_no_adds_one(HookCall::OnStop { action: a, agent: Some(op.agent), reason });
                lemma_no_adds_stop_dropped(a, Some(op.agent), reason, DropReason::Done);
            }
        },
        Phase::RequeuePaused { action, then_start } => {
            lemma_no_adds_dropped(action, None, DropReason::Skipped);
            lemma_no_adds_dropped(action, Some(op.agent), DropReason::Skipped);
            if s.exists && s.queue is Some {
                let s2 = AgentView { queue: Some(seq![action] + s.queue->0), ..s };
                lemma_start_next_no_adds(op, s2);
            }
        },
        Phase::StartNextAction => lemma_start_next_no_adds(op, s),
        Phase::AwaitStart { action } => {
            lemma_no_adds_stop_dropped(action, None, crate::components::StopReason::Canceled, DropReason::Done);
            lemma_no_adds_stop_dropped(action, None, crate::components::StopReason::Finished, DropReason::Done);
            lemma_no_adds_stop_dropped(
                action,
                Some(op.agent),
                crate::components::StopReason::Finished,
                DropReason::Done,
            );
        },
        Phase::SkipNextAction => {
            if s.exists && s.queue is Some && s.queue->0.len() > 0 {
                lemma_no_adds_dropped(s.queue->0[0], Some(op.agent), DropReason::Skipped);
            }
        },
        Phase::ClearActions => {
            if s.exists && s.queue is Some {
                lemma_no_adds_dropped_each(s.queue->0, Some(op.agent), DropReason::Cleared);
            }
            if s.exists && s.current matches Some(Some(_)) {
                lemma_no_adds_stop_dropped(
                    s.current->0->0,
                    Some(op.agent),
                    crate::components::StopReason::Canceled,
                    DropReason::Cleared,
                );
            }
        },
        Phase::ClearQueue => {
            if s.exists && s.queue is Some {
                lemma_no_adds_dropped_each(s.queue->0, Some(op.agent), DropReason::Cleared);
            }
        },
        Phase::LoopLimit => {},
        Phase::Done => {},
    }
}

proof fn lemma_start_next_apart(op: OperationView, s: AgentView)
    requires
        distinct_ids(s),
        op.batch.no_duplicates(),
        forall|x: u64| op.batch.contains(x) ==> !holds(s, x),
    ensures
        apart(start_next_action_step(op, s).op, start_next_action_step(op, s).agent),
        drops_released(start_next_action_step(op, s).op, start_next_action_step(op, s).agent),
{
    let t = start_next_action_step(op, s);
    if can_start(s) {
        let q = s.queue->0;
        let a = q[0];
        assert(q.contains(a));
        assert(holds(s, a));
        assert(!op.batch.contains(a));
        let rest = q.drop_first();
        assert(!rest.contains(a)) by {
            if rest.contains(a) {
                let k = choose|k: int| 0 <= k < rest.len() && rest[k] == a;
                assert(q[k + 1] == a);
            }
        }
        assert(carried(t.op) =~= seq![a] + op.batch);
        assert(t.agent == AgentView { queue: Some(rest), ..s });
        assert(s.current == Some(None::<u64>));
        vstd::seq_lib::lemma_no_dup_in_concat(seq![a], op.batch);
        assert(rest.no_duplicates());
        assert forall|x: u64| carried(t.op).contains(x) implies !holds(t.agent, x) by {
            if x != a {
                let k = choose|k: int| 0 <= k < carried(t.op).len() && carried(t.op)[k] == x;
                assert(op.batch[k - 1] == x);
                assert(op.batch.contains(x));
                assert(!holds(s, x));
                if rest.contains(x) {
                    let m = choose|m: int| 0 <= m < rest.len() && rest[m] == x;
                    assert(q[m + 1] == x);
                    assert(q.contains(x));
                }
            }
        }
    }
}


proof fn lemma_split_carried(x: u64, b: Seq<u64>)
    requires
        (seq![x] + b).no_duplicates(),
    ensures
        b.no_duplicates(),
        !b.contains(x),
        forall|y: u64| (seq![x] + b).contains(y) <==> (y == x || b.contains(y)),
{
    let c = seq![x] + b;
    assert forall|i: int, j: int| 0 <= i < b.len() && 0 <= j < b.len() && i != j implies b[i] != b[j] by {
        assert(c[i + 1] == b[i] && c[j + 1] == b[j]);
    }
    if b.contains(x) {
        let k = choose|k: int| 0 <= k < b.len() && b[k] == x;
        assert(c[k + 1] == x && c[0] == x);
    }
    assert forall|y: u64| c.contains(y) <==> (y == x || b.contains(y)) by {
        if c.contains(y) {
            let k = choose|k: int| 0 <= k < c.len() && c[k] == y;
            if k > 0 {
                assert(b[k - 1] == y);
            }
        }
        if y == x {
            assert(c[0] == y);
        }
        if b.contains(y) {
            let k = choose|k: int| 0 <= k < b.len() && b[k] == y;
            assert(c[k + 1] == y);
        }
    }
}

proof fn lemma_join_carried(x: u64, b: Seq<u64>)
    requires
        b.no_duplicates(),
        !b.contains(x),
    ensures
        (seq![x] + b).no_duplicates(),
        forall|y: u64| (seq![x] + b).contains(y) <==> (y == x || b.contains(y)),
{
    vstd::seq_lib::lemma_no_dup_in_concat(seq![x], b);
    let c = seq![x] + b;
    assert forall|y: u64| c.contains(y) <==> (y == x || b.contains(y)) by {
        if c.contains(y) {
            let k = choose|k: int| 0 <= k < c.len() && c[k] == y;
            if k > 0 {
                assert(b[k - 1] == y);
            }
        }
        if y == x {
            assert(c[0] == y);
        }
        if b.contains(y) {
            let k = choose|k: int| 0 <= k < b.len() && b[k] == y;
            assert(c[k + 1] == y);
        }
    }
}

proof fn lemma_push_apart(s: AgentView, x: u64, order: AddOrder)
    requires
        distinct_ids(s),
        s.queue is Some,
        !holds(s, x),
    ensures
        ({
            let s2 = AgentView { queue: Some(pushed(s.queue->0, x, order)), ..s };
            &&& distinct_ids(s2)
            &&& forall|y: u64| holds(s2, y) <==> (holds(s, y) || y == x)
        }),
{
    let q = s.queue->0;
    let q2 = pushed(q, x, order);
    assert(!q.contains(x));
    match order {
        AddOrder::Back => {
            assert forall|i: int, j: int| 0 <= i < q2.len() && 0 <= j < q2.len() && i != j implies q2[i] != q2[j] by {
                if i < q.len() && j < q.len() {
                } else if i < q.len() {
                    assert(q.contains(q[i]));
                } else if j < q.len() {
                    assert(q.contains(q[j]));
                }
            }
            assert forall|y: u64| q2.contains(y) <==> (q.contains(y) || y == x) by {
                if q2.contains(y) {
                    let k = choose|k: int| 0 <= k < q2.len() && q2[k] == y;
                    if k < q.len() {
                        assert(q[k] == y);
                    }
                }
                if q.contains(y) {
                    let k = choose|k: int| 0 <= k < q.len() && q[k] == y;
                    assert(q2[k] == y);
                }
                if y == x {
                    assert(q2[q.len() as int] == y);
                }
            }
        },
        AddOrder::Front => {
            lemma_join_carried(x, q);
        },
    }
    let s2 = AgentView { queue: Some(q2), ..s };
    assert(q2.no_duplicates());
    assert forall|c: u64| s2.current == Some(Some(c)) implies !q2.contains(c) by {
        assert(holds(s, c));
        assert(c != x);
        assert(!q.contains(c));
    }
    assert forall|y: u64| holds(s2, y) <==> (holds(s, y) || y == x) by {
        assert(q2.contains(y) <==> (q.contains(y) || y == x));
    }
}

/// The calls that drop each of `actions` drop only actions of `actions`.
proof fn lemma_dropped_each_drops(actions: Seq<u64>, agent: Option<u64>, reason: crate::components::DropReason)
    ensures
        forall|i: int|
            0 <= i < dropped_each(actions, agent, reason).len() && (#[trigger] drops(
                dropped_each(actions, agent, reason)[i],
            )) is Some ==> actions.contains(drops(dropped_each(actions, agent, reason)[i])->0),
    decreases actions.len(),
{
    if actions.len() > 0 {
        let init = actions.drop_last();
        lemma_dropped_each_drops(init, agent, reason);
        let p0 = dropped_each(init, agent, reason);
        let p = dropped_each(actions, agent, reason);
        assert(p == p0 + dropped(actions.last(), agent, reason));
        assert forall|i: int| 0 <= i < p.len() && (#[trigger] drops(p[i])) is Some implies actions.contains(
            drops(p[i])->0,
        ) by {
            if i < p0.len() {
                assert(p[i] == p0[i]);
                let k = choose|k: int| 0 <= k < init.len() && init[k] == drops(p0[i])->0;
                assert(actions[k] == init[k]);
            } else {
                assert(actions[actions.len() - 1] == actions.last());
            }
        }
    }
}

/// The action that request `r` takes out of use, where it asks for an
/// `on_remove` or an `on_drop` call.
pub open spec fn dropped_by(r: Request) -> Option<u64> {
    match r {
        Request::Call(call) => drops(call),
        _ => None,
    }
}

/// The action that request `r` adds, where it asks for an `on_add` call.
pub open spec fn added_by(r: Request) -> Option<u64> {
    match r {
        Request::Call(call) => adds(call),
        _ => None,
    }
}

/// A step keeps the actions apart and releases what it drops.
spec fn released(t: Transition) -> bool {
    apart(t.op, t.agent) && drops_released(t.op, t.agent)
}

/// A step keeps the actions apart, releases what it drops, and asks for
/// `on_add` only for actions that the operation holds.
pub open spec fn keeps(t: Transition) -> bool {
    &&& apart(t.op, t.agent)
    &&& drops_released(t.op, t.agent)
    &&& adds_carried(t.op)
}

/// The operation's own batch is distinct and held apart from agent `s`.
spec fn batch_apart(op: OperationView, s: AgentView) -> bool {
    &&& distinct_ids(s)
    &&& op.batch.no_duplicates()
    &&& forall|y: u64| op.batch.contains(y) ==> !holds(s, y)
}

proof fn lemma_moved_batch(op: OperationView, s: AgentView, pending: Seq<HookCall>, phase: Phase)
    requires
        batch_apart(op, s),
        carried(moved(op, pending, phase)) == op.batch,
        forall|i: int|
            0 <= i < pending.len() && (#[trigger] drops(pending[i])) is Some ==> !holds(
                s,
                drops(pending[i])->0,
            ) && !op.batch.contains(drops(pending[i])->0),
    ensures
        released(Transition { op: moved(op, pending, phase), agent: s }),
{
}

proof fn lemma_drop_one(op: OperationView, s: AgentView, x: u64, agent: Option<u64>, reason: DropReason, phase: Phase)
    requires
        batch_apart(op, s),
        !holds(s, x),
        !op.batch.contains(x),
        carried(moved(op, dropped(x, agent, reason), phase)) == op.batch,
    ensures
        released(Transition { op: moved(op, dropped(x, agent, reason), phase), agent: s }),
{
    let p = dropped(x, agent, reason);
    assert forall|i: int| 0 <= i < p.len() && (#[trigger] drops(p[i])) is Some implies !holds(
        s,
        drops(p[i])->0,
    ) && !op.batch.contains(drops(p[i])->0) by {
        assert(i == 0 || i == 1);
    }
    lemma_moved_batch(op, s, p, phase);
}

proof fn lemma_carried_parts(op: OperationView, s: AgentView, x: u64)
    requires
        apart(op, s),
        carried(op) == seq![x] + op.batch,
    ensures
        batch_apart(op, s),
        !holds(s, x),
        !op.batch.contains(x),
{
    lemma_split_carried(x, op.batch);
    assert(carried(op).contains(x));
    assert forall|y: u64| op.batch.contains(y) implies !holds(s, y) by {
        assert(carried(op).contains(y));
    }
}

/// After `x` is put into the agent, the batch is still held apart.
proof fn lemma_batch_after_push(op: OperationView, s: AgentView, x: u64, order: AddOrder)
    requires
        batch_apart(op, s),
        s.queue is Some,
        !holds(s, x),
        !op.batch.contains(x),
    ensures
        batch_apart(op, AgentView { queue: Some(pushed(s.queue->0, x, order)), ..s }),
{
    lemma_push_apart(s, x, order);
}

proof fn lemma_enqueue_released(op: OperationView, s: AgentView, config: crate::components::AddConfig, x: u64)
    requires
        apart(op, s),
        carried(op) == seq![x] + op.batch,
    ensures
        released(enqueue_action_step(op, s, config, x)),
{
    lemma_carried_parts(op, s, x);
    if !s.exists {
        lemma_drop_one(op, s, x, None, DropReason::Skipped, Phase::Done);
    } else if s.queue is None {
        lemma_drop_one(op, s, x, Some(op.agent), DropReason::Skipped, Phase::Done);
    } else {
        let s2 = AgentView { queue: Some(pushed(s.queue->0, x, config.order)), ..s };
        lemma_batch_after_push(op, s, x, config.order);
        if config.start {
            lemma_start_next_apart(op, s2);
        } else {
            lemma_moved_batch(op, s2, seq![], Phase::Done);
        }
    }
}

proof fn lemma_next_in_batch_released(op: OperationView, s: AgentView, config: crate::components::AddConfig)
    requires
        batch_apart(op, s),
        op.batch.len() > 0,
    ensures
        released(next_in_batch(op, s, config)),
{
    let b = op.batch;
    let x = batch_next(b, config.order);
    let rest = batch_rest(b, config.order);
    let t = next_in_batch(op, s, config);
    assert(carried(t.op) == seq![x] + rest);
    match config.order {
        AddOrder::Back => {
            assert(seq![x] + rest =~= b);
        },
        AddOrder::Front => {
            assert(rest + seq![x] =~= b);
            assert forall|i: int, j: int| 0 <= i < rest.len() && 0 <= j < rest.len() && i != j implies rest[i] != rest[j] by {
                assert(b[i] == rest[i] && b[j] == rest[j]);
            }
            if rest.contains(x) {
                let k = choose|k: int| 0 <= k < rest.len() && rest[k] == x;
                assert(b[k] == x && b[b.len() - 1] == x);
            }
            lemma_join_carried(x, rest);
            assert forall|y: u64| (seq![x] + rest).contains(y) implies b.contains(y) by {
                if y == x {
                    assert(b[b.len() - 1] == y);
                } else {
                    let k = choose|k: int| 0 <= k < rest.len() && rest[k] == y;
                    assert(b[k] == y);
                }
            }
        },
    }
    assert forall|y: u64| carried(t.op).contains(y) implies !holds(s, y) by {
        if config.order == AddOrder::Back {
            assert(carried(t.op) =~= b);
        }
    }
}

proof fn lemma_enqueue_batch_released(op: OperationView, s: AgentView, config: crate::components::AddConfig, x: u64)
    requires
        apart(op, s),
        carried(op) == seq![x] + op.batch,
    ensures
        released(enqueue_batch_step(op, s, config, x)),
{
    lemma_carried_parts(op, s, x);
    if !s.exists {
        lemma_drop_one(op, s, x, None, DropReason::Skipped, Phase::Done);
    } else if s.queue is None {
        lemma_drop_one(op, s, x, Some(op.agent), DropReason::Skipped, Phase::Done);
    } else {
        let s2 = AgentView { queue: Some(pushed(s.queue->0, x, config.order)), ..s };
        lemma_batch_after_push(op, s, x, config.order);
        if op.batch.len() > 0 {
            lemma_next_in_batch_released(op, s2, config);
        } else if config.start {
            lemma_start_next_apart(op, s2);
        } else {
            lemma_moved_batch(op, s2, seq![], Phase::Done);
        }
    }
}

proof fn lemma_add_actions_released(op: OperationView, s: AgentView, config: crate::components::AddConfig)
    requires
        apart(op, s),
        carried(op) == op.batch,
    ensures
        released(add_actions_step(op, s, config)),
{
    if op.batch.len() == 0 || !s.exists {
        lemma_moved_batch(op, s, seq![], Phase::Done);
    } else if s.queue is None {
        let t = add_actions_step(op, s, config);
        let p = dropped_each(op.batch, Some(op.agent), DropReason::Skipped);
        lemma_dropped_each_drops(op.batch, Some(op.agent), DropReason::Skipped);
        assert(carried(t.op) =~= seq![]);
        assert forall|i: int| 0 <= i < t.op.pending.len() && (#[trigger] drops(t.op.pending[i])) is Some implies {
            &&& !holds(t.agent, drops(t.op.pending[i])->0)
            &&& !carried(t.op).contains(drops(t.op.pending[i])->0)
        } by {
            assert(op.batch.contains(drops(p[i])->0));
        }
    } else {
        lemma_next_in_batch_released(op, s, config);
    }
}

/// Taking the running action out of an agent with distinct ids leaves it
/// held by neither.
proof fn lemma_take_running(s: AgentView, a: u64)
    requires
        distinct_ids(s),
        s.current == Some(Some(a)),
    ensures
        ({
            let s2 = AgentView { current: Some(None), ..s };
            &&& distinct_ids(s2)
            &&& !holds(s2, a)
            &&& forall|y: u64| holds(s2, y) ==> holds(s, y)
        }),
{
}

proof fn lemma_stop_released(op: OperationView, s: AgentView, reason: crate::components::StopReason, then_start: bool)
    requires
        apart(op, s),
        carried(op) == op.batch,
    ensures
        released(stop_current_action_step(op, s, reason, then_start)),
{
    let agent = Some(op.agent);
    if s.exists && s.current matches Some(Some(_)) {
        let a = s.current->0->0;
        let s2 = AgentView { current: Some(None), ..s };
        lemma_take_running(s, a);
        assert(holds(s, a));
        assert(!op.batch.contains(a));
        assert(batch_apart(op, s2));
        match reason {
            crate::components::StopReason::Paused => {
                let t = stop_current_action_step(op, s, reason, then_start);
                lemma_join_carried(a, op.batch);
                assert(carried(t.op) == seq![a] + op.batch);
            },
            _ => {
                let p = seq![HookCall::OnStop { action: a, agent, reason }] + dropped(a, agent, DropReason::Done);
                assert forall|i: int| 0 <= i < p.len() && (#[trigger] drops(p[i])) is Some implies !holds(
                    s2,
                    drops(p[i])->0,
                ) && !op.batch.contains(drops(p[i])->0) by {
                    assert(i == 1 || i == 2);
                }
                lemma_moved_batch(op, s2, p, after_stop(then_start));
            },
        }
    } else if then_start {
        lemma_start_next_apart(op, s);
    } else {
        lemma_moved_batch(op, s, seq![], Phase::Done);
    }
}

proof fn lemma_requeue_released(op: OperationView, s: AgentView, x: u64, then_start: bool)
    requires
        apart(op, s),
        carried(op) == seq![x] + op.batch,
    ensures
        released(requeue_paused_step(op, s, x, then_start)),
{
    lemma_carried_parts(op, s, x);
    if !s.exists {
        lemma_drop_one(op, s, x, None, DropReason::Skipped, after_stop(then_start));
    } else if s.queue is None {
        lemma_drop_one(op, s, x, Some(op.agent), DropReason::Skipped, after_stop(then_start));
    } else {
        let s2 = AgentView { queue: Some(pushed(s.queue->0, x, AddOrder::Front)), ..s };
        lemma_batch_after_push(op, s, x, AddOrder::Front);
        assert(s2 == AgentView { queue: Some(seq![x] + s.queue->0), ..s });
        if then_start {
            lemma_start_next_apart(op, s2);
        } else {
            lemma_moved_batch(op, s2, seq![], Phase::Done);
        }
    }
}

proof fn lemma_await_start_released(op: OperationView, s: AgentView, x: u64, finished: bool)
    requires
        apart(op, s),
        carried(op) == seq![x] + op.batch,
    ensures
        released(await_start_step(op, s, x, finished)),
{
    lemma_carried_parts(op, s, x);
    let t = await_start_step(op, s, x, finished);
    if !finished {
        if s.exists && s.current is Some {
            let s2 = AgentView { current: Some(Some(x)), ..s };
            assert forall|y: u64| holds(s2, y) implies holds(s, y) || y == x by {}
            assert(distinct_ids(s2)) by {
                if s.queue is Some {
                    assert(!s.queue->0.contains(x));
                }
            }
            lemma_moved_batch(op, s2, seq![], Phase::Done);
        } else {
            let p = seq![HookCall::OnStop { action: x, agent: None, reason: crate::components::StopReason::Canceled }]
                + dropped(x, None, DropReason::Done);
            assert forall|i: int| 0 <= i < p.len() && (#[trigger] drops(p[i])) is Some implies !holds(
                s,
                drops(p[i])->0,
            ) && !op.batch.contains(drops(p[i])->0) by {
                assert(i == 1 || i == 2);
            }
            lemma_moved_batch(op, s, p, Phase::Done);
        }
    } else {
        let p = t.op.pending;
        assert(carried(t.op) == op.batch);
        assert forall|i: int| 0 <= i < p.len() && (#[trigger] drops(p[i])) is Some implies !holds(
            s,
            drops(p[i])->0,
        ) && !op.batch.contains(drops(p[i])->0) by {
            assert(i == 1 || i == 2);
        }
    }
}

proof fn lemma_skip_released(op: OperationView, s: AgentView)
    requires
        apart(op, s),
        carried(op) == op.batch,
    ensures
        released(skip_next_action_step(op, s)),
{
    if s.exists && s.queue is Some && s.queue->0.len() > 0 {
        let q = s.queue->0;
        let a = q[0];
        let rest = q.drop_first();
        let s2 = AgentView { queue: Some(rest), ..s };
        assert(!rest.contains(a)) by {
            if rest.contains(a) {
                let k = choose|k: int| 0 <= k < rest.len() && rest[k] == a;
                assert(q[k + 1] == a);
            }
        }
        assert forall|y: u64| rest.contains(y) implies q.contains(y) by {
            let k = choose|k: int| 0 <= k < rest.len() && rest[k] == y;
            assert(q[k + 1] == y);
        }
        assert(q.contains(a));
        assert(holds(s, a));
        assert(!op.batch.contains(a));
        assert(s.current != Some(Some(a)));
        assert(rest.no_duplicates());
        assert(distinct_ids(s2));
        assert forall|y: u64| op.batch.contains(y) implies !holds(s2, y) by {
            assert(!holds(s, y));
        }
        lemma_drop_one(op, s2, a, Some(op.agent), DropReason::Skipped, Phase::Done);
    } else {
        lemma_moved_batch(op, s, seq![], Phase::Done);
    }
}

proof fn lemma_clear_queue_released(op: OperationView, s: AgentView)
    requires
        apart(op, s),
        carried(op) == op.batch,
    ensures
        released(clear_queue_step(op, s)),
{
    if s.exists && s.queue is Some && s.queue->0.len() > 0 {
        let q = s.queue->0;
        let s2 = AgentView { queue: Some(Seq::<u64>::empty()), ..s };
        let p = cleared(q, Some(op.agent));
        lemma_dropped_each_drops(q, Some(op.agent), DropReason::Cleared);
        assert forall|y: u64| q.contains(y) implies !holds(s2, y) && !op.batch.contains(y) by {
            assert(holds(s, y));
        }
        assert(distinct_ids(s2));
        assert forall|y: u64| op.batch.contains(y) implies !holds(s2, y) by {
            assert(!holds(s, y));
        }
        assert forall|i: int| 0 <= i < p.len() && (#[trigger] drops(p[i])) is Some implies !holds(
            s2,
            drops(p[i])->0,
        ) && !op.batch.contains(drops(p[i])->0) by {
            assert(q.contains(drops(p[i])->0));
        }
        lemma_moved_batch(op, s2, p, Phase::Done);
    } else {
        lemma_moved_batch(op, s, seq![], Phase::Done);
    }
}

proof fn lemma_clear_released(op: OperationView, s: AgentView)
    requires
        apart(op, s),
        carried(op) == op.batch,
    ensures
        released(clear_actions_step(op, s)),
{
    if !s.exists {
        lemma_moved_batch(op, s, seq![], Phase::Done);
    } else if s.current is None {
        lemma_clear_queue_released(op, s);
    } else if s.current->0 is Some {
        let a = s.current->0->0;
        let agent = Some(op.agent);
        let s2 = AgentView { current: Some(None), ..s };
        lemma_take_running(s, a);
        assert(holds(s, a));
        assert(!op.batch.contains(a));
        let p = seq![HookCall::OnStop { action: a, agent, reason: crate::components::StopReason::Canceled }]
            + dropped(a, agent, DropReason::Cleared);
        assert forall|i: int| 0 <= i < p.len() && (#[trigger] drops(p[i])) is Some implies !holds(
            s2,
            drops(p[i])->0,
        ) && !op.batch.contains(drops(p[i])->0) by {
            assert(i == 1 || i == 2);
        }
        lemma_moved_batch(op, s2, p, Phase::ClearQueue);
    } else {
        lemma_clear_queue_released(op, s);
    }
}

/// Every step of an operation keeps the actions of the operation and of the
/// agent apart, every action that it asks to remove and drop is held by
/// neither, and every action that it asks to add is held by the operation.
pub proof fn lemma_advance_keeps(op: OperationView, s: AgentView, finished: bool)
    requires
        op.pending.len() == 0,
        apart(op, s),
    ensures
        keeps(advance_step(op, s, finished)),
{
    lemma_advance_adds(op, s, finished);
    match op.phase {
        Phase::AddAction { config, action } => {
            lemma_carried_parts(op, s, action);
            if s.exists {
                assert(carried(add_action_step(op, s, config, action).op) == carried(op));
            } else {
                lemma_moved_batch(op, s, seq![], Phase::Done);
            }
        },
        Phase::EnqueueAction { config, action } => lemma_enqueue_released(op, s, config, action),
        Phase::AddActions { config } => lemma_add_actions_released(op, s, config),
        Phase::EnqueueBatch { config, action } => lemma_enqueue_batch_released(op, s, config, action),
        Phase::ExecuteActions => {
            if s.exists && s.current == Some(None::<u64>) {
                lemma_start_next_apart(op, s);
            } else {
                lemma_moved_batch(op, s, seq![], Phase::Done);
            }
        },
        Phase::StopCurrentAction { reason, then_start } => lemma_stop_released(op, s, reason, then_start),
        Phase::RequeuePaused { action, then_start } => lemma_requeue_released(op, s, action, then_start),
        Phase::StartNextAction => lemma_start_next_apart(op, s),
        Phase::AwaitStart { action } => lemma_await_start_released(op, s, action, finished),
        Phase::SkipNextAction => lemma_skip_released(op, s),
        Phase::ClearActions => lemma_clear_released(op, s),
        Phase::ClearQueue => lemma_clear_queue_released(op, s),
        Phase::LoopLimit => {},
        Phase::Done => {},
    }
}

/// Each action is owned once. Where the agent's ids are distinct, the
/// operation brings in only ids that the agent does not hold, every
/// `on_remove` or `on_drop` still pending is for an action held by neither,
/// and every `on_add` still pending is for an action that the operation
/// holds, one resumption keeps all of this. An `on_remove` or `on_drop`
/// call that it hands out is for an action that has left both the agent's
/// components and the operation; an `on_add` call is for an action that the
/// operation holds and the agent does not.
pub proof fn lemma_resume_keeps(op: OperationView, s: AgentView, finished: bool)
    requires
        keeps(Transition { op, agent: s }),
    ensures
        keeps(resume_step(op, s, finished).0),
        dropped_by(resume_step(op, s, finished).1) matches Some(x) ==> {
            &&& !holds(resume_step(op, s, finished).0.agent, x)
            &&& !carried(resume_step(op, s, finished).0.op).contains(x)
        },
        added_by(resume_step(op, s, finished).1) matches Some(x) ==> {
            &&& carried(resume_step(op, s, finished).0.op).contains(x)
            &&& !holds(resume_step(op, s, finished).0.agent, x)
        },
{
    let t = if op.pending.len() == 0 {
        lemma_advance_keeps(op, s, finished);
        advance_step(op, s, finished)
    } else {
        Transition { op, agent: s }
    };
    assert(keeps(t));
    if t.op.pending.len() > 0 {
        let op2 = OperationView { pending: t.op.pending.drop_first(), ..t.op };
        assert(carried(op2) == carried(t.op));
        assert forall|i: int|
            0 <= i < op2.pending.len() && (#[trigger] drops(op2.pending[i])) is Some implies {
            &&& !holds(t.agent, drops(op2.pending[i])->0)
            &&& !carried(op2).contains(drops(op2.pending[i])->0)
        } by {
            assert(op2.pending[i] == t.op.pending[i + 1]);
            assert(drops(t.op.pending[i + 1]) is Some);
        }
        assert(drops(t.op.pending[0]) is Some ==> !holds(t.agent, drops(t.op.pending[0])->0));
        assert(adds(t.op.pending[0]) is Some ==> carried(op2).contains(adds(t.op.pending[0])->0));
    }
}
} // verus!
