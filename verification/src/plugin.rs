use vstd::prelude::*;
use std::collections::VecDeque;
use crate::agent::{AgentState, AgentView};
use crate::components::{drain_front, pushed, AddConfig, AddOrder, DropReason, StopReason};
use crate::hooks::{cleared, dropped, dropped_each, push_dropped_each, HookCall};
use crate::lifecycle::carried;

verus! {

/// Where an [`Operation`] stands: what it does next once the calls it has
/// asked for were made.
#[derive(Debug, Clone, Copy, PartialEq, Eq, Structural)]
pub enum Phase {
    /// Adding a single action: the agent is looked up and `on_add` is called.
    AddAction { config: AddConfig, action: u64 },
    /// `on_add` of a single action returned: the action is enqueued.
    EnqueueAction { config: AddConfig, action: u64 },
    /// Adding the batch of actions: the agent and its queue are looked up.
    AddActions { config: AddConfig },
    /// `on_add` of an action of the batch returned: the action is enqueued.
    EnqueueBatch { config: AddConfig, action: u64 },
    /// Starting the next action if nothing runs.
    ExecuteActions,
    /// Stopping the running action, then starting the next one where
    /// `then_start` holds.
    StopCurrentAction { reason: StopReason, then_start: bool },
    /// `on_stop` of a paused action returned: it goes back to the front.
    RequeuePaused { action: u64, then_start: bool },
    /// Starting the next action in the queue.
    StartNextAction,
    /// `on_start` of `action` returned.
    AwaitStart { action: u64 },
    /// Skipping the next action in the queue.
    SkipNextAction,
    /// Clearing the running action, then the queue.
    ClearActions,
    /// Clearing the queue.
    ClearQueue,
    /// Too many actions finished at once while starting the next action.
    LoopLimit,
    /// Nothing is left to do.
    Done,
}

/// What an [`Operation`] asks of the code that drives it.
#[derive(Debug, Clone, Copy, PartialEq, Eq, Structural)]
pub enum Request {
    /// Make this call, then resume the operation with the agent as it is
    /// then. For `on_start`, resume with its answer.
    Call(HookCall),
    /// The operation is complete.
    Done,
    /// Starting the next action did not come to rest: too many actions
    /// finished as soon as they started.
    LoopLimit,
}

/// The mathematical model of an [`Operation`].
#[verifier::ext_equal]
pub struct OperationView {
    pub agent: u64,
    pub phase: Phase,
    /// Calls asked for and not yet handed out, first first.
    pub pending: Seq<HookCall>,
    /// Actions of a batch that are still to be added.
    pub batch: Seq<u64>,
    /// How many actions finished at once while starting the next action.
    pub counter: u16,
}

/// An operation and an agent as they stand after a step.
#[verifier::ext_equal]
pub struct Transition {
    pub op: OperationView,
    pub agent: AgentView,
}

/// One operation on the actions of one agent, such as adding an action or
/// clearing the queue, in progress.
///
/// The operation decides; the code that drives it makes the lifecycle calls
/// that it asks for (see [`Operation::resume`]).
#[derive(Debug)]
pub struct Operation {
    agent: u64,
    phase: Phase,
    pending: VecDeque<HookCall>,
    batch: VecDeque<u64>,
    counter: u16,
}

impl View for Operation {
    type V = OperationView;

    closed spec fn view(&self) -> OperationView {
        OperationView {
            agent: self.agent,
            phase: self.phase,
            pending: self.pending@,
            batch: self.batch@,
            counter: self.counter,
        }
    }
}

/// The operation moved to `phase`, with `pending` calls asked for.
pub open spec fn moved(op: OperationView, pending: Seq<HookCall>, phase: Phase) -> OperationView {
    OperationView { pending, phase, ..op }
}

/// The operation is complete and the agent is left as `s`.
pub open spec fn finished_with(op: OperationView, s: AgentView) -> Transition {
    Transition { op: moved(op, seq![], Phase::Done), agent: s }
}

/// The phase that follows a stop: starting the next action, or nothing.
pub open spec fn after_stop(then_start: bool) -> Phase {
    if then_start {
        Phase::StartNextAction
    } else {
        Phase::Done
    }
}

/// Whether the next action can start: the agent exists, nothing runs, and
/// its queue holds an action.
pub open spec fn can_start(s: AgentView) -> bool {
    &&& s.exists
    &&& s.current == Some(None::<u64>)
    &&& s.queue matches Some(q) && q.len() > 0
}

/// Starting the next action: the front action leaves the queue and
/// `on_start` is called; otherwise nothing happens.
pub open spec fn start_next_action_step(op: OperationView, s: AgentView) -> Transition {
    if can_start(s) {
        let q = s.queue->0;
        Transition {
            op: moved(
                op,
                seq![HookCall::OnStart { action: q[0], agent: op.agent }],
                Phase::AwaitStart { action: q[0] },
            ),
            agent: AgentView { queue: Some(q.drop_first()), ..s },
        }
    } else {
        finished_with(op, s)
    }
}

/// `on_start` of `action` returned `finished`.
///
/// An action that is not finished becomes the running action, or, where the
/// agent lost its current action component, is canceled with no agent. A
/// finished action is stopped as finished and dropped as done; if the agent
/// still exists the next action starts after that.
pub open spec fn await_start_step(op: OperationView, s: AgentView, action: u64, finished: bool)
    -> Transition {
    if !finished {
        if s.exists && s.current is Some {
            finished_with(op, AgentView { current: Some(Some(action)), ..s })
        } else {
            Transition {
                op: moved(
                    op,
                    seq![HookCall::OnStop { action, agent: None, reason: StopReason::Canceled }]
                        + dropped(action, None, DropReason::Done),
                    Phase::Done,
                ),
                agent: s,
            }
        }
    } else {
        let agent = if s.exists {
            Some(op.agent)
        } else {
            None
        };
        let calls = seq![HookCall::OnStop { action, agent, reason: StopReason::Finished }]
            + dropped(action, agent, DropReason::Done);
        if !s.exists {
            Transition { op: moved(op, calls, Phase::Done), agent: s }
        } else if op.counter + 1 >= u16::MAX {
            Transition { op: moved(op, calls, Phase::LoopLimit), agent: s }
        } else {
            Transition {
                op: OperationView {
                    pending: calls,
                    phase: Phase::StartNextAction,
                    counter: (op.counter + 1) as u16,
                    ..op
                },
                agent: s,
            }
        }
    }
}

/// Adding a single action: nothing happens for an agent that does not
/// exist, and the operation keeps the action; otherwise `on_add` is called.
pub open spec fn add_action_step(op: OperationView, s: AgentView, config: AddConfig, action: u64)
    -> Transition {
    if !s.exists {
        Transition {
            op: OperationView { pending: seq![], phase: Phase::Done, batch: seq![action] + op.batch, ..op },
            agent: s,
        }
    } else {
        Transition {
            op: moved(
                op,
                seq![HookCall::OnAdd { action, agent: op.agent }],
                Phase::EnqueueAction { config, action },
            ),
            agent: s,
        }
    }
}

/// `on_add` of a single action returned: the action is enqueued at the end
/// that the config names, and the next action starts where the config says
/// so; without agent or queue the action is dropped as skipped.
pub open spec fn enqueue_action_step(
    op: OperationView,
    s: AgentView,
    config: AddConfig,
    action: u64,
) -> Transition {
    if !s.exists {
        Transition {
            op: moved(op, dropped(action, None, DropReason::Skipped), Phase::Done),
            agent: s,
        }
    } else if s.queue is None {
        Transition {
            op: moved(op, dropped(action, Some(op.agent), DropReason::Skipped), Phase::Done),
            agent: s,
        }
    } else {
        let s2 = AgentView { queue: Some(pushed(s.queue->0, action, config.order)), ..s };
        if config.start {
            start_next_action_step(op, s2)
        } else {
            finished_with(op, s2)
        }
    }
}

/// The action of a batch that is added next: the first for the back, the
/// last for the front, so that the batch keeps its order in the queue.
pub open spec fn batch_next(batch: Seq<u64>, order: AddOrder) -> u64 {
    match order {
        AddOrder::Back => batch[0],
        AddOrder::Front => batch.last(),
    }
}

/// The batch without the action that is added next.
pub open spec fn batch_rest(batch: Seq<u64>, order: AddOrder) -> Seq<u64> {
    match order {
        AddOrder::Back => batch.drop_first(),
        AddOrder::Front => batch.drop_last(),
    }
}

/// `on_add` is called for the action of the batch that is added next.
pub open spec fn next_in_batch(op: OperationView, s: AgentView, config: AddConfig) -> Transition {
    let action = batch_next(op.batch, config.order);
    Transition {
        op: OperationView {
            pending: seq![HookCall::OnAdd { action, agent: op.agent }],
            phase: Phase::EnqueueBatch { config, action },
            batch: batch_rest(op.batch, config.order),
            ..op
        },
        agent: s,
    }
}

/// Adding a batch of actions: an empty batch or an agent that does not
/// exist is left alone; for an agent without a queue each action of the
/// batch is dropped as skipped, in order; otherwise the first action of the
/// batch is added.
pub open spec fn add_actions_step(op: OperationView, s: AgentView, config: AddConfig) -> Transition {
    if op.batch.len() == 0 || !s.exists {
        finished_with(op, s)
    } else if s.queue is None {
        Transition {
            op: OperationView {
                pending: dropped_each(op.batch, Some(op.agent), DropReason::Skipped),
                phase: Phase::Done,
                batch: seq![],
                ..op
            },
            agent: s,
        }
    } else {
        next_in_batch(op, s, config)
    }
}

/// `on_add` of an action of the batch returned: the action is enqueued and
/// the next one is added; after the last one the next action starts where
/// the config says so. Without agent or queue the action is dropped as
/// skipped and the rest of the batch is given up.
pub open spec fn enqueue_batch_step(
    op: OperationView,
    s: AgentView,
    config: AddConfig,
    action: u64,
) -> Transition {
    if !s.exists {
        Transition {
            op: moved(op, dropped(action, None, DropReason::Skipped), Phase::Done),
            agent: s,
        }
    } else if s.queue is None {
        Transition {
            op: moved(op, dropped(action, Some(op.agent), DropReason::Skipped), Phase::Done),
            agent: s,
        }
    } else {
        let s2 = AgentView { queue: Some(pushed(s.queue->0, action, config.order)), ..s };
        if op.batch.len() > 0 {
            next_in_batch(op, s2, config)
        } else if config.start {
            start_next_action_step(op, s2)
        } else {
            finished_with(op, s2)
        }
    }
}

/// Executing actions: the next action starts where nothing runs.
pub open spec fn execute_actions_step(op: OperationView, s: AgentView) -> Transition {
    if s.exists && s.current == Some(None::<u64>) {
        start_next_action_step(op, s)
    } else {
        finished_with(op, s)
    }
}

/// Stopping the running action for `reason`: it leaves the current action
/// component and `on_stop` is called; a finished or canceled action is then
/// dropped as done, a paused one goes back to the queue.
pub open spec fn stop_current_action_step(
    op: OperationView,
    s: AgentView,
    reason: StopReason,
    then_start: bool,
) -> Transition {
    if s.exists && s.current matches Some(Some(_)) {
        let action = s.current->0->0;
        let s2 = AgentView { current: Some(None), ..s };
        let agent = Some(op.agent);
        match reason {
            StopReason::Paused => Transition {
                op: moved(
                    op,
                    seq![HookCall::OnStop { action, agent, reason }],
                    Phase::RequeuePaused { action, then_start },
                ),
                agent: s2,
            },
            _ => Transition {
                op: moved(
                    op,
                    seq![HookCall::OnStop { action, agent, reason }] + dropped(
                        action,
                        agent,
                        DropReason::Done,
                    ),
                    after_stop(then_start),
                ),
                agent: s2,
            },
        }
    } else if then_start {
        start_next_action_step(op, s)
    } else {
        finished_with(op, s)
    }
}

/// `on_stop` of a paused action returned: it goes to the front of the
/// queue; without agent or queue it is dropped as skipped.
pub open spec fn requeue_paused_step(
    op: OperationView,
    s: AgentView,
    action: u64,
    then_start: bool,
) -> Transition {
    if !s.exists {
        Transition {
            op: moved(op, dropped(action, None, DropReason::Skipped), after_stop(then_start)),
            agent: s,
        }
    } else if s.queue is None {
        Transition {
            op: moved(
                op,
                dropped(action, Some(op.agent), DropReason::Skipped),
                after_stop(then_start),
            ),
            agent: s,
        }
    } else {
        let s2 = AgentView { queue: Some(seq![action] + s.queue->0), ..s };
        if then_start {
            start_next_action_step(op, s2)
        } else {
            finished_with(op, s2)
        }
    }
}

/// Skipping the next action: the front action leaves the queue and is
/// dropped as skipped.
pub open spec fn skip_next_action_step(op: OperationView, s: AgentView) -> Transition {
    if s.exists && s.queue is Some && s.queue->0.len() > 0 {
        let q = s.queue->0;
        Transition {
            op: moved(op, dropped(q[0], Some(op.agent), DropReason::Skipped), Phase::Done),
            agent: AgentView { queue: Some(q.drop_first()), ..s },
        }
    } else {
        finished_with(op, s)
    }
}

/// Clearing the queue: every queued action leaves it and is dropped as
/// cleared, front first.
pub open spec fn clear_queue_step(op: OperationView, s: AgentView) -> Transition {
    if s.exists && s.queue is Some && s.queue->0.len() > 0 {
        let q = s.queue->0;
        Transition {
            op: moved(op, cleared(q, Some(op.agent)), Phase::Done),
            agent: AgentView { queue: Some(Seq::<u64>::empty()), ..s },
        }
    } else {
        finished_with(op, s)
    }
}

/// Clearing actions: the running action is stopped as canceled and dropped
/// as cleared, then the queue is cleared. Nothing happens for an agent that
/// does not exist; for one without the current action component only the
/// queue is cleared.
pub open spec fn clear_actions_step(op: OperationView, s: AgentView) -> Transition {
    if !s.exists {
        finished_with(op, s)
    } else if s.current is None {
        clear_queue_step(op, s)
    } else if s.current->0 is Some {
        let action = s.current->0->0;
        let agent = Some(op.agent);
        Transition {
            op: moved(
                op,
                seq![HookCall::OnStop { action, agent, reason: StopReason::Canceled }] + dropped(
                    action,
                    agent,
                    DropReason::Cleared,
                ),
                Phase::ClearQueue,
            ),
            agent: AgentView { current: Some(None), ..s },
        }
    } else {
        clear_queue_step(op, s)
    }
}

/// What the operation does in its current phase, the agent being `s` and
/// the last `on_start` having answered `finished`.
pub open spec fn advance_step(op: OperationView, s: AgentView, finished: bool) -> Transition {
    match op.phase {
        Phase::AddAction { config, action } => add_action_step(op, s, config, action),
        Phase::EnqueueAction { config, action } => enqueue_action_step(op, s, config, action),
        Phase::AddActions { config } => add_actions_step(op, s, config),
        Phase::EnqueueBatch { config, action } => enqueue_batch_step(op, s, config, action),
        Phase::ExecuteActions => execute_actions_step(op, s),
        Phase::StopCurrentAction { reason, then_start } => stop_current_action_step(
            op,
            s,
            reason,
            then_start,
        ),
        Phase::RequeuePaused { action, then_start } => requeue_paused_step(
            op,
            s,
            action,
            then_start,
        ),
        Phase::StartNextAction => start_next_action_step(op, s),
        Phase::AwaitStart { action } => await_start_step(op, s, action, finished),
        Phase::SkipNextAction => skip_next_action_step(op, s),
        Phase::ClearActions => clear_actions_step(op, s),
        Phase::ClearQueue => clear_queue_step(op, s),
        Phase::LoopLimit => Transition { op, agent: s },
        Phase::Done => Transition { op, agent: s },
    }
}

/// The request of an operation that asks for no more calls.
pub open spec fn closing_request(phase: Phase) -> Request {
    match phase {
        Phase::LoopLimit => Request::LoopLimit,
        _ => Request::Done,
    }
}

/// One resumption: where no call is pending the operation advances; then
/// the first pending call is handed out, or the operation reports that it
/// is complete.
pub open spec fn resume_step(op: OperationView, s: AgentView, finished: bool) -> (
    Transition,
    Request,
) {
    let t = if op.pending.len() == 0 {
        advance_step(op, s, finished)
    } else {
        Transition { op, agent: s }
    };
    if t.op.pending.len() > 0 {
        (
            Transition { op: OperationView { pending: t.op.pending.drop_first(), ..t.op }, agent: t.agent },
            Request::Call(t.op.pending[0]),
        )
    } else {
        (t, closing_request(t.op.phase))
    }
}

/// An operation on `agent` in `phase`, with nothing pending.
pub open spec fn fresh(agent: u64, phase: Phase, batch: Seq<u64>) -> OperationView {
    OperationView { agent, phase, pending: seq![], batch, counter: 0 }
}

impl Operation {
    fn begin(agent: u64, phase: Phase) -> (op: Self)
        ensures
            op@ == fresh(agent, phase, seq![]),
    {
        Operation { agent, phase, pending: VecDeque::new(), batch: VecDeque::new(), counter: 0 }
    }

    /// The agent that the operation is for.
    pub fn agent(&self) -> (agent: u64)
        ensures
            agent == self@.agent,
    {
        self.agent
    }

    /// Whether the operation is complete and asks for nothing more.
    pub fn is_done(&self) -> (b: bool)
        ensures
            b == (self@.pending.len() == 0 && (self@.phase is Done || self@.phase is LoopLimit)),
    {
        self.pending.len() == 0 && match self.phase {
            Phase::Done | Phase::LoopLimit => true,
            _ => false,
        }
    }

    fn ask(&mut self, call: HookCall)
        ensures
            final(self)@ == (OperationView { pending: old(self)@.pending.push(call), ..old(self)@ }),
    {
        self.pending.push_back(call);
    }

    fn ask_dropped(&mut self, action: u64, agent: Option<u64>, reason: DropReason)
        ensures
            final(self)@ == (OperationView {
                pending: old(self)@.pending + dropped(action, agent, reason),
                ..old(self)@
            }),
    {
        self.ask(HookCall::OnRemove { action, agent });
        self.ask(HookCall::OnDrop { action, agent, reason });
        assert(self.pending@ =~= old(self)@.pending + dropped(action, agent, reason));
    }

    fn finish(&mut self, state: &AgentState)
        requires
            old(self)@.pending.len() == 0,
        ensures
            (Transition { op: final(self)@, agent: state@ }) == finished_with(old(self)@, state@),
    {
        self.phase = Phase::Done;
        assert(self.pending@ =~= Seq::<HookCall>::empty());
    }

    fn start_next_action(&mut self, state: &mut AgentState)
        requires
            old(self)@.pending.len() == 0,
        ensures
            (Transition { op: final(self)@, agent: final(state)@ }) == start_next_action_step(
                old(self)@,
                old(state)@,
            ),
    {
        let ready = state.exists && state.is_idle() && match state.queue_len() {
            Some(n) => n > 0,
            None => false,
        };
        if ready {
            let action = state.pop_front();
            self.ask(HookCall::OnStart { action, agent: self.agent });
            self.phase = Phase::AwaitStart { action };
            assert(self.pending@ =~= seq![HookCall::OnStart { action, agent: self.agent }]);
        } else {
            self.finish(state);
        }
    }

    fn await_start(&mut self, state: &mut AgentState, action: u64, finished: bool)
        requires
            old(self)@.pending.len() == 0,
        ensures
            (Transition { op: final(self)@, agent: final(state)@ }) == await_start_step(
                old(self)@,
                old(state)@,
                action,
                finished,
            ),
    {
        if !finished {
            if state.exists && state.has_current() {
                state.set_current(action);
                self.finish(state);
            } else {
                self.ask(HookCall::OnStop { action, agent: None, reason: StopReason::Canceled });
                self.ask_dropped(action, None, DropReason::Done);
                self.phase = Phase::Done;
                assert(self.pending@ =~= seq![
                    HookCall::OnStop { action, agent: None, reason: StopReason::Canceled },
                ] + dropped(action, None, DropReason::Done));
            }
        } else {
            let agent = if state.exists {
                Some(self.agent)
            } else {
                None
            };
            self.ask(HookCall::OnStop { action, agent, reason: StopReason::Finished });
            self.ask_dropped(action, agent, DropReason::Done);
            assert(self.pending@ =~= seq![
                HookCall::OnStop { action, agent, reason: StopReason::Finished },
            ] + dropped(action, agent, DropReason::Done));
            if !state.exists {
                self.phase = Phase::Done;
            } else if self.counter >= u16::MAX - 1 {
                self.phase = Phase::LoopLimit;
            } else {
                self.counter = self.counter + 1;
                self.phase = Phase::StartNextAction;
            }
        }
    }

    fn add_action(&mut self, state: &mut AgentState, config: AddConfig, action: u64)
        requires
            old(self)@.pending.len() == 0,
        ensures
            (Transition { op: final(self)@, agent: final(state)@ }) == add_action_step(
                old(self)@,
                old(state)@,
                config,
                action,
            ),
    {
        if !state.exists {
            let ghost before = self.batch@;
            self.batch.push_front(action);
            assert(self.batch@ =~= seq![action] + before);
            self.finish(state);
        } else {
            self.ask(HookCall::OnAdd { action, agent: self.agent });
            self.phase = Phase::EnqueueAction { config, action };
            assert(self.pending@ =~= seq![HookCall::OnAdd { action, agent: self.agent }]);
        }
    }

    fn enqueue_action(&mut self, state: &mut AgentState, config: AddConfig, action: u64)
        requires
            old(self)@.pending.len() == 0,
        ensures
            (Transition { op: final(self)@, agent: final(state)@ }) == enqueue_action_step(
                old(self)@,
                old(state)@,
                config,
                action,
            ),
    {
        if !state.exists {
            self.ask_dropped(action, None, DropReason::Skipped);
            self.phase = Phase::Done;
            assert(self.pending@ =~= dropped(action, None, DropReason::Skipped));
        } else if !state.has_queue() {
            self.ask_dropped(action, Some(self.agent), DropReason::Skipped);
            self.phase = Phase::Done;
            assert(self.pending@ =~= dropped(action, Some(self.agent), DropReason::Skipped));
        } else {
            state.push(action, config.order);
            if config.start {
                self.start_next_action(state);
            } else {
                self.finish(state);
            }
        }
    }

    fn next_in_batch(&mut self, state: &AgentState, config: AddConfig)
        requires
            old(self)@.pending.len() == 0,
            old(self)@.batch.len() > 0,
        ensures
            (Transition { op: final(self)@, agent: state@ }) == next_in_batch(
                old(self)@,
                state@,
                config,
            ),
    {
        let action = match config.order {
            AddOrder::Back => self.batch.pop_front().unwrap(),
            AddOrder::Front => self.batch.pop_back().unwrap(),
        };
        proof {
            let b = old(self)@.batch;
            assert(b.subrange(1, b.len() as int) =~= b.drop_first());
            assert(b.subrange(0, b.len() - 1) =~= b.drop_last());
        }
        self.ask(HookCall::OnAdd { action, agent: self.agent });
        self.phase = Phase::EnqueueBatch { config, action };
        assert(self.pending@ =~= seq![HookCall::OnAdd { action, agent: self.agent }]);
    }

    fn take_batch(&mut self) -> (actions: Vec<u64>)
        ensures
            actions@ == old(self)@.batch,
            final(self)@ == (OperationView { batch: seq![], ..old(self)@ }),
    {
        let actions = drain_front(&mut self.batch);
        assert(self.batch@ =~= Seq::<u64>::empty());
        actions
    }

    fn add_actions(&mut self, state: &mut AgentState, config: AddConfig)
        requires
            old(self)@.pending.len() == 0,
        ensures
            (Transition { op: final(self)@, agent: final(state)@ }) == add_actions_step(
                old(self)@,
                old(state)@,
                config,
            ),
    {
        if self.batch.len() == 0 || !state.exists {
            self.finish(state);
        } else if !state.has_queue() {
            let actions = self.take_batch();
            push_dropped_each(&mut self.pending, &actions, Some(self.agent), DropReason::Skipped);
            self.phase = Phase::Done;
            assert(self.pending@ =~= dropped_each(actions@, Some(self.agent), DropReason::Skipped));
        } else {
            self.next_in_batch(state, config);
        }
    }

    fn enqueue_batch(&mut self, state: &mut AgentState, config: AddConfig, action: u64)
        requires
            old(self)@.pending.len() == 0,
        ensures
            (Transition { op: final(self)@, agent: final(state)@ }) == enqueue_batch_step(
                old(self)@,
                old(state)@,
                config,
                action,
            ),
    {
        if !state.exists {
            self.ask_dropped(action, None, DropReason::Skipped);
            self.phase = Phase::Done;
            assert(self.pending@ =~= dropped(action, None, DropReason::Skipped));
        } else if !state.has_queue() {
            self.ask_dropped(action, Some(self.agent), DropReason::Skipped);
            self.phase = Phase::Done;
            assert(self.pending@ =~= dropped(action, Some(self.agent), DropReason::Skipped));
        } else {
            state.push(action, config.order);
            if self.batch.len() > 0 {
                self.next_in_batch(state, config);
            } else if config.start {
                self.start_next_action(state);
            } else {
                self.finish(state);
            }
        }
    }

    fn execute_actions(&mut self, state: &mut AgentState)
        requires
            old(self)@.pending.len() == 0,
        ensures
            (Transition { op: final(self)@, agent: final(state)@ }) == execute_actions_step(
                old(self)@,
                old(state)@,
            ),
    {
        if state.exists && state.is_idle() {
            self.start_next_action(state);
        } else {
            self.finish(state);
        }
    }

    fn stop_current_action(
        &mut self,
        state: &mut AgentState,
        reason: StopReason,
        then_start: bool,
    )
        requires
            old(self)@.pending.len() == 0,
        ensures
            (Transition { op: final(self)@, agent: final(state)@ })
                == stop_current_action_step(old(self)@, old(state)@, reason, then_start),
    {
        let running = if state.exists {
            state.take_current()
        } else {
            None
        };
        match running {
            Some(action) => {
                let agent = Some(self.agent);
                self.ask(HookCall::OnStop { action, agent, reason });
                match reason {
                    StopReason::Paused => {
                        self.phase = Phase::RequeuePaused { action, then_start };
                        assert(self.pending@ =~= seq![HookCall::OnStop { action, agent, reason }]);
                    },
                    _ => {
                        self.ask_dropped(action, agent, DropReason::Done);
                        self.phase = if then_start {
                            Phase::StartNextAction
                        } else {
                            Phase::Done
                        };
                        assert(self.pending@ =~= seq![HookCall::OnStop { action, agent, reason }]
                            + dropped(action, agent, DropReason::Done));
                    },
                }
            },
            None => {
                if then_start {
                    self.start_next_action(state);
                } else {
                    self.finish(state);
                }
            },
        }
    }

    fn requeue_paused(&mut self, state: &mut AgentState, action: u64, then_start: bool)
        requires
            old(self)@.pending.len() == 0,
        ensures
            (Transition { op: final(self)@, agent: final(state)@ }) == requeue_paused_step(
                old(self)@,
                old(state)@,
                action,
                then_start,
            ),
    {
        let next = if then_start {
            Phase::StartNextAction
        } else {
            Phase::Done
        };
        if !state.exists {
            self.ask_dropped(action, None, DropReason::Skipped);
            self.phase = next;
            assert(self.pending@ =~= dropped(action, None, DropReason::Skipped));
        } else if !state.has_queue() {
            self.ask_dropped(action, Some(self.agent), DropReason::Skipped);
            self.phase = next;
            assert(self.pending@ =~= dropped(action, Some(self.agent), DropReason::Skipped));
        } else {
            state.push(action, AddOrder::Front);
            if then_start {
                self.start_next_action(state);
            } else {
                self.finish(state);
            }
        }
    }

    fn skip_next_action(&mut self, state: &mut AgentState)
        requires
            old(self)@.pending.len() == 0,
        ensures
            (Transition { op: final(self)@, agent: final(state)@ }) == skip_next_action_step(
                old(self)@,
                old(state)@,
            ),
    {
        let has_next = state.exists && match state.queue_len() {
            Some(n) => n > 0,
            None => false,
        };
        if has_next {
            let action = state.pop_front();
            self.ask_dropped(action, Some(self.agent), DropReason::Skipped);
            self.phase = Phase::Done;
            assert(self.pending@ =~= dropped(action, Some(self.agent), DropReason::Skipped));
        } else {
            self.finish(state);
        }
    }

    fn clear_queue(&mut self, state: &mut AgentState)
        requires
            old(self)@.pending.len() == 0,
        ensures
            (Transition { op: final(self)@, agent: final(state)@ }) == clear_queue_step(
                old(self)@,
                old(state)@,
            ),
    {
        let has_any = state.exists && match state.queue_len() {
            Some(n) => n > 0,
            None => false,
        };
        if has_any {
            let actions = state.take_queue();
            push_dropped_each(&mut self.pending, &actions, Some(self.agent), DropReason::Cleared);
            self.phase = Phase::Done;
            assert(self.pending@ =~= cleared(actions@, Some(self.agent)));
        } else {
            self.finish(state);
        }
    }

    fn clear_actions(&mut self, state: &mut AgentState)
        requires
            old(self)@.pending.len() == 0,
        ensures
            (Transition { op: final(self)@, agent: final(state)@ }) == clear_actions_step(
                old(self)@,
                old(state)@,
            ),
    {
        if !state.exists {
            self.finish(state);
        } else if !state.has_current() {
            self.clear_queue(state);
        } else {
            match state.take_current() {
                Some(action) => {
                    let agent = Some(self.agent);
                    self.ask(HookCall::OnStop { action, agent, reason: StopReason::Canceled });
                    self.ask_dropped(action, agent, DropReason::Cleared);
                    self.phase = Phase::ClearQueue;
                    assert(self.pending@ =~= seq![
                        HookCall::OnStop { action, agent, reason: StopReason::Canceled },
                    ] + dropped(action, agent, DropReason::Cleared));
                },
                None => {
                    self.clear_queue(state);
                },
            }
        }
    }

    fn advance(&mut self, state: &mut AgentState, finished: bool)
        requires
            old(self)@.pending.len() == 0,
        ensures
            (Transition { op: final(self)@, agent: final(state)@ }) == advance_step(
                old(self)@,
                old(state)@,
                finished,
            ),
    {
        match self.phase {
            Phase::AddAction { config, action } => self.add_action(state, config, action),
            Phase::EnqueueAction { config, action } => self.enqueue_action(state, config, action),
            Phase::AddActions { config } => self.add_actions(state, config),
            Phase::EnqueueBatch { config, action } => self.enqueue_batch(state, config, action),
            Phase::ExecuteActions => self.execute_actions(state),
            Phase::StopCurrentAction { reason, then_start } => self.stop_current_action(
                state,
                reason,
                then_start,
            ),
            Phase::RequeuePaused { action, then_start } => self.requeue_paused(
                state,
                action,
                then_start,
            ),
            Phase::StartNextAction => self.start_next_action(state),
            Phase::AwaitStart { action } => self.await_start(state, action, finished),
            Phase::SkipNextAction => self.skip_next_action(state),
            Phase::ClearActions => self.clear_actions(state),
            Phase::ClearQueue => self.clear_queue(state),
            Phase::LoopLimit => {},
            Phase::Done => {},
        }
    }

    /// The actions that the operation still holds: the one it is adding,
    /// starting or putting back, then the rest of its batch. Once the
    /// operation is complete, these are the actions that it was given and
    /// neither handed to the agent nor dropped.
    pub fn left_over(&self) -> (ids: Vec<u64>)
        ensures
            ids@ == carried(self@),
    {
        let mut ids: Vec<u64> = Vec::new();
        match self.phase {
            Phase::AddAction { action, .. } => ids.push(action),
            Phase::EnqueueAction { action, .. } => ids.push(action),
            Phase::EnqueueBatch { action, .. } => ids.push(action),
            Phase::RequeuePaused { action, .. } => ids.push(action),
            Phase::AwaitStart { action } => ids.push(action),
            _ => {},
        }
        let ghost head = ids@;
        let mut i: usize = 0;
        while i < self.batch.len()
            invariant
                i <= self.batch@.len(),
                ids@ == head + self.batch@.take(i as int),
            decreases self.batch@.len() - i,
        {
            ids.push(self.batch[i]);
            i += 1;
            assert(self.batch@.take(i as int) =~= self.batch@.take(i - 1).push(self.batch@[i - 1]));
            assert(ids@ =~= head + self.batch@.take(i as int));
        }
        assert(self.batch@.take(self.batch@.len() as int) =~= self.batch@);
        ids
    }

    /// Resumes the operation with the agent as it is now.
    ///
    /// `finished` is the answer of the last `on_start` call that the
    /// operation asked for; it is read only right after such a call.
    /// Where a call is returned, the driver makes it, writes nothing into
    /// the agent's components but what `state` now holds, and resumes
    /// again; [`Request::Done`] and [`Request::LoopLimit`] end the operation.
    pub fn resume(&mut self, state: &mut AgentState, finished: bool) -> (request: Request)
        ensures
            final(self)@ == resume_step(old(self)@, old(state)@, finished).0.op,
            final(state)@ == resume_step(old(self)@, old(state)@, finished).0.agent,
            request == resume_step(old(self)@, old(state)@, finished).1,
    {
        if self.pending.len() == 0 {
            self.advance(state, finished);
        }
        let ghost mid = self@;
        match self.pending.pop_front() {
            Some(call) => {
                assert(mid.pending.subrange(1, mid.pending.len() as int) =~= mid.pending.drop_first());
                Request::Call(call)
            },
            None => match self.phase {
                Phase::LoopLimit => Request::LoopLimit,
                _ => Request::Done,
            },
        }
    }
}


/// The actions that are running, of `agents` (pairs of an agent and its
/// running action, if any), in the same order.
pub open spec fn running(agents: Seq<(u64, Option<u64>)>) -> Seq<(u64, u64)>
    decreases agents.len(),
{
    if agents.len() == 0 {
        seq![]
    } else {
        let rest = running(agents.drop_last());
        match agents.last().1 {
            Some(action) => rest.push((agents.last().0, action)),
            None => rest,
        }
    }
}

/// Operations that stop as finished the actions of `asked` for which
/// `answers` holds, each followed by starting the next action, in order.
pub open spec fn finishing(asked: Seq<(u64, u64)>, answers: Seq<bool>) -> Seq<OperationView>
    decreases asked.len(),
{
    if asked.len() == 0 || answers.len() == 0 {
        seq![]
    } else {
        let rest = finishing(asked.drop_last(), answers.drop_last());
        if answers.last() {
            rest.push(
                fresh(
                    asked.last().0,
                    Phase::StopCurrentAction { reason: StopReason::Finished, then_start: true },
                    seq![],
                ),
            )
        } else {
            rest
        }
    }
}

/// The operations on the actions of agents, and the check that advances
/// the queues of agents whose running action is finished.
pub struct SequentialActionsPlugin;

impl SequentialActionsPlugin {
    /// The first half of the check for finished actions: of `agents` (pairs
    /// of an agent and its running action, if any), the pairs of agent and
    /// running action whose `is_finished` must be asked, in order.
    pub fn check_actions(agents: &Vec<(u64, Option<u64>)>) -> (asked: Vec<(u64, u64)>)
        ensures
            asked@ == running(agents@),
    {
        let mut asked: Vec<(u64, u64)> = Vec::new();
        let n = agents.len();
        let mut i: usize = 0;
        while i < n
            invariant
                n == agents@.len(),
                i <= n,
                asked@ == running(agents@.take(i as int)),
            decreases n - i,
        {
            let (agent, current) = agents[i];
            proof {
                assert(agents@.take(i + 1).drop_last() =~= agents@.take(i as int));
                assert(agents@.take(i + 1).last() == agents@[i as int]);
            }
            match current {
                Some(action) => asked.push((agent, action)),
                None => {},
            }
            i = i + 1;
        }
        assert(agents@.take(n as int) =~= agents@);
        asked
    }

    /// The second half of the check for finished actions: for each pair of
    /// `asked` whose `is_finished` answered `true` (in `answers`, in the
    /// same order), the operation that stops the running action as finished
    /// and then starts the next action.
    pub fn finish_actions(asked: &Vec<(u64, u64)>, answers: &Vec<bool>) -> (ops: Vec<Operation>)
        requires
            answers@.len() == asked@.len(),
        ensures
            ops@.map_values(|o: Operation| o@) == finishing(asked@, answers@),
            ops@.len() == crate::laws::trues(answers@),
            forall|i: int|
                0 <= i < answers@.len() && #[trigger] answers@[i] ==> crate::laws::trues(answers@.take(i))
                    < ops@.len() && ops@[crate::laws::trues(answers@.take(i)) as int]@ == fresh(
                    asked@[i].0,
                    Phase::StopCurrentAction { reason: StopReason::Finished, then_start: true },
                    seq![],
                ),
    {
        proof {
            crate::laws::lemma_finishing(asked@, answers@);
        }
        let mut ops: Vec<Operation> = Vec::new();
        let n = asked.len();
        let mut i: usize = 0;
        while i < n
            invariant
                n == asked@.len(),
                n == answers@.len(),
                i <= n,
                ops@.map_values(|o: Operation| o@) == finishing(
                    asked@.take(i as int),
                    answers@.take(i as int),
                ),
            decreases n - i,
        {
            proof {
                assert(asked@.take(i + 1).drop_last() =~= asked@.take(i as int));
                assert(answers@.take(i + 1).drop_last() =~= answers@.take(i as int));
                assert(asked@.take(i + 1).last() == asked@[i as int]);
                assert(answers@.take(i + 1).last() == answers@[i as int]);
            }
            if answers[i] {
                let (agent, _action) = asked[i];
                let op = Self::stop_then_start(agent, StopReason::Finished);
                let ghost before = ops@;
                ops.push(op);
                assert(ops@.map_values(|o: Operation| o@) =~= before.map_values(
                    |o: Operation| o@,
                ).push(op@));
            }
            i = i + 1;
        }
        assert(asked@.take(n as int) =~= asked@);
        assert(answers@.take(n as int) =~= answers@);
        let ghost views = ops@.map_values(|o: Operation| o@);
        assert(views.len() == ops@.len());
        assert forall|i: int| 0 <= i < ops@.len() implies #[trigger] ops@[i]@ == views[i] by {}
        assert forall|i: int|
            0 <= i < answers@.len() && #[trigger] answers@[i] implies crate::laws::trues(answers@.take(i))
                < ops@.len() && ops@[crate::laws::trues(answers@.take(i)) as int]@ == fresh(
                asked@[i].0,
                Phase::StopCurrentAction { reason: StopReason::Finished, then_start: true },
                seq![],
            ) by {
            let k = crate::laws::trues(answers@.take(i)) as int;
            assert(ops@[k]@ == views[k]);
        }
        ops
    }

    /// Adds a single action to `agent` with specified `config`.
    pub fn add_action(agent: u64, config: AddConfig, action: u64) -> (op: Operation)
        ensures
            op@ == fresh(agent, Phase::AddAction { config, action }, seq![]),
    {
        Operation::begin(agent, Phase::AddAction { config, action })
    }

    /// Adds a collection of actions to `agent` with specified `config`, in
    /// their order. An empty collection does nothing.
    pub fn add_actions(agent: u64, config: AddConfig, actions: Vec<u64>) -> (op: Operation)
        ensures
            op@ == fresh(agent, Phase::AddActions { config }, actions@),
    {
        let mut batch: VecDeque<u64> = VecDeque::new();
        let n = actions.len();
        let mut i: usize = 0;
        while i < n
            invariant
                n == actions@.len(),
                i <= n,
                batch@ == actions@.take(i as int),
            decreases n - i,
        {
            batch.push_back(actions[i]);
            assert(batch@ =~= actions@.take(i + 1));
            i = i + 1;
        }
        assert(actions@.take(n as int) =~= actions@);
        Operation {
            agent,
            phase: Phase::AddActions { config },
            pending: VecDeque::new(),
            batch,
            counter: 0,
        }
    }

    /// Starts the next action in the queue of `agent`, but only if there is
    /// no current action.
    pub fn execute_actions(agent: u64) -> (op: Operation)
        ensures
            op@ == fresh(agent, Phase::ExecuteActions, seq![]),
    {
        Operation::begin(agent, Phase::ExecuteActions)
    }

    /// Stops the current action of `agent` with specified `reason`.
    pub fn stop_current_action(agent: u64, reason: StopReason) -> (op: Operation)
        ensures
            op@ == fresh(agent, Phase::StopCurrentAction { reason, then_start: false }, seq![]),
    {
        Operation::begin(agent, Phase::StopCurrentAction { reason, then_start: false })
    }

    /// Stops the current action of `agent` with specified `reason`, then
    /// starts the next action in the queue.
    pub fn stop_then_start(agent: u64, reason: StopReason) -> (op: Operation)
        ensures
            op@ == fresh(agent, Phase::StopCurrentAction { reason, then_start: true }, seq![]),
    {
        Operation::begin(agent, Phase::StopCurrentAction { reason, then_start: true })
    }

    /// Starts the next action in the queue of `agent`.
    ///
    /// This goes on until a started action is not immediately finished or
    /// the queue is empty, and stops where `agent` already has a current
    /// action.
    pub fn start_next_action(agent: u64) -> (op: Operation)
        ensures
            op@ == fresh(agent, Phase::StartNextAction, seq![]),
    {
        Operation::begin(agent, Phase::StartNextAction)
    }

    /// Skips the next action in the queue of `agent`.
    pub fn skip_next_action(agent: u64) -> (op: Operation)
        ensures
            op@ == fresh(agent, Phase::SkipNextAction, seq![]),
    {
        Operation::begin(agent, Phase::SkipNextAction)
    }

    /// Clears the action queue of `agent`; the current action is stopped as
    /// canceled.
    pub fn clear_actions(agent: u64) -> (op: Operation)
        ensures
            op@ == fresh(agent, Phase::ClearActions, seq![]),
    {
        Operation::begin(agent, Phase::ClearActions)
    }
}

} // verus!
