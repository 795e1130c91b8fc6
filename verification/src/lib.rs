//! A library that executes a queue of actions in a sequential manner for an
//! `agent`: one action runs at a time, and when it is done the next action in
//! the queue starts, until the queue is empty.
//!
//! The queue logic is verified. Actions are referred to by `u64` ids and
//! agents by `u64` entity bits; the code that owns the action objects and
//! calls their lifecycle methods drives an [`Operation`] step by step.

mod agent;
mod commands;
mod components;
mod hooks;
mod laws;
mod lifecycle;
mod once;
mod plugin;

pub use agent::{AgentState, AgentView};
pub use commands::{ActionCommands, AgentActions, AgentCommands};
pub use components::{
    pushed, ActionQueue, ActionsBundle, AddConfig, AddOrder, CurrentAction, DropReason, StopReason,
};
pub use hooks::{cleared, dropped, dropped_each, HookCall};
pub use laws::{
    added, adding_order, answer, cleared_current, count_running, ending, finish_budget,
    finished_all, finished_at_once, lemma_add_action, lemma_add_action_then_execute,
    lemma_add_action_without_queue, lemma_add_actions, lemma_add_actions_then_execute,
    lemma_add_actions_without_queue, lemma_add_nothing, lemma_add_one_as_collection,
    lemma_add_to_missing_agent, lemma_cancel, lemma_check_asks_each_running_once, lemma_clear,
    lemma_dropped_each_len, lemma_execute_twice, lemma_execute_unless_idle,
    lemma_execute_when_idle, lemma_finished_at_most_all, lemma_pause_then_execute, lemma_run_done,
    lemma_run_pending, lemma_skip, lemma_start_from_rests, lemma_start_next,
    lemma_start_next_limit, lemma_start_next_outcome, lemma_stop_then_start,
    lemma_finishing, lemma_pause_without_queue, lemma_stop_only, lemma_stop_when_idle, lemma_stop_when_idle_then_start, trues, queue_with, run,
    running_in, settled, start_from, start_outcome, Outcome, Run, Started,
};
pub use lifecycle::{
    added_by, adds, adds_carried, apart, carried, distinct_ids, dropped_by, drops, drops_released,
    holds, keeps, lemma_advance_keeps, lemma_resume_keeps,
};
pub use once::{
    added_in, added_once, adds_ahead, lemma_run_adds_once, lemma_run_takes_out_once, owned, taken,
    taken_in, taken_once, to_add,
};
pub use plugin::{
    add_action_step, add_actions_step, advance_step, after_stop, await_start_step, batch_next,
    batch_rest, can_start, clear_actions_step, clear_queue_step, closing_request, enqueue_action_step,
    enqueue_batch_step, execute_actions_step, finished_with, finishing, fresh, moved,
    next_in_batch, requeue_paused_step, resume_step, running, skip_next_action_step,
    start_next_action_step, stop_current_action_step, Operation, OperationView, Phase, Request,
    SequentialActionsPlugin, Transition,
};
