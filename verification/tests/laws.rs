use bevy_sequential_actions::{
    ActionCommands, ActionQueue, ActionsBundle, AddConfig, AddOrder, AgentActions, AgentCommands,
    AgentState, CurrentAction, DropReason, HookCall, Operation, Request, SequentialActionsPlugin,
    StopReason,
};

/// Drives `op` on `state` where the lifecycle calls leave the components
/// alone and `on_start` of action `a` answers `started(a)`.
fn run_quiet(
    mut op: Operation,
    state: &mut AgentState,
    started: impl Fn(u64) -> bool,
) -> (Vec<HookCall>, Request) {
    let mut calls = Vec::new();
    let mut finished = false;
    loop {
        match op.resume(state, finished) {
            Request::Call(call) => {
                finished = match call {
                    HookCall::OnStart { action, .. } => started(action),
                    _ => false,
                };
                calls.push(call);
            }
            other => return (calls, other),
        }
    }
}

fn queue_of(actions: &[u64]) -> ActionQueue {
    let mut q = ActionQueue::new();
    for a in actions {
        q.push_back(*a);
    }
    q
}

fn contents(state: &AgentState) -> (Option<u64>, Vec<u64>) {
    let current = state.current.as_ref().unwrap().get();
    let q = state.queue.as_ref().unwrap();
    let items = (0..q.len()).map(|i| q.get(i).unwrap()).collect();
    (current, items)
}

fn agent_with(current: Option<u64>, queue: &[u64]) -> AgentState {
    let c = match current {
        Some(a) => CurrentAction::holding(a),
        None => CurrentAction::none(),
    };
    AgentState::with_components(Some(c), Some(queue_of(queue)))
}

const A: u64 = 7;

fn stop(action: u64, agent: Option<u64>, reason: StopReason) -> HookCall {
    HookCall::OnStop { action, agent, reason }
}

fn remove(action: u64, agent: Option<u64>) -> HookCall {
    HookCall::OnRemove { action, agent }
}

fn drop_call(action: u64, agent: Option<u64>, reason: DropReason) -> HookCall {
    HookCall::OnDrop { action, agent, reason }
}

#[test]
fn pause_puts_action_back_in_front_and_execute_resumes_it() {
    let mut s = agent_with(Some(1), &[2, 3]);
    let (calls, end) = run_quiet(SequentialActionsPlugin::stop_current_action(A, StopReason::Paused), &mut s, |_| false);
    assert_eq!(end, Request::Done);
    assert_eq!(calls, vec![stop(1, Some(A), StopReason::Paused)]);
    assert_eq!(contents(&s), (None, vec![1, 2, 3]));

    let (calls, _) = run_quiet(AgentActions::new(A).execute(), &mut s, |_| false);
    assert_eq!(calls, vec![HookCall::OnStart { action: 1, agent: A }]);
    assert_eq!(contents(&s), (Some(1), vec![2, 3]));
}

#[test]
fn start_next_skips_over_actions_finished_at_once() {
    let mut s = agent_with(None, &[1, 2, 3, 4]);
    let (calls, end) = run_quiet(SequentialActionsPlugin::start_next_action(A), &mut s, |a| a < 3);
    assert_eq!(end, Request::Done);
    let mut expected = Vec::new();
    for a in [1, 2] {
        expected.push(HookCall::OnStart { action: a, agent: A });
        expected.push(stop(a, Some(A), StopReason::Finished));
        expected.push(remove(a, Some(A)));
        expected.push(drop_call(a, Some(A), DropReason::Done));
    }
    expected.push(HookCall::OnStart { action: 3, agent: A });
    assert_eq!(calls, expected);
    assert_eq!(contents(&s), (Some(3), vec![4]));
}

#[test]
fn start_next_empties_the_queue_when_all_finish() {
    let mut s = agent_with(None, &[1, 2]);
    let (calls, _) = run_quiet(SequentialActionsPlugin::start_next_action(A), &mut s, |_| true);
    assert_eq!(calls.len(), 8);
    assert_eq!(contents(&s), (None, vec![]));
}

#[test]
fn start_next_stops_where_an_action_runs() {
    let mut s = agent_with(Some(9), &[1]);
    let (calls, _) = run_quiet(SequentialActionsPlugin::start_next_action(A), &mut s, |_| true);
    assert!(calls.is_empty());
    assert_eq!(contents(&s), (Some(9), vec![1]));
}

#[test]
fn start_next_reports_a_loop_that_does_not_come_to_rest() {
    let ids: Vec<u64> = (0..70_000).collect();
    let mut s = agent_with(None, &ids);
    let (calls, end) = run_quiet(SequentialActionsPlugin::start_next_action(A), &mut s, |_| true);
    assert_eq!(end, Request::LoopLimit);
    assert_eq!(calls.len(), 4 * u16::MAX as usize);
}

#[test]
fn next_and_finish_stop_then_start() {
    let mut s = agent_with(Some(1), &[2, 3]);
    let (calls, _) = run_quiet(AgentActions::new(A).next(), &mut s, |_| false);
    assert_eq!(
        calls,
        vec![
            stop(1, Some(A), StopReason::Canceled),
            remove(1, Some(A)),
            drop_call(1, Some(A), DropReason::Done),
            HookCall::OnStart { action: 2, agent: A },
        ]
    );
    assert_eq!(contents(&s), (Some(2), vec![3]));

    let (calls, _) = run_quiet(SequentialActionsPlugin::stop_then_start(A, StopReason::Finished), &mut s, |_| false);
    assert_eq!(calls[0], stop(2, Some(A), StopReason::Finished));
    assert_eq!(contents(&s), (Some(3), vec![]));
}

#[test]
fn clear_empties_everything() {
    let mut s = agent_with(Some(1), &[2, 3]);
    let (calls, _) = run_quiet(AgentActions::new(A).clear(), &mut s, |_| false);
    assert_eq!(
        calls,
        vec![
            stop(1, Some(A), StopReason::Canceled),
            remove(1, Some(A)),
            drop_call(1, Some(A), DropReason::Cleared),
            remove(2, Some(A)),
            drop_call(2, Some(A), DropReason::Cleared),
            remove(3, Some(A)),
            drop_call(3, Some(A), DropReason::Cleared),
        ]
    );
    assert_eq!(contents(&s), (None, vec![]));
}

#[test]
fn skip_drops_the_front_action() {
    let mut s = agent_with(Some(1), &[2, 3]);
    let (calls, _) = run_quiet(AgentActions::new(A).skip(), &mut s, |_| false);
    assert_eq!(calls, vec![remove(2, Some(A)), drop_call(2, Some(A), DropReason::Skipped)]);
    assert_eq!(contents(&s), (Some(1), vec![3]));
}

#[test]
fn add_many_keeps_order_at_both_ends() {
    let mut s = agent_with(None, &[1]);
    let mut m = AgentActions::new(A);
    m.start(false).order(AddOrder::Front);
    let (calls, _) = run_quiet(m.add_many(vec![5, 6, 7]), &mut s, |_| false);
    assert_eq!(
        calls,
        vec![
            HookCall::OnAdd { action: 7, agent: A },
            HookCall::OnAdd { action: 6, agent: A },
            HookCall::OnAdd { action: 5, agent: A },
        ]
    );
    assert_eq!(contents(&s), (None, vec![5, 6, 7, 1]));

    m.order(AddOrder::Back);
    let (calls, _) = run_quiet(m.add_many(vec![8, 9]), &mut s, |_| false);
    assert_eq!(calls, vec![HookCall::OnAdd { action: 8, agent: A }, HookCall::OnAdd { action: 9, agent: A }]);
    assert_eq!(contents(&s), (None, vec![5, 6, 7, 1, 8, 9]));
}

#[test]
fn add_with_start_starts_when_idle() {
    let mut s = agent_with(None, &[]);
    let (calls, _) = run_quiet(AgentActions::new(A).add(4), &mut s, |_| false);
    assert_eq!(calls, vec![HookCall::OnAdd { action: 4, agent: A }, HookCall::OnStart { action: 4, agent: A }]);
    assert_eq!(contents(&s), (Some(4), vec![]));
}

#[test]
fn adding_to_a_missing_agent_does_nothing() {
    let mut s = AgentState::missing();
    let (calls, end) = run_quiet(AgentActions::new(A).add(4), &mut s, |_| false);
    assert!(calls.is_empty());
    assert_eq!(end, Request::Done);
    let (calls, _) = run_quiet(AgentActions::new(A).add_many(vec![4, 5]), &mut s, |_| false);
    assert!(calls.is_empty());
}

#[test]
fn adding_to_an_agent_without_queue_skips_the_action() {
    let mut s = AgentState::with_components(Some(CurrentAction::none()), None);
    let (calls, _) = run_quiet(AgentActions::new(A).add(4), &mut s, |_| false);
    assert_eq!(
        calls,
        vec![
            HookCall::OnAdd { action: 4, agent: A },
            remove(4, Some(A)),
            drop_call(4, Some(A), DropReason::Skipped),
        ]
    );
    let (calls, _) = run_quiet(AgentActions::new(A).add_many(vec![4, 5]), &mut s, |_| false);
    assert_eq!(
        calls,
        vec![
            remove(4, Some(A)),
            drop_call(4, Some(A), DropReason::Skipped),
            remove(5, Some(A)),
            drop_call(5, Some(A), DropReason::Skipped),
        ]
    );
    assert!(s.queue.is_none());
    assert!(s.current.as_ref().unwrap().is_none());
}

#[test]
fn clear_without_current_slot_still_clears_the_queue() {
    let mut s = AgentState::with_components(None, Some(queue_of(&[1, 2])));
    let (calls, _) = run_quiet(AgentActions::new(A).clear(), &mut s, |_| false);
    assert_eq!(
        calls,
        vec![
            remove(1, Some(A)),
            drop_call(1, Some(A), DropReason::Cleared),
            remove(2, Some(A)),
            drop_call(2, Some(A), DropReason::Cleared),
        ]
    );
    assert!(s.current.is_none());
    assert!(s.queue.as_ref().unwrap().is_empty());
}

#[test]
fn adding_with_start_is_adding_then_executing() {
    let started = |a: u64| a == 5;
    let mut with = agent_with(None, &[]);
    let mut m = AgentActions::new(A);
    m.order(AddOrder::Front);
    let (calls_with, _) = run_quiet(m.add_many(vec![5, 6]), &mut with, started);

    let mut without = agent_with(None, &[]);
    m.start(false);
    let (mut calls_without, _) = run_quiet(m.add_many(vec![5, 6]), &mut without, started);
    let (calls_then, _) = run_quiet(m.execute(), &mut without, started);
    calls_without.extend(calls_then);

    assert_eq!(calls_with, calls_without);
    assert_eq!(contents(&with), contents(&without));
    assert_eq!(contents(&with), (Some(6), vec![]));
}

#[test]
fn executing_twice_is_executing_once() {
    let mut s = agent_with(None, &[1, 2]);
    let (first, _) = run_quiet(AgentActions::new(A).execute(), &mut s, |a| a == 1);
    assert_eq!(first.len(), 5);
    let (second, _) = run_quiet(AgentActions::new(A).execute(), &mut s, |a| a == 1);
    assert!(second.is_empty());
    assert_eq!(contents(&s), (Some(2), vec![]));
}

#[test]
fn one_action_alone_or_as_collection() {
    let mut alone = agent_with(None, &[9]);
    let mut one = agent_with(None, &[9]);
    let c = AgentCommands::new(A);
    let (a, _) = run_quiet(c.add(vec![4]).unwrap(), &mut alone, |_| false);
    let (b, _) = run_quiet(AgentActions::new(A).add_many(vec![4]), &mut one, |_| false);
    assert_eq!(a, b);
    assert_eq!(contents(&alone), contents(&one));
}

#[test]
fn pausing_without_queue_skips_the_action() {
    let mut s = AgentState::with_components(Some(CurrentAction::holding(3)), None);
    let (calls, _) = run_quiet(AgentActions::new(A).pause(), &mut s, |_| false);
    assert_eq!(
        calls,
        vec![
            stop(3, Some(A), StopReason::Paused),
            remove(3, Some(A)),
            drop_call(3, Some(A), DropReason::Skipped),
        ]
    );
    assert!(s.current.as_ref().unwrap().is_none());
}

#[test]
fn started_action_without_current_slot_is_canceled() {
    let mut op = SequentialActionsPlugin::start_next_action(A);
    let mut s = agent_with(None, &[1]);
    assert_eq!(op.resume(&mut s, false), Request::Call(HookCall::OnStart { action: 1, agent: A }));
    // The current action component is gone when `on_start` returns.
    s.current = None;
    assert_eq!(op.resume(&mut s, false), Request::Call(stop(1, None, StopReason::Canceled)));
    assert_eq!(op.resume(&mut s, false), Request::Call(remove(1, None)));
    assert_eq!(op.resume(&mut s, false), Request::Call(drop_call(1, None, DropReason::Done)));
    assert_eq!(op.resume(&mut s, false), Request::Done);
    assert!(op.is_done());
}

#[test]
fn execute_while_running_does_nothing() {
    let mut s = agent_with(Some(1), &[2]);
    let (calls, _) = run_quiet(AgentActions::new(A).execute(), &mut s, |_| true);
    assert!(calls.is_empty());
    assert_eq!(contents(&s), (Some(1), vec![2]));
}

#[test]
fn removal_hooks_clean_up_without_agent() {
    let mut c = CurrentAction::holding(5);
    assert_eq!(
        c.on_remove_hook(),
        vec![stop(5, None, StopReason::Canceled), remove(5, None), drop_call(5, None, DropReason::Done)]
    );
    assert!(c.is_none());
    assert!(c.on_remove_hook().is_empty());

    let mut q = queue_of(&[1, 2]);
    assert_eq!(
        q.on_remove_hook(),
        vec![
            remove(1, None),
            drop_call(1, None, DropReason::Cleared),
            remove(2, None),
            drop_call(2, None, DropReason::Cleared),
        ]
    );
    assert!(q.is_empty());
}

#[test]
fn check_actions_asks_only_running_actions() {
    let agents = vec![(1, Some(10)), (2, None), (3, Some(30))];
    let asked = SequentialActionsPlugin::check_actions(&agents);
    assert_eq!(asked, vec![(1, 10), (3, 30)]);
    let ops = SequentialActionsPlugin::finish_actions(&asked, &vec![false, true]);
    assert_eq!(ops.len(), 1);
    assert_eq!(ops[0].agent(), 3);
    let mut s = agent_with(Some(30), &[31]);
    let mut ops = ops;
    let (calls, _) = run_quiet(ops.remove(0), &mut s, |_| false);
    assert_eq!(calls[0], stop(30, Some(A), StopReason::Finished).clone_with_agent(3));
    assert_eq!(contents(&s), (Some(31), vec![]));
}

trait WithAgent {
    fn clone_with_agent(self, agent: u64) -> Self;
}

impl WithAgent for HookCall {
    fn clone_with_agent(self, agent: u64) -> Self {
        match self {
            HookCall::OnStop { action, reason, .. } => HookCall::OnStop { action, agent: Some(agent), reason },
            other => other,
        }
    }
}

#[test]
fn agent_commands_add_by_count() {
    let commands = AgentCommands::new(A);
    assert!(commands.add(vec![]).is_none());

    let mut s = agent_with(None, &[]);
    let (calls, _) = run_quiet(commands.add(vec![4]).unwrap(), &mut s, |_| true);
    assert_eq!(calls.len(), 5);

    let mut c = AgentCommands::new(A);
    c.start(false);
    let (calls, _) = run_quiet(c.add(vec![4, 5]).unwrap(), &mut s, |_| true);
    assert_eq!(calls, vec![HookCall::OnAdd { action: 4, agent: A }, HookCall::OnAdd { action: 5, agent: A }]);
    assert_eq!(contents(&s), (None, vec![4, 5]));
}

#[test]
fn action_commands_run_in_order() {
    let mut commands = ActionCommands::new();
    commands.add(AgentActions::new(1).skip()).add(AgentActions::new(2).clear());
    assert_eq!(commands.len(), 2);
    let ops = commands.apply();
    assert_eq!(ops.iter().map(|o| o.agent()).collect::<Vec<_>>(), vec![1, 2]);
}

#[test]
fn configs_and_bundles() {
    let config = AddConfig::default();
    assert!(config.start);
    assert_eq!(config.order, AddOrder::Back);
    assert_eq!(AddOrder::default(), AddOrder::Back);
    let config = AddConfig::new(false, AddOrder::Front);
    assert_eq!((config.start, config.order), (false, AddOrder::Front));

    let mut m = AgentActions::new(A);
    m.config(config);
    assert_eq!(m.get_config(), config);
    m.start(true);
    assert_eq!(m.get_config(), AddConfig::new(true, AddOrder::Front));

    let bundle = ActionsBundle::with_capacity(8);
    assert!(bundle.current.is_none());
    assert_eq!(bundle.queue.len(), 0);
}

/// Ids held by `state`, running first.
fn held(state: &AgentState) -> Vec<u64> {
    let (current, queue) = contents(state);
    current.into_iter().chain(queue).collect()
}

#[test]
fn each_action_is_added_before_and_dropped_after_it_is_held() {
    let mut s = agent_with(Some(1), &[2, 3]);
    let mut added_ids = Vec::new();
    let mut removed = Vec::new();
    let mut dropped_ids = Vec::new();
    let mut m = AgentActions::new(A);
    m.start(true).order(AddOrder::Back);
    let ops = vec![
        SequentialActionsPlugin::stop_current_action(A, StopReason::Finished),
        m.add_many(vec![4, 5]),
        AgentActions::new(A).skip(),
        AgentActions::new(A).clear(),
    ];
    for mut op in ops {
        let mut finished = false;
        loop {
            match op.resume(&mut s, finished) {
                Request::Call(call) => {
                    let ids = held(&s);
                    let mut sorted = ids.clone();
                    sorted.sort();
                    sorted.dedup();
                    assert_eq!(sorted.len(), ids.len());
                    finished = match call {
                        HookCall::OnStart { action, .. } => action == 2,
                        HookCall::OnAdd { action, .. } => {
                            assert!(!ids.contains(&action));
                            added_ids.push(action);
                            false
                        }
                        HookCall::OnRemove { action, .. } => {
                            assert!(!ids.contains(&action));
                            removed.push(action);
                            false
                        }
                        HookCall::OnDrop { action, .. } => {
                            assert!(!ids.contains(&action));
                            dropped_ids.push(action);
                            false
                        }
                        _ => false,
                    };
                }
                _ => break,
            }
        }
    }
    assert_eq!(added_ids, vec![4, 5]);
    assert_eq!(removed, vec![1, 2, 4, 3, 5]);
    assert_eq!(dropped_ids, removed);
    assert_eq!(contents(&s), (None, vec![]));
}

#[test]
fn operation_keeps_what_it_could_not_hand_to_the_agent() {
    let mut missing = AgentState::missing();
    let mut op = AgentActions::new(A).add(4);
    assert_eq!(op.left_over(), vec![4]);
    assert_eq!(op.resume(&mut missing, false), Request::Done);
    assert_eq!(op.left_over(), vec![4]);

    let mut op = AgentActions::new(A).add_many(vec![5, 6]);
    assert_eq!(op.resume(&mut missing, false), Request::Done);
    assert_eq!(op.left_over(), vec![5, 6]);

    let mut s = agent_with(Some(1), &[]);
    let mut op = AgentActions::new(A).add_many(vec![5, 6]);
    loop {
        if let Request::Call(_) = op.resume(&mut s, false) {
            continue;
        }
        break;
    }
    assert_eq!(op.left_over(), Vec::<u64>::new());
    assert_eq!(contents(&s), (Some(1), vec![5, 6]));
}
