use std::collections::{BTreeMap, BTreeSet};

use bevy_sequential_actions::{
    ActionCommands, ActionQueue, ActionsBundle, AddConfig, AddOrder, AgentActions, AgentCommands,
    AgentState, CurrentAction, DropReason, HookCall, Operation, Request, SequentialActionsPlugin,
    StopReason,
};

type Entity = u64;

#[derive(Debug, Clone, Copy, PartialEq, Eq)]
enum Hook {
    Add(Name, Entity),
    Start(Name, Entity),
    Stop(Name, Option<Entity>, StopReason),
    Remove(Name, Option<Entity>),
    Drop(Name, Option<Entity>, DropReason),
}

#[derive(Debug, Clone, Copy, PartialEq, Eq)]
enum Name {
    Countdown,
    Countup,
    Despawn,
    GoodAdd,
    BadAdd,
}

/// The actions of the scenarios, with the state that each keeps.
#[derive(Debug, Clone)]
enum Kind {
    Countdown { count: i32, current: Option<i32> },
    Countup { count: i32, current: Option<i32> },
    Despawn(bool),
    GoodAdd,
    BadAdd,
    Marker(char),
    Answer(bool),
    Forever,
    Test,
}

fn countdown(count: i32) -> Kind {
    Kind::Countdown { count, current: None }
}

fn countup(count: i32) -> Kind {
    Kind::Countup { count, current: None }
}

#[derive(Default)]
struct Agent {
    current: Option<CurrentAction>,
    queue: Option<ActionQueue>,
    countdown: Option<i32>,
    countup: Option<i32>,
    markers: BTreeSet<char>,
}

/// A small world: agents with their components, the actions by id, and a
/// log of the lifecycle calls.
#[derive(Default)]
struct TestApp {
    agents: BTreeMap<Entity, Agent>,
    actions: BTreeMap<u64, Kind>,
    marks: BTreeMap<u64, BTreeSet<&'static str>>,
    hooks: Vec<Hook>,
    next_entity: u64,
    next_action: u64,
}

impl TestApp {
    fn new() -> Self {
        TestApp { next_entity: 1, next_action: 1, ..Default::default() }
    }

    fn spawn_agent(&mut self) -> Entity {
        let e = self.next_entity;
        self.next_entity += 1;
        let bundle = ActionsBundle::new();
        self.agents.insert(
            e,
            Agent { current: Some(bundle.current), queue: Some(bundle.queue), ..Default::default() },
        );
        e
    }

    fn register(&mut self, kind: Kind) -> u64 {
        let id = self.next_action;
        self.next_action += 1;
        self.actions.insert(id, kind);
        id
    }

    fn take_state(&mut self, agent: Entity) -> AgentState {
        match self.agents.get_mut(&agent) {
            Some(a) => AgentState::with_components(a.current.take(), a.queue.take()),
            None => AgentState::missing(),
        }
    }

    fn put_state(&mut self, agent: Entity, state: AgentState) {
        if let Some(a) = self.agents.get_mut(&agent) {
            a.current = state.current;
            a.queue = state.queue;
        }
    }

    fn drive(&mut self, mut op: Operation) {
        let agent = op.agent();
        let mut finished = false;
        loop {
            let mut state = self.take_state(agent);
            let request = op.resume(&mut state, finished);
            self.put_state(agent, state);
            match request {
                Request::Call(call) => finished = self.call(call),
                Request::Done => break,
                Request::LoopLimit => panic!("infinite loop detected in starting next action"),
            }
        }
        assert!(op.is_done());
    }

    fn despawn(&mut self, agent: Entity) -> bool {
        match self.agents.remove(&agent) {
            Some(mut a) => {
                let mut calls = Vec::new();
                if let Some(c) = a.current.as_mut() {
                    calls.extend(c.on_remove_hook());
                }
                if let Some(q) = a.queue.as_mut() {
                    calls.extend(q.on_remove_hook());
                }
                for call in calls {
                    self.call(call);
                }
                true
            }
            None => false,
        }
    }

    fn update(&mut self) {
        for a in self.agents.values_mut() {
            if let Some(c) = a.countdown.as_mut() {
                *c -= 1;
            }
            if let Some(c) = a.countup.as_mut() {
                *c += 1;
            }
        }
        let agents: Vec<(u64, Option<u64>)> = self
            .agents
            .iter()
            .filter_map(|(e, a)| a.current.as_ref().map(|c| (*e, c.get())))
            .collect();
        let asked = SequentialActionsPlugin::check_actions(&agents);
        let answers: Vec<bool> = asked.iter().map(|(agent, action)| self.is_finished(*action, *agent)).collect();
        for op in SequentialActionsPlugin::finish_actions(&asked, &answers) {
            self.drive(op);
        }
    }

    fn reset(&mut self) -> &mut Self {
        self.agents.clear();
        self.actions.clear();
        self.hooks.clear();
        self
    }

    fn actions(&mut self, agent: Entity) -> Actions<'_> {
        Actions { app: self, modifier: AgentActions::new(agent) }
    }

    fn current_action(&self, agent: Entity) -> &CurrentAction {
        self.agents[&agent].current.as_ref().unwrap()
    }

    fn action_queue(&self, agent: Entity) -> &ActionQueue {
        self.agents[&agent].queue.as_ref().unwrap()
    }

    fn is_alive(&self, agent: Entity) -> bool {
        self.agents.contains_key(&agent)
    }

    fn contains(&self, agent: Entity, marker: char) -> bool {
        self.agents[&agent].markers.contains(&marker)
    }

    fn countdown_of(&self, agent: Entity) -> Option<i32> {
        self.agents[&agent].countdown
    }

    fn marked(&self, action: u64, mark: &str) -> bool {
        self.marks.get(&action).map_or(false, |m| m.contains(mark))
    }

    fn count_marked(&self, mark: &str) -> usize {
        self.marks.values().filter(|m| m.contains(mark)).count()
    }

    fn mark(&mut self, action: u64, mark: &'static str) {
        self.marks.entry(action).or_default().insert(mark);
    }

    fn name(kind: &Kind) -> Option<Name> {
        match kind {
            Kind::Countdown { .. } => Some(Name::Countdown),
            Kind::Countup { .. } => Some(Name::Countup),
            Kind::Despawn(_) => Some(Name::Despawn),
            Kind::GoodAdd => Some(Name::GoodAdd),
            Kind::BadAdd => Some(Name::BadAdd),
            _ => None,
        }
    }

    fn is_finished(&self, action: u64, agent: Entity) -> bool {
        match &self.actions[&action] {
            Kind::Countdown { .. } => self.agents[&agent].countdown.unwrap() <= 0,
            Kind::Countup { count, .. } => self.agents[&agent].countup.unwrap() >= *count,
            _ => true,
        }
    }

    /// Makes one lifecycle call; for `on_start`, returns its answer.
    fn call(&mut self, call: HookCall) -> bool {
        match call {
            HookCall::OnAdd { action, agent } => {
                let kind = self.actions[&action].clone();
                if let Some(n) = Self::name(&kind) {
                    self.hooks.push(Hook::Add(n, agent));
                }
                if let Kind::Test = kind {
                    self.mark(action, "Added");
                }
                false
            }
            HookCall::OnStart { action, agent } => {
                let kind = self.actions[&action].clone();
                if let Some(n) = Self::name(&kind) {
                    self.hooks.push(Hook::Start(n, agent));
                }
                match kind {
                    Kind::Countdown { count, current } => {
                        let c = current.unwrap_or(count);
                        self.actions.insert(action, Kind::Countdown { count, current: None });
                        self.agents.get_mut(&agent).unwrap().countdown = Some(c);
                        self.is_finished(action, agent)
                    }
                    Kind::Countup { count, current } => {
                        let c = current.unwrap_or_default();
                        self.actions.insert(action, Kind::Countup { count, current: None });
                        self.agents.get_mut(&agent).unwrap().countup = Some(c);
                        self.is_finished(action, agent)
                    }
                    Kind::Despawn(b) => {
                        self.despawn(agent);
                        b
                    }
                    Kind::GoodAdd => {
                        let id = self.register(countdown(1));
                        self.drive(AgentActions::new(agent).start(false).add(id));
                        true
                    }
                    Kind::BadAdd => true,
                    Kind::Marker(m) => {
                        self.agents.get_mut(&agent).unwrap().markers.insert(m);
                        false
                    }
                    Kind::Answer(b) => b,
                    Kind::Forever => true,
                    Kind::Test => {
                        self.mark(action, "Started");
                        false
                    }
                }
            }
            HookCall::OnStop { action, agent, reason } => {
                let kind = self.actions[&action].clone();
                if let Some(n) = Self::name(&kind) {
                    self.hooks.push(Hook::Stop(n, agent, reason));
                }
                match kind {
                    Kind::Countdown { count, .. } => {
                        if let Some(agent) = agent {
                            let c = self.agents.get_mut(&agent).unwrap().countdown.take();
                            if reason == StopReason::Paused {
                                self.actions.insert(action, Kind::Countdown { count, current: c });
                            }
                        }
                    }
                    Kind::Countup { count, .. } => {
                        if let Some(agent) = agent {
                            let c = self.agents.get_mut(&agent).unwrap().countup.take();
                            if reason == StopReason::Paused {
                                self.actions.insert(action, Kind::Countup { count, current: c });
                            }
                        }
                    }
                    Kind::BadAdd => {
                        let id = self.register(countdown(1));
                        self.drive(AgentActions::new(agent.unwrap()).add(id));
                    }
                    Kind::Marker(m) => {
                        self.agents.get_mut(&agent.unwrap()).unwrap().markers.remove(&m);
                    }
                    Kind::Test => {
                        self.mark(action, "Stopped");
                        match reason {
                            StopReason::Finished => self.mark(action, "Finished"),
                            StopReason::Canceled => self.mark(action, "Canceled"),
                            StopReason::Paused => self.mark(action, "Paused"),
                        }
                    }
                    _ => {}
                }
                false
            }
            HookCall::OnRemove { action, agent } => {
                let kind = self.actions[&action].clone();
                if let Some(n) = Self::name(&kind) {
                    self.hooks.push(Hook::Remove(n, agent));
                }
                if let Kind::Test = kind {
                    self.mark(action, "Removed");
                }
                false
            }
            HookCall::OnDrop { action, agent, reason } => {
                let kind = self.actions.remove(&action).unwrap();
                if let Some(n) = Self::name(&kind) {
                    self.hooks.push(Hook::Drop(n, agent, reason));
                }
                if let Kind::Forever = kind {
                    let id = self.register(Kind::Forever);
                    self.drive(AgentActions::new(agent.unwrap()).start(false).add(id));
                }
                false
            }
        }
    }
}

/// Modifies the actions of one agent, running each operation at once.
struct Actions<'a> {
    app: &'a mut TestApp,
    modifier: AgentActions,
}

impl Actions<'_> {
    fn start(&mut self, start: bool) -> &mut Self {
        self.modifier.start(start);
        self
    }

    fn order(&mut self, order: AddOrder) -> &mut Self {
        self.modifier.order(order);
        self
    }

    fn config(&mut self, config: AddConfig) -> &mut Self {
        self.modifier.config(config);
        self
    }

    fn add(&mut self, kind: Kind) -> &mut Self {
        let id = self.app.register(kind);
        let op = self.modifier.add(id);
        self.app.drive(op);
        self
    }

    fn add_many(&mut self, kinds: Vec<Kind>) -> &mut Self {
        let ids: Vec<u64> = kinds.into_iter().map(|k| self.app.register(k)).collect();
        let op = self.modifier.add_many(ids);
        self.app.drive(op);
        self
    }

    fn execute(&mut self) -> &mut Self {
        let op = self.modifier.execute();
        self.app.drive(op);
        self
    }

    fn next(&mut self) -> &mut Self {
        let op = self.modifier.next();
        self.app.drive(op);
        self
    }

    fn cancel(&mut self) -> &mut Self {
        let op = self.modifier.cancel();
        self.app.drive(op);
        self
    }

    fn pause(&mut self) -> &mut Self {
        let op = self.modifier.pause();
        self.app.drive(op);
        self
    }

    fn skip(&mut self) -> &mut Self {
        let op = self.modifier.skip();
        self.app.drive(op);
        self
    }

    fn clear(&mut self) -> &mut Self {
        let op = self.modifier.clear();
        self.app.drive(op);
        self
    }
}

fn test_action() -> Kind {
    Kind::Test
}

fn only_marker(app: &TestApp) -> u64 {
    let all: Vec<u64> = app.marks.keys().copied().collect();
    assert_eq!(all.len(), 1);
    all[0]
}

// Scenarios with the lifecycle log.

#[test]
fn tests_add() {
    let mut app = TestApp::new();

    let a = app.spawn_agent();
    app.actions(a).start(false).add(countdown(0));

    assert!(app.current_action(a).is_none());
    assert_eq!(app.action_queue(a).len(), 1);
    assert_eq!(app.hooks.clone(), vec![Hook::Add(Name::Countdown, a)]);

    app.actions(a).clear().add(countdown(0));

    assert!(app.current_action(a).is_none());
    assert_eq!(app.action_queue(a).len(), 0);

    app.actions(a).clear().add(countdown(1));

    assert!(app.current_action(a).is_some());
    assert_eq!(app.action_queue(a).len(), 0);

    app.reset().actions(a).add(countdown(1));

    assert!(!app.is_alive(a));
    assert_eq!(app.hooks.clone(), vec![]);
}

#[test]
fn tests_add_many() {
    let mut app = TestApp::new();
    let a = app.spawn_agent();

    app.actions(a).start(false).add_many(vec![countdown(0), countup(0)]);

    assert!(app.current_action(a).is_none());
    assert_eq!(app.action_queue(a).len(), 2);
    assert_eq!(
        app.hooks.clone(),
        vec![Hook::Add(Name::Countdown, a), Hook::Add(Name::Countup, a)]
    );

    app.actions(a).clear().add_many(vec![countdown(0), countup(0)]);

    assert!(app.current_action(a).is_none());
    assert_eq!(app.action_queue(a).len(), 0);

    app.actions(a).add_many(vec![countdown(1), countup(1)]);

    assert!(app.current_action(a).is_some());
    assert_eq!(app.action_queue(a).len(), 1);

    app.actions(a).add_many(vec![]);

    assert!(app.current_action(a).is_some());
    assert_eq!(app.action_queue(a).len(), 1);

    app.reset().actions(a).add_many(vec![countdown(1), countup(1)]);

    assert!(!app.is_alive(a));
    assert_eq!(app.hooks.clone(), vec![]);
}

#[test]
fn tests_finish() {
    let mut app = TestApp::new();
    let a = app.spawn_agent();

    app.actions(a).add(countdown(0));

    assert!(app.current_action(a).is_none());
    assert!(app.action_queue(a).is_empty());
    assert_eq!(
        app.hooks.clone(),
        vec![
            Hook::Add(Name::Countdown, a),
            Hook::Start(Name::Countdown, a),
            Hook::Stop(Name::Countdown, Some(a), StopReason::Finished),
            Hook::Remove(Name::Countdown, Some(a)),
            Hook::Drop(Name::Countdown, Some(a), DropReason::Done)
        ]
    );

    let a = app.reset().spawn_agent();
    app.actions(a).add(countdown(1));
    app.update();

    assert!(app.current_action(a).is_none());
    assert!(app.action_queue(a).is_empty());
    assert_eq!(
        app.hooks.clone(),
        vec![
            Hook::Add(Name::Countdown, a),
            Hook::Start(Name::Countdown, a),
            Hook::Stop(Name::Countdown, Some(a), StopReason::Finished),
            Hook::Remove(Name::Countdown, Some(a)),
            Hook::Drop(Name::Countdown, Some(a), DropReason::Done)
        ]
    );

    let a = app.reset().spawn_agent();
    app.actions(a).add_many(vec![countdown(0), countup(0)]);

    assert!(app.current_action(a).is_none());
    assert!(app.action_queue(a).is_empty());
    assert_eq!(
        app.hooks.clone(),
        vec![
            Hook::Add(Name::Countdown, a),
            Hook::Add(Name::Countup, a),
            Hook::Start(Name::Countdown, a),
            Hook::Stop(Name::Countdown, Some(a), StopReason::Finished),
            Hook::Remove(Name::Countdown, Some(a)),
            Hook::Drop(Name::Countdown, Some(a), DropReason::Done),
            Hook::Start(Name::Countup, a),
            Hook::Stop(Name::Countup, Some(a), StopReason::Finished),
            Hook::Remove(Name::Countup, Some(a)),
            Hook::Drop(Name::Countup, Some(a), DropReason::Done)
        ]
    );

    let a = app.reset().spawn_agent();
    app.actions(a).add_many(vec![countdown(1), countup(1)]);
    app.update();

    assert!(app.current_action(a).is_some());
    assert_eq!(app.action_queue(a).len(), 0);
    assert_eq!(
        app.hooks.clone(),
        vec![
            Hook::Add(Name::Countdown, a),
            Hook::Add(Name::Countup, a),
            Hook::Start(Name::Countdown, a),
            Hook::Stop(Name::Countdown, Some(a), StopReason::Finished),
            Hook::Remove(Name::Countdown, Some(a)),
            Hook::Drop(Name::Countdown, Some(a), DropReason::Done),
            Hook::Start(Name::Countup, a)
        ]
    );
}

#[test]
fn tests_cancel() {
    let mut app = TestApp::new();
    let a = app.spawn_agent();

    app.actions(a).add(countdown(1)).cancel();

    assert!(app.current_action(a).is_none());
    assert!(app.action_queue(a).is_empty());
    assert_eq!(
        app.hooks.clone(),
        vec![
            Hook::Add(Name::Countdown, a),
            Hook::Start(Name::Countdown, a),
            Hook::Stop(Name::Countdown, Some(a), StopReason::Canceled),
            Hook::Remove(Name::Countdown, Some(a)),
            Hook::Drop(Name::Countdown, Some(a), DropReason::Done)
        ]
    );

    app.reset().actions(a).cancel();
    assert_eq!(app.hooks.clone(), vec![]);
}

#[test]
fn tests_pause() {
    let mut app = TestApp::new();
    let a = app.spawn_agent();

    app.actions(a).add(countdown(1)).pause();

    assert!(app.current_action(a).is_none());
    assert_eq!(app.action_queue(a).len(), 1);
    assert_eq!(
        app.hooks.clone(),
        vec![
            Hook::Add(Name::Countdown, a),
            Hook::Start(Name::Countdown, a),
            Hook::Stop(Name::Countdown, Some(a), StopReason::Paused)
        ]
    );

    app.reset().actions(a).pause();
    assert_eq!(app.hooks.clone(), vec![]);
}

#[test]
fn tests_next() {
    let mut app = TestApp::new();
    let a = app.spawn_agent();

    app.actions(a).add(countdown(1)).next();

    assert!(app.current_action(a).is_none());
    assert_eq!(app.action_queue(a).len(), 0);
    assert_eq!(
        app.hooks.clone(),
        vec![
            Hook::Add(Name::Countdown, a),
            Hook::Start(Name::Countdown, a),
            Hook::Stop(Name::Countdown, Some(a), StopReason::Canceled),
            Hook::Remove(Name::Countdown, Some(a)),
            Hook::Drop(Name::Countdown, Some(a), DropReason::Done)
        ]
    );

    app.reset().actions(a).next();
    assert_eq!(app.hooks.clone(), vec![]);
}

#[test]
fn tests_skip() {
    let mut app = TestApp::new();
    let a = app.spawn_agent();

    app.actions(a).start(false).add(countdown(1)).skip();

    assert!(app.current_action(a).is_none());
    assert_eq!(app.action_queue(a).len(), 0);
    assert_eq!(
        app.hooks.clone(),
        vec![
            Hook::Add(Name::Countdown, a),
            Hook::Remove(Name::Countdown, Some(a)),
            Hook::Drop(Name::Countdown, Some(a), DropReason::Skipped)
        ]
    );

    app.reset().actions(a).skip();
    assert_eq!(app.hooks.clone(), vec![]);
}

#[test]
fn tests_clear() {
    let mut app = TestApp::new();
    let a = app.spawn_agent();

    app.actions(a).add_many(vec![countdown(1), countup(1)]).clear();

    assert!(app.current_action(a).is_none());
    assert_eq!(app.action_queue(a).len(), 0);
    assert_eq!(
        app.hooks.clone(),
        vec![
            Hook::Add(Name::Countdown, a),
            Hook::Add(Name::Countup, a),
            Hook::Start(Name::Countdown, a),
            Hook::Stop(Name::Countdown, Some(a), StopReason::Canceled),
            Hook::Remove(Name::Countdown, Some(a)),
            Hook::Drop(Name::Countdown, Some(a), DropReason::Cleared),
            Hook::Remove(Name::Countup, Some(a)),
            Hook::Drop(Name::Countup, Some(a), DropReason::Cleared)
        ]
    );

    app.reset().actions(a).clear();
    assert_eq!(app.hooks.clone(), vec![]);
}

fn markers(app: &TestApp, a: Entity) -> (bool, bool, bool) {
    (app.contains(a, 'A'), app.contains(a, 'B'), app.contains(a, 'C'))
}

#[test]
fn tests_order() {
    let mut app = TestApp::new();
    let a = app.spawn_agent();

    // Back
    app.actions(a).add_many(vec![Kind::Marker('A'), Kind::Marker('B'), Kind::Marker('C')]);

    assert_eq!(markers(&app, a), (true, false, false));

    app.update();

    assert_eq!(markers(&app, a), (false, true, false));

    app.update();

    assert_eq!(markers(&app, a), (false, false, true));

    // Front
    app.actions(a)
        .clear()
        .start(false)
        .add(Kind::Answer(false))
        .order(AddOrder::Front)
        .add_many(vec![Kind::Marker('A'), Kind::Marker('B'), Kind::Marker('C')])
        .execute();

    assert_eq!(markers(&app, a), (true, false, false));

    app.update();

    assert_eq!(markers(&app, a), (false, true, false));

    app.update();

    assert_eq!(markers(&app, a), (false, false, true));
}

#[test]
fn pause_resume() {
    let mut app = TestApp::new();
    let a = app.spawn_agent();

    app.actions(a).add(countdown(10));

    assert_eq!(app.countdown_of(a).unwrap(), 10);

    app.update();

    assert_eq!(app.countdown_of(a).unwrap(), 9);

    app.actions(a).pause().order(AddOrder::Front).add(countdown(1));

    assert_eq!(app.countdown_of(a).unwrap(), 1);

    app.update();

    assert_eq!(app.countdown_of(a).unwrap(), 9);
}

#[test]
fn despawn() {
    let mut app = TestApp::new();
    let a = app.spawn_agent();

    app.actions(a).add_many(vec![countdown(10), countup(10)]);
    app.update();
    app.despawn(a);

    assert!(!app.is_alive(a));
    assert_eq!(
        app.hooks.clone(),
        vec![
            Hook::Add(Name::Countdown, a),
            Hook::Add(Name::Countup, a),
            Hook::Start(Name::Countdown, a),
            Hook::Stop(Name::Countdown, None, StopReason::Canceled),
            Hook::Remove(Name::Countdown, None),
            Hook::Drop(Name::Countdown, None, DropReason::Done),
            Hook::Remove(Name::Countup, None),
            Hook::Drop(Name::Countup, None, DropReason::Cleared)
        ]
    );
}

#[test]
fn despawn_action() {
    let mut app = TestApp::new();

    let a = app.spawn_agent();
    app.actions(a).add(Kind::Despawn(true));

    assert!(!app.is_alive(a));
    assert_eq!(
        app.hooks.clone(),
        vec![
            Hook::Add(Name::Despawn, a),
            Hook::Start(Name::Despawn, a),
            Hook::Stop(Name::Despawn, None, StopReason::Finished),
            Hook::Remove(Name::Despawn, None),
            Hook::Drop(Name::Despawn, None, DropReason::Done)
        ]
    );

    let a = app.reset().spawn_agent();
    app.actions(a).add(Kind::Despawn(false));

    assert!(!app.is_alive(a));
    assert_eq!(
        app.hooks.clone(),
        vec![
            Hook::Add(Name::Despawn, a),
            Hook::Start(Name::Despawn, a),
            Hook::Stop(Name::Despawn, None, StopReason::Canceled),
            Hook::Remove(Name::Despawn, None),
            Hook::Drop(Name::Despawn, None, DropReason::Done)
        ]
    );

    let a = app.reset().spawn_agent();
    app.actions(a).add_many(vec![Kind::Despawn(true), countdown(1), countup(1)]);

    assert!(!app.is_alive(a));
    assert_eq!(
        app.hooks.clone(),
        vec![
            Hook::Add(Name::Despawn, a),
            Hook::Add(Name::Countdown, a),
            Hook::Add(Name::Countup, a),
            Hook::Start(Name::Despawn, a),
            Hook::Remove(Name::Countdown, None),
            Hook::Drop(Name::Countdown, None, DropReason::Cleared),
            Hook::Remove(Name::Countup, None),
            Hook::Drop(Name::Countup, None, DropReason::Cleared),
            Hook::Stop(Name::Despawn, None, StopReason::Finished),
            Hook::Remove(Name::Despawn, None),
            Hook::Drop(Name::Despawn, None, DropReason::Done)
        ]
    );

    let a = app.reset().spawn_agent();
    app.actions(a).add_many(vec![Kind::Despawn(false), countdown(1), countup(1)]);

    assert!(!app.is_alive(a));
    assert_eq!(
        app.hooks.clone(),
        vec![
            Hook::Add(Name::Despawn, a),
            Hook::Add(Name::Countdown, a),
            Hook::Add(Name::Countup, a),
            Hook::Start(Name::Despawn, a),
            Hook::Remove(Name::Countdown, None),
            Hook::Drop(Name::Countdown, None, DropReason::Cleared),
            Hook::Remove(Name::Countup, None),
            Hook::Drop(Name::Countup, None, DropReason::Cleared),
            Hook::Stop(Name::Despawn, None, StopReason::Canceled),
            Hook::Remove(Name::Despawn, None),
            Hook::Drop(Name::Despawn, None, DropReason::Done)
        ]
    );
}

#[test]
fn good_add_action() {
    let mut app = TestApp::new();

    let a = app.spawn_agent();
    app.actions(a).add(Kind::GoodAdd);

    assert_eq!(
        app.hooks.clone(),
        vec![
            Hook::Add(Name::GoodAdd, a),
            Hook::Start(Name::GoodAdd, a),
            Hook::Add(Name::Countdown, a),
            Hook::Stop(Name::GoodAdd, Some(a), StopReason::Finished),
            Hook::Remove(Name::GoodAdd, Some(a)),
            Hook::Drop(Name::GoodAdd, Some(a), DropReason::Done),
            Hook::Start(Name::Countdown, a)
        ]
    );
}

#[test]
fn bad_add_action() {
    let mut app = TestApp::new();

    let a = app.spawn_agent();
    app.actions(a).add(Kind::BadAdd);

    assert_eq!(
        app.hooks.clone(),
        vec![
            Hook::Add(Name::BadAdd, a),
            Hook::Start(Name::BadAdd, a),
            Hook::Stop(Name::BadAdd, Some(a), StopReason::Finished),
            Hook::Add(Name::Countdown, a),
            Hook::Start(Name::Countdown, a),
            Hook::Remove(Name::BadAdd, Some(a)),
            Hook::Drop(Name::BadAdd, Some(a), DropReason::Done)
        ]
    );

    app.hooks.clear();
    app.update();

    assert_eq!(
        app.hooks.clone(),
        vec![
            Hook::Stop(Name::Countdown, Some(a), StopReason::Finished),
            Hook::Remove(Name::Countdown, Some(a)),
            Hook::Drop(Name::Countdown, Some(a), DropReason::Done)
        ]
    );
}

#[test]
#[should_panic]
fn forever_action() {
    let mut app = TestApp::new();
    let a = app.spawn_agent();
    app.actions(a).add(Kind::Forever);
}

// Scenarios with marker flags on each action.

#[test]
fn add() {
    let mut app = TestApp::new();
    let a = app.spawn_agent();
    app.actions(a).start(false).add(test_action());

    assert!(app.current_action(a).is_none());
    assert!(app.action_queue(a).len() == 1);

    app.actions(a).start(true).add(test_action());

    assert!(app.current_action(a).is_some());
    assert!(app.action_queue(a).len() == 1);
}

#[test]
fn add_many() {
    let mut app = TestApp::new();
    let a = app.spawn_agent();
    app.actions(a).start(false).add_many(vec![test_action(), test_action()]);

    assert!(app.current_action(a).is_none());
    assert!(app.action_queue(a).len() == 2);

    app.actions(a).start(true).add_many(vec![test_action(), test_action()]);

    assert!(app.current_action(a).is_some());
    assert!(app.action_queue(a).len() == 3);

    app.actions(a).add_many(vec![]);

    assert!(app.current_action(a).is_some());
    assert!(app.action_queue(a).len() == 3);
}

#[test]
fn next() {
    let mut app = TestApp::new();
    let a = app.spawn_agent();

    app.actions(a).add(test_action());

    let e = only_marker(&app);

    assert_eq!(app.marked(e, "Started"), true);
    assert_eq!(app.marked(e, "Canceled"), false);

    app.actions(a).next();

    assert_eq!(app.marked(e, "Started"), true);
    assert_eq!(app.marked(e, "Canceled"), true);
}

#[test]
fn finish() {
    let mut app = TestApp::new();
    let a = app.spawn_agent();

    app.actions(a).add(test_action());
    app.update();

    assert!(app.current_action(a).is_none());
    assert!(app.action_queue(a).is_empty());

    let e = only_marker(&app);

    assert_eq!(app.marked(e, "Finished"), true);
    assert_eq!(app.marked(e, "Canceled"), false);
    assert_eq!(app.marked(e, "Paused"), false);
}

#[test]
fn cancel() {
    let mut app = TestApp::new();
    let a = app.spawn_agent();

    app.actions(a).add(test_action()).cancel();

    assert!(app.current_action(a).is_none());
    assert!(app.action_queue(a).is_empty());

    let e = only_marker(&app);

    assert_eq!(app.marked(e, "Finished"), false);
    assert_eq!(app.marked(e, "Canceled"), true);
    assert_eq!(app.marked(e, "Paused"), false);
}

#[test]
fn pause() {
    let mut app = TestApp::new();
    let a = app.spawn_agent();

    app.actions(a).add(test_action()).pause();

    assert!(app.current_action(a).is_none());
    assert!(app.action_queue(a).len() == 1);

    let e = only_marker(&app);

    assert_eq!(app.marked(e, "Finished"), false);
    assert_eq!(app.marked(e, "Canceled"), false);
    assert_eq!(app.marked(e, "Paused"), true);
}

#[test]
fn skip() {
    let mut app = TestApp::new();
    let a = app.spawn_agent();

    app.actions(a).start(false).add(test_action()).skip();

    assert!(app.action_queue(a).is_empty());

    let e = only_marker(&app);

    assert_eq!(app.marked(e, "Added"), true);
    assert_eq!(app.marked(e, "Started"), false);
    assert_eq!(app.marked(e, "Stopped"), false);
    assert_eq!(app.marked(e, "Removed"), true);
}

#[test]
fn clear() {
    let mut app = TestApp::new();
    let a = app.spawn_agent();

    app.actions(a).add_many(vec![test_action(), test_action()]).clear();

    assert!(app.current_action(a).is_none());
    assert!(app.action_queue(a).is_empty());
    assert_eq!(app.count_marked("Canceled"), 1);
    assert_eq!(app.count_marked("Removed"), 2);
}

#[test]
fn lifecycle() {
    let mut app = TestApp::new();
    let a = app.spawn_agent();

    app.actions(a).start(false).add(test_action());

    let e = only_marker(&app);
    let flags = |app: &TestApp| {
        (
            app.marked(e, "Added"),
            app.marked(e, "Started"),
            app.marked(e, "Stopped"),
            app.marked(e, "Removed"),
        )
    };

    assert_eq!(flags(&app), (true, false, false, false));

    app.actions(a).execute();

    assert_eq!(flags(&app), (true, true, false, false));

    app.actions(a).pause();

    assert_eq!(flags(&app), (true, true, true, false));

    app.actions(a).clear();

    assert_eq!(flags(&app), (true, true, true, true));
}

#[test]
fn order() {
    let mut app = TestApp::new();
    let a = app.spawn_agent();

    // Back
    app.actions(a).add_many(vec![Kind::Marker('A'), Kind::Marker('B'), Kind::Marker('C')]);

    assert_eq!(markers(&app, a), (true, false, false));

    app.update();

    assert_eq!(markers(&app, a), (false, true, false));

    app.update();

    assert_eq!(markers(&app, a), (false, false, true));

    // Front
    app.actions(a)
        .clear()
        .start(false)
        .add(test_action())
        .order(AddOrder::Front)
        .add_many(vec![Kind::Marker('A'), Kind::Marker('B'), Kind::Marker('C')])
        .execute();

    assert_eq!(markers(&app, a), (true, false, false));

    app.update();

    assert_eq!(markers(&app, a), (false, true, false));

    app.update();

    assert_eq!(markers(&app, a), (false, false, true));
}
