use vstd::prelude::*;
use crate::components::{AddConfig, AddOrder, StopReason};
use crate::plugin::{fresh, Operation, Phase, SequentialActionsPlugin};

verus! {

/// Modifies the actions of one agent: holds the agent and the current
/// [`AddConfig`] for actions to be added, and gives the operations that
/// modify the actions.
#[derive(Debug, Clone, Copy)]
pub struct AgentActions {
    agent: u64,
    config: AddConfig,
}

impl AgentActions {
    /// Modifies the actions of `agent`, with the default config.
    pub fn new(agent: u64) -> (actions: Self)
        ensures
            actions.agent() == agent,
            actions.add_config() == (AddConfig { start: true, order: AddOrder::Back }),
    {
        AgentActions { agent, config: AddConfig::default() }
    }

    /// The agent whose actions are modified.
    pub closed spec fn agent(&self) -> u64 {
        self.agent
    }

    /// The config for actions to be added.
    pub closed spec fn add_config(&self) -> AddConfig {
        self.config
    }

    /// The current config for actions to be added.
    pub fn get_config(&self) -> (config: AddConfig)
        ensures
            config == self.add_config(),
    {
        self.config
    }

    /// Sets the current config for actions to be added.
    pub fn config(&mut self, config: AddConfig) -> (this: &mut Self)
        ensures
            this.agent() == old(self).agent(),
            this.add_config() == config,
            *final(self) == *final(this),
    {
        self.config = config;
        self
    }

    /// Sets the `start` field in the current config.
    pub fn start(&mut self, start: bool) -> (this: &mut Self)
        ensures
            this.agent() == old(self).agent(),
            this.add_config() == (AddConfig { start, ..old(self).add_config() }),
            *final(self) == *final(this),
    {
        self.config.start = start;
        self
    }

    /// Sets the `order` field in the current config.
    pub fn order(&mut self, order: AddOrder) -> (this: &mut Self)
        ensures
            this.agent() == old(self).agent(),
            this.add_config() == (AddConfig { order, ..old(self).add_config() }),
            *final(self) == *final(this),
    {
        self.config.order = order;
        self
    }

    /// Adds a single action to the queue.
    pub fn add(&self, action: u64) -> (op: Operation)
        ensures
            op@ == fresh(
                self.agent(),
                Phase::AddAction { config: self.add_config(), action },
                seq![],
            ),
    {
        SequentialActionsPlugin::add_action(self.agent, self.config, action)
    }

    /// Adds a collection of actions to the queue, in their order.
    pub fn add_many(&self, actions: Vec<u64>) -> (op: Operation)
        ensures
            op@ == fresh(self.agent(), Phase::AddActions { config: self.add_config() }, actions@),
    {
        SequentialActionsPlugin::add_actions(self.agent, self.config, actions)
    }

    /// Starts the next action in the queue, but only if there is no current
    /// action.
    pub fn execute(&self) -> (op: Operation)
        ensures
            op@ == fresh(self.agent(), Phase::ExecuteActions, seq![]),
    {
        SequentialActionsPlugin::execute_actions(self.agent)
    }

    /// Starts the next action in the queue; the current action is stopped
    /// as canceled.
    pub fn next(&self) -> (op: Operation)
        ensures
            op@ == fresh(
                self.agent(),
                Phase::StopCurrentAction { reason: StopReason::Canceled, then_start: true },
                seq![],
            ),
    {
        SequentialActionsPlugin::stop_then_start(self.agent, StopReason::Canceled)
    }

    /// Stops the current action as canceled.
    pub fn cancel(&self) -> (op: Operation)
        ensures
            op@ == fresh(
                self.agent(),
                Phase::StopCurrentAction { reason: StopReason::Canceled, then_start: false },
                seq![],
            ),
    {
        SequentialActionsPlugin::stop_current_action(self.agent, StopReason::Canceled)
    }

    /// Stops the current action as paused; it goes back to the front of the
    /// queue.
    pub fn pause(&self) -> (op: Operation)
        ensures
            op@ == fresh(
                self.agent(),
                Phase::StopCurrentAction { reason: StopReason::Paused, then_start: false },
                seq![],
            ),
    {
        SequentialActionsPlugin::stop_current_action(self.agent, StopReason::Paused)
    }

    /// Skips the next action in the queue.
    pub fn skip(&self) -> (op: Operation)
        ensures
            op@ == fresh(self.agent(), Phase::SkipNextAction, seq![]),
    {
        SequentialActionsPlugin::skip_next_action(self.agent)
    }

    /// Clears the action queue; the current action is stopped as canceled.
    pub fn clear(&self) -> (op: Operation)
        ensures
            op@ == fresh(self.agent(), Phase::ClearActions, seq![]),
    {
        SequentialActionsPlugin::clear_actions(self.agent)
    }
}

/// Modifies the actions of one agent in a deferred way: actions are added
/// as one collection, and the operation is queued to run later.
#[derive(Debug, Clone, Copy)]
pub struct AgentCommands {
    actions: AgentActions,
}

impl AgentCommands {
    /// Modifies the actions of `agent`, with the default config.
    pub fn new(agent: u64) -> (commands: Self)
        ensures
            commands.modifier().agent() == agent,
            commands.modifier().add_config() == (AddConfig { start: true, order: AddOrder::Back }),
    {
        AgentCommands { actions: AgentActions::new(agent) }
    }

    /// The modifier that gives the operations other than adding.
    pub closed spec fn modifier(&self) -> AgentActions {
        self.actions
    }

    /// The modifier that gives the operations other than adding.
    pub fn actions(&self) -> (actions: AgentActions)
        ensures
            actions == self.modifier(),
    {
        self.actions
    }

    /// Sets the current config for actions to be added.
    pub fn config(&mut self, config: AddConfig) -> (this: &mut Self)
        ensures
            this.modifier().agent() == old(self).modifier().agent(),
            this.modifier().add_config() == config,
            *final(self) == *final(this),
    {
        self.actions.config(config);
        self
    }

    /// Sets the `start` field in the current config.
    pub fn start(&mut self, start: bool) -> (this: &mut Self)
        ensures
            this.modifier().agent() == old(self).modifier().agent(),
            this.modifier().add_config() == (AddConfig {
                start,
                ..old(self).modifier().add_config()
            }),
            *final(self) == *final(this),
    {
        self.actions.start(start);
        self
    }

    /// Sets the `order` field in the current config.
    pub fn order(&mut self, order: AddOrder) -> (this: &mut Self)
        ensures
            this.modifier().agent() == old(self).modifier().agent(),
            this.modifier().add_config() == (AddConfig {
                order,
                ..old(self).modifier().add_config()
            }),
            *final(self) == *final(this),
    {
        self.actions.order(order);
        self
    }

    /// Adds one or more actions to the queue: nothing for none, a single
    /// action on its own, and several as one collection.
    pub fn add(&self, actions: Vec<u64>) -> (op: Option<Operation>)
        ensures
            actions@.len() == 0 ==> op is None,
            actions@.len() == 1 ==> (op matches Some(o) && o@ == fresh(
                self.modifier().agent(),
                Phase::AddAction { config: self.modifier().add_config(), action: actions@[0] },
                seq![],
            )),
            actions@.len() > 1 ==> (op matches Some(o) && o@ == fresh(
                self.modifier().agent(),
                Phase::AddActions { config: self.modifier().add_config() },
                actions@,
            )),
    {
        let n = actions.len();
        if n == 0 {
            None
        } else if n == 1 {
            Some(self.actions.add(actions[0]))
        } else {
            Some(self.actions.add_many(actions))
        }
    }
}

/// A queue of operations that run later, in order: used for modifying
/// actions in a deferred way from inside the lifecycle methods of an action.
#[derive(Debug)]
pub struct ActionCommands {
    commands: Vec<Operation>,
}

impl View for ActionCommands {
    type V = Seq<Operation>;

    closed spec fn view(&self) -> Seq<Operation> {
        self.commands@
    }
}

impl ActionCommands {
    /// An empty command queue.
    pub fn new() -> (commands: Self)
        ensures
            commands@ == Seq::<Operation>::empty(),
    {
        ActionCommands { commands: Vec::new() }
    }

    /// The number of queued operations.
    pub fn len(&self) -> (n: usize)
        ensures
            n == self@.len(),
    {
        self.commands.len()
    }

    /// Adds an operation to the back of the command queue.
    pub fn add(&mut self, command: Operation) -> (this: &mut Self)
        ensures
            this@ == old(self)@.push(command),
            *final(self) == *final(this),
    {
        self.commands.push(command);
        self
    }

    /// Hands out the queued operations, first first, to be run in that
    /// order.
    pub fn apply(self) -> (commands: Vec<Operation>)
        ensures
            commands@ == self@,
    {
        self.commands
    }
}

} // verus!
