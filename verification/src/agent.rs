use vstd::prelude::*;
use crate::components::{pushed, ActionQueue, AddOrder, CurrentAction};

verus! {

/// What the action logic sees of an agent at one moment: whether the agent
/// exists, and its two components where it has them.
#[derive(Debug)]
pub struct AgentState {
    /// Whether the agent exists.
    pub exists: bool,
    /// The current action component, `None` where the agent lacks it.
    pub current: Option<CurrentAction>,
    /// The action queue component, `None` where the agent lacks it.
    pub queue: Option<ActionQueue>,
}

/// The mathematical model of an [`AgentState`].
#[verifier::ext_equal]
pub struct AgentView {
    pub exists: bool,
    pub current: Option<Option<u64>>,
    pub queue: Option<Seq<u64>>,
}

impl View for AgentState {
    type V = AgentView;

    open spec fn view(&self) -> AgentView {
        AgentView {
            exists: self.exists,
            current: match self.current {
                Some(c) => Some(c@),
                None => None,
            },
            queue: match self.queue {
                Some(q) => Some(q@),
                None => None,
            },
        }
    }
}

impl AgentState {
    /// An agent that does not exist.
    pub fn missing() -> (state: Self)
        ensures
            state@ == (AgentView { exists: false, current: None, queue: None }),
    {
        AgentState { exists: false, current: None, queue: None }
    }

    /// An existing agent with the given components.
    pub fn with_components(current: Option<CurrentAction>, queue: Option<ActionQueue>) -> (state:
        Self)
        ensures
            state.exists,
            state.current == current,
            state.queue == queue,
    {
        AgentState { exists: true, current, queue }
    }

    /// Whether the agent has the current action component.
    pub fn has_current(&self) -> (b: bool)
        ensures
            b == (self@.current is Some),
    {
        self.current.is_some()
    }

    /// Whether the agent has the action queue component.
    pub fn has_queue(&self) -> (b: bool)
        ensures
            b == (self@.queue is Some),
    {
        self.queue.is_some()
    }

    /// Whether the agent has the current action component and it holds
    /// nothing.
    pub fn is_idle(&self) -> (b: bool)
        ensures
            b == (self@.current == Some(None::<u64>)),
    {
        match &self.current {
            Some(c) => c.is_none(),
            None => false,
        }
    }

    /// The number of queued actions, `None` where the agent lacks a queue.
    pub fn queue_len(&self) -> (n: Option<usize>)
        ensures
            self@.queue is None ==> n is None,
            self@.queue is Some ==> n is Some && n->0 == self@.queue->0.len(),
    {
        match &self.queue {
            Some(q) => Some(q.len()),
            None => None,
        }
    }

    /// Takes the running action out of the current action component, where
    /// the agent has one.
    pub fn take_current(&mut self) -> (action: Option<u64>)
        ensures
            old(self)@.current is None ==> action is None && final(self)@ == old(self)@,
            old(self)@.current matches Some(c) ==> action == c && final(self)@ == (AgentView {
                current: Some(None),
                ..old(self)@
            }),
    {
        match &mut self.current {
            Some(c) => c.take(),
            None => None,
        }
    }

    /// Makes `action` the running action, replacing whatever ran.
    pub fn set_current(&mut self, action: u64)
        requires
            old(self)@.current is Some,
        ensures
            final(self)@ == (AgentView { current: Some(Some(action)), ..old(self)@ }),
    {
        match &mut self.current {
            Some(c) => c.set(action),
            None => {},
        }
    }

    /// Adds `action` to the queue at the end that `order` names.
    pub fn push(&mut self, action: u64, order: AddOrder)
        requires
            old(self)@.queue is Some,
        ensures
            final(self)@ == (AgentView {
                queue: Some(pushed(old(self)@.queue->0, action, order)),
                ..old(self)@
            }),
    {
        match &mut self.queue {
            Some(q) => q.push(action, order),
            None => {},
        }
    }

    /// Removes and returns the action at the front of the queue.
    pub fn pop_front(&mut self) -> (action: u64)
        requires
            old(self)@.queue matches Some(q) && q.len() > 0,
        ensures
            action == old(self)@.queue->0[0],
            final(self)@ == (AgentView {
                queue: Some(old(self)@.queue->0.drop_first()),
                ..old(self)@
            }),
    {
        match &mut self.queue {
            Some(q) => {
                let a = q.pop_front();
                a.unwrap()
            },
            None => 0,
        }
    }

    /// Takes every queued action out, front first.
    pub fn take_queue(&mut self) -> (actions: Vec<u64>)
        requires
            old(self)@.queue is Some,
        ensures
            actions@ == old(self)@.queue->0,
            final(self)@ == (AgentView { queue: Some(Seq::<u64>::empty()), ..old(self)@ }),
    {
        match &mut self.queue {
            Some(q) => q.take_all(),
            None => Vec::new(),
        }
    }
}

} // verus!
