use vstd::prelude::*;
use std::collections::VecDeque;

verus! {

/// The queue order for actions to be added.
#[derive(Debug, Clone, Copy, PartialEq, Eq, Structural)]
pub enum AddOrder {
    /// An action is added to the back of the queue.
    Back,
    /// An action is added to the front of the queue.
    Front,
}

impl Default for AddOrder {
    fn default() -> (order: Self)
        ensures
            order == AddOrder::Back,
    {
        AddOrder::Back
    }
}

/// The reason why an action was stopped.
#[derive(Debug, Clone, Copy, PartialEq, Eq, Structural)]
pub enum StopReason {
    /// The action was finished.
    Finished,
    /// The action was canceled.
    Canceled,
    /// The action was paused.
    Paused,
}

/// The reason why an action was dropped.
#[derive(Debug, Clone, Copy, PartialEq, Eq, Structural)]
pub enum DropReason {
    /// The action is considered done as it was either finished or canceled
    /// without being skipped or cleared from the action queue.
    Done,
    /// The action was skipped. This happens either deliberately,
    /// or because an action was added to an `agent` that is missing the
    /// action queue, or that stopped existing while the action was added.
    Skipped,
    /// The action queue was cleared. This happens either deliberately,
    /// or because an `agent` was despawned.
    Cleared,
}

/// Configuration for actions to be added.
#[derive(Debug, Clone, Copy, PartialEq, Eq, Structural)]
pub struct AddConfig {
    /// Start the next action in the queue if nothing is currently running.
    pub start: bool,
    /// The queue order for actions to be added.
    pub order: AddOrder,
}

impl AddConfig {
    /// Returns a new configuration for actions to be added.
    pub fn new(start: bool, order: AddOrder) -> (config: Self)
        ensures
            config.start == start,
            config.order == order,
    {
        AddConfig { start, order }
    }
}

impl Default for AddConfig {
    fn default() -> (config: Self)
        ensures
            config.start,
            config.order == AddOrder::Back,
    {
        AddConfig::new(true, AddOrder::Back)
    }
}

/// The current action for an `agent`: at most one action runs at a time.
#[derive(Debug)]
pub struct CurrentAction {
    action: Option<u64>,
}

impl View for CurrentAction {
    type V = Option<u64>;

    closed spec fn view(&self) -> Option<u64> {
        self.action
    }
}

impl CurrentAction {
    /// A current action slot that holds nothing.
    pub fn none() -> (current: Self)
        ensures
            current@ == None::<u64>,
    {
        CurrentAction { action: None }
    }

    /// A current action slot that holds `action`.
    pub fn holding(action: u64) -> (current: Self)
        ensures
            current@ == Some(action),
    {
        CurrentAction { action: Some(action) }
    }

    /// The action that is currently running, if any.
    pub fn get(&self) -> (action: Option<u64>)
        ensures
            action == self@,
    {
        self.action
    }

    /// Whether no action is currently running.
    pub fn is_none(&self) -> (b: bool)
        ensures
            b == (self@ is None),
    {
        self.action.is_none()
    }

    /// Whether an action is currently running.
    pub fn is_some(&self) -> (b: bool)
        ensures
            b == (self@ is Some),
    {
        self.action.is_some()
    }

    /// Takes the running action out, leaving the slot empty.
    pub fn take(&mut self) -> (action: Option<u64>)
        ensures
            action == old(self)@,
            final(self)@ == None::<u64>,
    {
        let action = self.action;
        self.action = None;
        action
    }

    /// Puts `action` in the slot, replacing whatever it held.
    pub fn set(&mut self, action: u64)
        ensures
            final(self)@ == Some(action),
    {
        self.action = Some(action);
    }
}

/// The action queue for an `agent`.
#[derive(Debug)]
pub struct ActionQueue {
    actions: VecDeque<u64>,
}

impl View for ActionQueue {
    type V = Seq<u64>;

    closed spec fn view(&self) -> Seq<u64> {
        self.actions@
    }
}

impl ActionQueue {
    /// An empty action queue.
    pub fn new() -> (queue: Self)
        ensures
            queue@ == Seq::<u64>::empty(),
    {
        ActionQueue { actions: VecDeque::new() }
    }

    /// An empty action queue with room for `capacity` actions.
    pub fn with_capacity(capacity: usize) -> (queue: Self)
        ensures
            queue@ == Seq::<u64>::empty(),
    {
        ActionQueue { actions: VecDeque::with_capacity(capacity) }
    }

    /// The number of queued actions.
    pub fn len(&self) -> (n: usize)
        ensures
            n == self@.len(),
    {
        self.actions.len()
    }

    /// Whether the queue holds no action.
    pub fn is_empty(&self) -> (b: bool)
        ensures
            b == (self@.len() == 0),
    {
        self.actions.len() == 0
    }

    /// The action at position `i`, counted from the front.
    pub fn get(&self, i: usize) -> (action: Option<u64>)
        ensures
            i < self@.len() ==> action == Some(self@[i as int]),
            i >= self@.len() ==> action is None,
    {
        if i < self.actions.len() {
            Some(self.actions[i])
        } else {
            None
        }
    }

    /// Adds `action` to the back of the queue.
    pub fn push_back(&mut self, action: u64)
        ensures
            final(self)@ == old(self)@.push(action),
    {
        self.actions.push_back(action);
    }

    /// Adds `action` to the front of the queue.
    pub fn push_front(&mut self, action: u64)
        ensures
            final(self)@ == seq![action] + old(self)@,
    {
        self.actions.push_front(action);
    }

    /// Adds `action` at the end that `order` names.
    pub fn push(&mut self, action: u64, order: AddOrder)
        ensures
            final(self)@ == pushed(old(self)@, action, order),
    {
        match order {
            AddOrder::Back => self.push_back(action),
            AddOrder::Front => self.push_front(action),
        }
    }

    /// Removes and returns the action at the front of the queue.
    pub fn pop_front(&mut self) -> (action: Option<u64>)
        ensures
            old(self)@.len() == 0 ==> action is None && final(self)@ == old(self)@,
            old(self)@.len() > 0 ==> action == Some(old(self)@[0]) && final(self)@
                == old(self)@.drop_first(),
    {
        let action = self.actions.pop_front();
        proof {
            if old(self)@.len() > 0 {
                assert(old(self)@.subrange(1, old(self)@.len() as int) =~= old(self)@.drop_first());
            }
        }
        action
    }

    /// Takes every queued action out, front first, leaving the queue empty.
    pub fn take_all(&mut self) -> (actions: Vec<u64>)
        ensures
            actions@ == old(self)@,
            final(self)@ == Seq::<u64>::empty(),
    {
        drain_front(&mut self.actions)
    }
}

/// Takes every item out of `items`, front first, leaving it empty.
pub(crate) fn drain_front<T>(items: &mut VecDeque<T>) -> (drained: Vec<T>)
    ensures
        drained@ == old(items)@,
        final(items)@ == Seq::<T>::empty(),
{
    let mut drained: Vec<T> = Vec::new();
    let ghost all = items@;
    while items.len() > 0
        invariant
            all == drained@ + items@,
        decreases items@.len(),
    {
        let a = items.pop_front().unwrap();
        drained.push(a);
        assert(all =~= drained@ + items@);
    }
    assert(drained@ =~= all);
    drained
}

/// The queue after `action` was added at the end that `order` names.
pub open spec fn pushed(queue: Seq<u64>, action: u64, order: AddOrder) -> Seq<u64> {
    match order {
        AddOrder::Back => queue.push(action),
        AddOrder::Front => seq![action] + queue,
    }
}

/// The components that all agents with actions must have.
#[derive(Debug)]
pub struct ActionsBundle {
    /// The current action.
    pub current: CurrentAction,
    /// The action queue.
    pub queue: ActionQueue,
}

impl ActionsBundle {
    /// A bundle with no current action and an empty queue.
    pub fn new() -> (bundle: Self)
        ensures
            bundle.current@ == None::<u64>,
            bundle.queue@ == Seq::<u64>::empty(),
    {
        ActionsBundle { current: CurrentAction::none(), queue: ActionQueue::new() }
    }

    /// A bundle with no current action and an empty queue with room for
    /// `capacity` actions.
    pub fn with_capacity(capacity: usize) -> (bundle: Self)
        ensures
            bundle.current@ == None::<u64>,
            bundle.queue@ == Seq::<u64>::empty(),
    {
        ActionsBundle { current: CurrentAction::none(), queue: ActionQueue::with_capacity(capacity) }
    }
}

} // verus!
