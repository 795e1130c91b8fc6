# bevy_sequential_actions

A queue of actions per agent, run one at a time: when an action is done, the
next one in the queue starts, until the queue is empty.

- `src/` is the verified library. It holds the queue state of an agent
  (`CurrentAction`, `ActionQueue`) and the operations on it
  (`SequentialActionsPlugin`, `AgentActions`, `AgentCommands`,
  `ActionCommands`). An `Operation` decides; whoever drives it makes the
  lifecycle calls it asks for (`on_add`, `on_start`, `on_stop`, `on_remove`,
  `on_drop`) and resumes it. `laws.rs` proves what whole operations do;
  `lifecycle.rs` proves that each action is owned once: added before the
  agent holds it, removed and dropped after it has left; `once.rs` that a
  whole run adds, removes and drops each action at most once. What an
  operation could not hand to the agent it reports with
  `Operation::left_over`.
- `app/` is the Bevy side: the `Action` trait, the boxed actions, the
  components and the plugin with its system; it drives the operations.
- `tests/` drives the operations against a small simulated world.
