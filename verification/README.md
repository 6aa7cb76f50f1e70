# raft

A Raft consensus core written as a pure state machine, verified with Verus,
together with the deterministic parts of a node runtime and of a terminal
cluster simulator.

## Layout

- `src/protocol/` — the vocabulary: terms and indices, commands, log entries,
  messages, events, actions, each with its abstract view.
- `src/raft.rs`, `src/raft/` — the core. `model.rs` states the whole
  transition function over `RaftView`; every handler (`vote.rs`,
  `election.rs`, `append_entries.rs`, `heartbeat.rs`, `client.rs`, `step.rs`)
  is proved to compute exactly that function.
  - `laws.rs` — properties of one node's steps (terms never decrease, one
    vote per term, votes only for up-to-date logs, leaders only with a quorum,
    commit and apply progress, append-only log outside `AppendEntries`, …).
  - `cluster.rs` — a cluster of nodes over a network that loses, delays,
    reorders and repeats messages; Election Safety is proved for every run.
  - `log_matching.rs` — Log Matching and Leader Append-Only for every run.
  - `commitment.rs`, `commit_step.rs` — Leader Completeness and State
    Machine Safety: an invariant over acknowledgements (what a quorum
    acknowledged in a term is in every later leader's log, and what a
    member commits was acknowledged by a quorum), and its preservation by
    every step.
  - `safety.rs` — these properties along whole runs from a fresh start,
    including crashes and restarts from persisted state: at most one leader
    per term, matching logs, every leader holding what was committed before
    its term, and members never holding different entries at an index both
    have committed.
  - `log_facts.rs` — what merging, committing and applying do to a log
    whose entries sit at their indices, stated directly, and the node's
    bounds `last_applied <= commit_index <= log length`.
- `src/runtime/` — the decisions of a node's event loop (`RaftNode`: which
  timers to touch, what to send, apply and answer), metrics with a bounded
  message log, message labels, and the randomised election timeout.
- `src/sim/` — the simulator's virtual clock, key-value state machine,
  partition table and routing decision, and the UI's state, key decoding,
  command planning and panel contents.
- `app/` — the program around the library: tokio tasks and channels, timers,
  JSON persistence, the simulated network and clock handles, and the ratatui
  front end.
- `tests/` — unit tests of the core, the runtime and the simulator pieces,
  and small cluster simulations checking the safety properties on concrete
  runs.

## Scope of the guarantees

The event loop (`RaftNode`) starts the effects of every step that changed
the term, the vote or the log with `Persist`, so a runtime that saves the
state there has it on stable storage before anything is sent or answered;
the restart law assumes such a runtime. The simulator in `app/` restarts a
killed node with a fresh state and no persistence; a node restarted that
way forgets its vote, and Election Safety is not claimed for such runs.

The cluster model records, as ghost history, every vote, every log a
member held, every piece of log a node acknowledged in a term and every log
a leader held in its term; the safety laws are stated over the members'
states and proved from invariants over that history.
