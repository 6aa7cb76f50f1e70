//! The safety properties along whole runs of the cluster: from a fresh
//! start, whatever order nodes take their events in, whatever the network
//! does, and whichever nodes crash and restart from their persisted state,
//! there is at most one leader per term, logs match, every leader holds
//! what was committed before its term, and members never hold different
//! entries at an index both have committed.
use vstd::prelude::*;
use crate::protocol::event::EventView;
use crate::protocol::types::NodeId;
use crate::raft::cluster::{
    election_safety, enabled, initial, inv, law_initial_cluster_satisfies_invariant,
    law_invariant_gives_election_safety, law_restart_preserves_invariant,
    law_step_preserves_invariant, next, restart, ClusterView,
};
use crate::raft::commit_step::law_step_preserves_commit_invariant;
use crate::raft::commitment::{
    applied_committed, commit_inv, committed_agree, commits_in_logs, law_commit_invariant_gives_state_machine_safety,
    law_initial_cluster_satisfies_commit_invariant, law_restart_preserves_commit_invariant,
    leaders_complete,
};
use crate::raft::log_matching::{
    law_initial_cluster_satisfies_log_invariant, law_log_invariant_gives_log_matching,
    law_restart_preserves_log_invariant, law_step_preserves_log_invariant, log_inv, log_matching,
};

verus! {

/// One move of a run: a node takes an event, or a node crashes and
/// restarts from its persisted state.
pub enum Transition {
    Step(NodeId, EventView),
    Restart(NodeId),
}

/// The cluster after a move.
pub open spec fn after(c: ClusterView, t: Transition) -> ClusterView {
    match t {
        Transition::Step(n, e) => next(c, n, e),
        Transition::Restart(n) => restart(c, n),
    }
}

/// The move can happen in `c`: the node takes an event it can take, or a
/// member restarts.
pub open spec fn allowed(c: ClusterView, t: Transition) -> bool {
    match t {
        Transition::Step(n, e) => enabled(c, n, e),
        Transition::Restart(n) => c.members.contains(n),
    }
}

/// The cluster after the moves of `steps`, in order, starting from `c`.
pub open spec fn run(c: ClusterView, steps: Seq<Transition>) -> ClusterView
    decreases steps.len(),
{
    if steps.len() == 0 {
        c
    } else {
        after(run(c, steps.drop_last()), steps.last())
    }
}

/// Every move of the run can happen at its point.
pub open spec fn run_enabled(c: ClusterView, steps: Seq<Transition>) -> bool {
    forall|i: int| 0 <= i < steps.len() ==> allowed(run(c, #[trigger] steps.take(i)), steps[i])
}

proof fn lemma_run_keeps_invariants(c: ClusterView, steps: Seq<Transition>)
    requires
        inv(c),
        log_inv(c),
        commit_inv(c),
        run_enabled(c, steps),
    ensures
        inv(run(c, steps)),
        log_inv(run(c, steps)),
        commit_inv(run(c, steps)),
    decreases steps.len(),
{
    if steps.len() > 0 {
        let init = steps.drop_last();
        assert forall|i: int| 0 <= i < init.len() implies allowed(
            run(c, #[trigger] init.take(i)),
            init[i],
        ) by {
            assert(init.take(i) =~= steps.take(i));
        }
        lemma_run_keeps_invariants(c, init);
        let k = steps.len() - 1;
        assert(steps.take(k) =~= init);
        assert(allowed(run(c, steps.take(k)), steps[k]));
        match steps.last() {
            Transition::Step(n, e) => {
                law_step_preserves_invariant(run(c, init), n, e);
                law_step_preserves_log_invariant(run(c, init), n, e);
                law_step_preserves_commit_invariant(run(c, init), n, e);
            },
            Transition::Restart(n) => {
                law_restart_preserves_invariant(run(c, init), n);
                law_restart_preserves_log_invariant(run(c, init), n);
                law_restart_preserves_commit_invariant(run(c, init), n);
            },
        }
    }
}

/// Election Safety and Log Matching hold after every run from a freshly
/// started cluster, crashes and restarts from persisted state included: at
/// most one leader per term, every log indexed by position, and two logs
/// holding an entry with the same index and term agree on every entry up
/// to it.
pub proof fn law_runs_are_safe(c: ClusterView, steps: Seq<Transition>)
    requires
        initial(c),
        run_enabled(c, steps),
    ensures
        election_safety(run(c, steps)),
        log_matching(run(c, steps)),
{
    law_initial_cluster_satisfies_invariant(c);
    law_initial_cluster_satisfies_log_invariant(c);
    law_initial_cluster_satisfies_commit_invariant(c);
    lemma_run_keeps_invariants(c, steps);
    law_invariant_gives_election_safety(run(c, steps));
    law_log_invariant_gives_log_matching(run(c, steps));
}

/// State Machine Safety and Leader Completeness hold after every run from a
/// freshly started cluster, crashes and restarts from persisted state
/// included: every member has applied exactly the entries it committed, and
/// never committed past its log; wherever two members have both committed
/// an index, both logs hold it with the same entry, so they applied the
/// same command there; and every leader's log starts with every piece of
/// log a quorum acknowledged in an earlier term.
pub proof fn law_runs_apply_the_same_commands(c: ClusterView, steps: Seq<Transition>)
    requires
        initial(c),
        run_enabled(c, steps),
    ensures
        applied_committed(run(c, steps)),
        committed_agree(run(c, steps)),
        commits_in_logs(run(c, steps)),
        leaders_complete(run(c, steps)),
{
    law_initial_cluster_satisfies_invariant(c);
    law_initial_cluster_satisfies_log_invariant(c);
    law_initial_cluster_satisfies_commit_invariant(c);
    lemma_run_keeps_invariants(c, steps);
    law_commit_invariant_gives_state_machine_safety(run(c, steps));
}

} // verus!
