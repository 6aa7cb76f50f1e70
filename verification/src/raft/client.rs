use vstd::prelude::*;
use crate::protocol::action::{actions_view, Action, ActionView};
use crate::protocol::command::Command;
use crate::protocol::log::{last_index, LogEntry};
use crate::raft::model;
use crate::raft::{Raft, Role};

verus! {

impl Raft {
    /// Handle a command submitted by a client.
    ///
    /// A leader appends the command with the current term at the next index
    /// and asks for an immediate `AppendEntries` broadcast
    /// (`ResetHeartbeatTimer`); without peers the entry is committed and
    /// applied at once. Any other node answers `NotLeader` with the leader
    /// it knows of.
    pub fn handle_client_request(&mut self, command: Command) -> (actions: Vec<Action>)
        requires
            old(self)@.role == Role::Leader ==> last_index(old(self)@.log) < u64::MAX,
        ensures
            (final(self)@, actions_view(actions@)) == model::client_request(old(self)@, command),
    {
        if self.role != Role::Leader {
            let a = vec![Action::NotLeader(self.known_leader)];
            proof { assert(actions_view(a@) =~= model::client_request(old(self)@, command).1); }
            return a;
        }
        let index = self.last_log_index() + 1;
        let term = self.persistent.current_term;
        self.persistent.log.push(LogEntry { index, term, command });
        let mut actions = vec![Action::ResetHeartbeatTimer];
        if self.peers.len() == 0 {
            let ghost head = actions@;
            let mut more = self.try_advance_commit_index();
            actions.append(&mut more);
            proof {
                assert(actions_view(actions@) =~= actions_view(head) + model::client_request(
                    old(self)@,
                    command,
                ).1.skip(1));
                assert(actions_view(actions@) =~= model::client_request(old(self)@, command).1);
            }
        } else {
            proof { assert(actions_view(actions@) =~= model::client_request(old(self)@, command).1); }
        }
        actions
    }
}

} // verus!
