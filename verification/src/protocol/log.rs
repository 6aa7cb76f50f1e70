use vstd::prelude::*;
use crate::protocol::command::Command;
use crate::protocol::types::{LogIndex, Term};

verus! {

/// One replicated log entry: the command and the term in which the leader
/// received it, stored together with its log index.
#[derive(Debug)]
pub struct LogEntry {
    pub term: Term,
    pub index: LogIndex,
    pub command: Command,
}

impl Clone for LogEntry {
    fn clone(&self) -> (res: Self)
        ensures
            res == *self,
    {
        LogEntry { term: self.term, index: self.index, command: self.command.clone() }
    }
}

} // verus!

verus! {

/// Index of the last entry of `log`, or 0 when it is empty.
pub open spec fn last_index(log: Seq<LogEntry>) -> LogIndex {
    if log.len() == 0 { 0 } else { log.last().index }
}

/// Term of the last entry of `log`, or 0 when it is empty.
pub open spec fn last_term(log: Seq<LogEntry>) -> Term {
    if log.len() == 0 { 0 } else { log.last().term }
}

/// `p` is the first position of `log` whose entry carries index `idx`.
pub open spec fn is_first_pos(log: Seq<LogEntry>, idx: LogIndex, p: int) -> bool {
    &&& 0 <= p < log.len()
    &&& log[p].index == idx
    &&& forall|q: int| 0 <= q < p ==> #[trigger] log[q].index != idx
}

/// The first position of `log` whose entry carries index `idx`, if any.
pub open spec fn first_pos(log: Seq<LogEntry>, idx: LogIndex) -> Option<int> {
    if exists|p: int| is_first_pos(log, idx, p) {
        Some(choose|p: int| is_first_pos(log, idx, p))
    } else {
        None
    }
}

/// The entry that a search from the front for index `idx` finds first.
pub open spec fn entry_with_index(log: Seq<LogEntry>, idx: LogIndex) -> Option<LogEntry> {
    match first_pos(log, idx) {
        Some(p) => Some(log[p]),
        None => None,
    }
}

/// The log holds an entry with index `idx` and term `term`; index 0 stands
/// for the empty prefix and always matches.
pub open spec fn log_matches_at(log: Seq<LogEntry>, idx: LogIndex, term: Term) -> bool {
    idx == 0 || exists|p: int| 0 <= p < log.len() && log[p].index == idx && log[p].term == term
}

/// A first position is unique: the one `first_pos` picks is the one found.
pub proof fn lemma_first_pos_found(log: Seq<LogEntry>, idx: LogIndex, p: int)
    requires
        is_first_pos(log, idx, p),
    ensures
        first_pos(log, idx) == Some(p),
{
    let c = choose|c: int| is_first_pos(log, idx, c);
    assert(is_first_pos(log, idx, c));
    if c < p {
        assert(log[c].index != idx);
    } else if p < c {
        assert(log[p].index != idx);
    }
}

/// No entry carries `idx`: the search finds nothing.
pub proof fn lemma_first_pos_absent(log: Seq<LogEntry>, idx: LogIndex)
    requires
        forall|q: int| 0 <= q < log.len() ==> #[trigger] log[q].index != idx,
    ensures
        first_pos(log, idx) is None,
{
    if exists|p: int| is_first_pos(log, idx, p) {
        let p = choose|p: int| is_first_pos(log, idx, p);
        assert(log[p].index != idx);
    }
}

/// Linear search from the front for the first entry with index `idx`.
pub fn find_position(log: &Vec<LogEntry>, idx: LogIndex) -> (res: Option<usize>)
    ensures
        match res {
            Some(p) => first_pos(log@, idx) == Some(p as int),
            None => first_pos(log@, idx) is None,
        },
{
    let mut j: usize = 0;
    while j < log.len()
        invariant
            j <= log.len(),
            forall|q: int| 0 <= q < j ==> #[trigger] log@[q].index != idx,
        decreases log.len() - j,
    {
        if log[j].index == idx {
            proof {
                lemma_first_pos_found(log@, idx, j as int);
            }
            return Some(j);
        }
        j = j + 1;
    }
    proof {
        lemma_first_pos_absent(log@, idx);
    }
    None
}

} // verus!
