//! What the UI panels show, computed from metrics snapshots; drawing them
//! is left to the terminal front end.
use vstd::prelude::*;
use crate::protocol::types::NodeId;
use crate::raft::Role;
use crate::runtime::metrics::{MessageEvent, MetricsSnapshot};

verus! {

/// How many messages the message panel shows at most.
pub const MESSAGE_PANEL_CAP: usize = 200;

// ── cluster overview ─────────────────────────────────────────────────────────

/// The figures the overview shows for a live node.
#[derive(Debug, Clone, Copy, PartialEq, Eq, Structural)]
pub struct NodeSummary {
    pub role: Role,
    pub term: u64,
    pub commit_index: u64,
    pub last_applied: u64,
    pub log_length: u64,
}

/// One line of the overview: the node, whether it is the selected one, and
/// its figures (`None` for a dead node).
#[derive(Debug, Clone, Copy, PartialEq, Eq, Structural)]
pub struct OverviewRow {
    pub node_id: NodeId,
    pub selected: bool,
    pub summary: Option<NodeSummary>,
}

pub open spec fn summary_of(s: MetricsSnapshot) -> NodeSummary {
    NodeSummary {
        role: s.role,
        term: s.term,
        commit_index: s.commit_index,
        last_applied: s.last_applied,
        log_length: s.log_length,
    }
}

pub open spec fn row_of(entry: (NodeId, Option<MetricsSnapshot>), selected: bool) -> OverviewRow {
    OverviewRow {
        node_id: entry.0,
        selected,
        summary: match entry.1 {
            Some(s) => Some(summary_of(s)),
            None => None,
        },
    }
}

/// The cluster table: one row per node, live nodes with their figures.
pub struct ClusterOverview<'a> {
    snapshots: &'a [(NodeId, Option<MetricsSnapshot>)],
    selected: usize,
}

impl<'a> ClusterOverview<'a> {
    /// `snapshots` holds `(node_id, Some(snapshot))` for live nodes and
    /// `(node_id, None)` for dead ones.
    pub fn new(snapshots: &'a [(NodeId, Option<MetricsSnapshot>)], selected: usize) -> (o: Self)
        ensures
            o.snapshots_spec() == snapshots@,
            o.selected_spec() == selected,
    {
        ClusterOverview { snapshots, selected }
    }

    pub closed spec fn snapshots_spec(&self) -> Seq<(NodeId, Option<MetricsSnapshot>)> {
        self.snapshots@
    }

    pub closed spec fn selected_spec(&self) -> usize {
        self.selected
    }

    /// The rows of the table, in the order of the snapshots.
    pub fn rows(&self) -> (rows: Vec<OverviewRow>)
        ensures
            rows@.len() == self.snapshots_spec().len(),
            forall|i: int|
                0 <= i < rows@.len() ==> #[trigger] rows@[i] == row_of(
                    self.snapshots_spec()[i],
                    i == self.selected_spec(),
                ),
    {
        let mut rows: Vec<OverviewRow> = Vec::new();
        let mut i: usize = 0;
        while i < self.snapshots.len()
            invariant
                i <= self.snapshots@.len(),
                rows@.len() == i,
                forall|j: int|
                    0 <= j < i ==> #[trigger] rows@[j] == row_of(self.snapshots@[j], j == self.selected),
            decreases self.snapshots.len() - i,
        {
            let summary = match &self.snapshots[i].1 {
                Some(s) => Some(
                    NodeSummary {
                        role: s.role,
                        term: s.term,
                        commit_index: s.commit_index,
                        last_applied: s.last_applied,
                        log_length: s.log_length,
                    },
                ),
                None => None,
            };
            rows.push(OverviewRow { node_id: self.snapshots[i].0, selected: i == self.selected, summary });
            i = i + 1;
        }
        rows
    }
}

// ── log view ─────────────────────────────────────────────────────────────────

/// The state of a log position: applied (hence committed), committed but
/// not applied, or neither.
#[derive(Debug, Clone, Copy, PartialEq, Eq, Structural)]
pub enum Marker {
    Applied,
    Committed,
    Pending,
}

/// One line of the log view.
#[derive(Debug, Clone, Copy, PartialEq, Eq, Structural)]
pub struct LogRow {
    pub index: u64,
    pub marker: Marker,
}

pub open spec fn marker_of(index: u64, commit: u64, applied: u64) -> Marker {
    if index <= commit && index <= applied {
        Marker::Applied
    } else if index <= commit {
        Marker::Committed
    } else {
        Marker::Pending
    }
}

/// The log of the selected node, entry by entry (nothing for a dead node).
pub struct LogView<'a> {
    snap: Option<&'a MetricsSnapshot>,
}

impl<'a> LogView<'a> {
    pub fn new(snap: Option<&'a MetricsSnapshot>) -> (v: Self)
        ensures
            v.snapshot_spec() == snap,
    {
        LogView { snap }
    }

    pub closed spec fn snapshot_spec(&self) -> Option<&'a MetricsSnapshot> {
        self.snap
    }

    /// The snapshot shown, if the node is alive.
    pub fn snapshot(&self) -> (s: Option<&'a MetricsSnapshot>)
        ensures
            s == self.snapshot_spec(),
    {
        self.snap
    }

    /// One row per log index `1..=log_length`, marked by how far it has
    /// progressed; `None` for a dead node.
    pub fn rows(&self) -> (rows: Option<Vec<LogRow>>)
        ensures
            match self.snapshot_spec() {
                None => rows is None,
                Some(s) => rows matches Some(r) && r@.len() == s.log_length && forall|i: int|
                    0 <= i < r@.len() ==> #[trigger] r@[i] == (LogRow {
                        index: (i + 1) as u64,
                        marker: marker_of((i + 1) as u64, s.commit_index, s.last_applied),
                    }),
            },
    {
        match self.snap {
            None => None,
            Some(snap) => {
                let length = snap.log_length;
                let commit = snap.commit_index;
                let applied = snap.last_applied;
                let mut rows: Vec<LogRow> = Vec::new();
                let mut idx: u64 = 0;
                while idx < length
                    invariant
                        idx <= length,
                        rows@.len() == idx,
                        forall|i: int|
                            0 <= i < rows@.len() ==> #[trigger] rows@[i] == (LogRow {
                                index: (i + 1) as u64,
                                marker: marker_of((i + 1) as u64, commit, applied),
                            }),
                    decreases length - idx,
                {
                    idx = idx + 1;
                    let marker = if idx <= commit && idx <= applied {
                        Marker::Applied
                    } else if idx <= commit {
                        Marker::Committed
                    } else {
                        Marker::Pending
                    };
                    rows.push(LogRow { index: idx, marker });
                }
                Some(rows)
            },
        }
    }
}

// ── message log ──────────────────────────────────────────────────────────────

/// Every recorded message of every snapshot, snapshot by snapshot.
pub open spec fn all_messages(snaps: Seq<MetricsSnapshot>) -> Seq<MessageEvent>
    decreases snaps.len(),
{
    if snaps.len() == 0 {
        Seq::empty()
    } else {
        all_messages(snaps.drop_last()) + snaps.last().message_log@
    }
}

/// Number of leading events with a tick of at least `t`.
pub open spec fn newer_prefix(s: Seq<MessageEvent>, t: u64) -> nat
    decreases s.len(),
{
    if s.len() == 0 {
        0
    } else if s[0].tick >= t {
        1 + newer_prefix(s.drop_first(), t)
    } else {
        0
    }
}

/// Insert `e` after every leading event at least as recent.
pub open spec fn insert_newest_first(s: Seq<MessageEvent>, e: MessageEvent) -> Seq<MessageEvent> {
    s.insert(newer_prefix(s, e.tick) as int, e)
}

/// Stable sort, newest first: events with equal ticks keep their order.
pub open spec fn newest_first(s: Seq<MessageEvent>) -> Seq<MessageEvent>
    decreases s.len(),
{
    if s.len() == 0 {
        s
    } else {
        insert_newest_first(newest_first(s.drop_last()), s.last())
    }
}

pub open spec fn sorted_newest_first(s: Seq<MessageEvent>) -> bool {
    forall|i: int, j: int| 0 <= i <= j < s.len() ==> s[i].tick >= s[j].tick
}

proof fn lemma_newer_prefix_at(s: Seq<MessageEvent>, t: u64, j: int)
    requires
        0 <= j <= s.len(),
        forall|i: int| 0 <= i < j ==> #[trigger] s[i].tick >= t,
        j < s.len() ==> s[j].tick < t,
    ensures
        newer_prefix(s, t) == j,
    decreases j,
{
    if j > 0 {
        let r = s.drop_first();
        assert forall|i: int| 0 <= i < j - 1 implies #[trigger] r[i].tick >= t by {
            assert(r[i] == s[i + 1]);
        }
        if j - 1 < r.len() {
            assert(r[j - 1] == s[j]);
        }
        lemma_newer_prefix_at(r, t, j - 1);
    }
}

proof fn lemma_newer_prefix_splits(s: Seq<MessageEvent>, t: u64)
    requires
        sorted_newest_first(s),
    ensures
        newer_prefix(s, t) <= s.len(),
        forall|i: int| 0 <= i < newer_prefix(s, t) ==> #[trigger] s[i].tick >= t,
        forall|i: int| newer_prefix(s, t) <= i < s.len() ==> #[trigger] s[i].tick < t,
    decreases s.len(),
{
    if s.len() > 0 && s[0].tick >= t {
        let r = s.drop_first();
        lemma_newer_prefix_splits(r, t);
        assert forall|i: int| 0 <= i < newer_prefix(s, t) implies #[trigger] s[i].tick >= t by {
            if i > 0 {
                assert(s[i] == r[i - 1]);
            }
        }
        assert forall|i: int| newer_prefix(s, t) <= i < s.len() implies #[trigger] s[i].tick < t by {
            assert(s[i] == r[i - 1]);
        }
    } else if s.len() > 0 {
        assert forall|i: int| 0 <= i < s.len() implies #[trigger] s[i].tick < t by {
            assert(s[0].tick >= s[i].tick);
        }
    }
}

/// The events a message panel lists: all of them, newest first (a stable
/// sort), the first `MESSAGE_PANEL_CAP` only.
pub open spec fn panel_events(snaps: Seq<MetricsSnapshot>) -> Seq<MessageEvent> {
    let sorted = newest_first(all_messages(snaps));
    if sorted.len() > MESSAGE_PANEL_CAP { sorted.take(MESSAGE_PANEL_CAP as int) } else { sorted }
}

/// The message panel: recent messages of all nodes, newest first.
pub struct MessageLog<'a> {
    snapshots: &'a [MetricsSnapshot],
}

impl<'a> MessageLog<'a> {
    pub fn new(snapshots: &'a [MetricsSnapshot]) -> (m: Self)
        ensures
            m.snapshots_spec() == snapshots@,
    {
        MessageLog { snapshots }
    }

    pub closed spec fn snapshots_spec(&self) -> Seq<MetricsSnapshot> {
        self.snapshots@
    }

    /// Every recorded message of every node, newest first (equal ticks keep
    /// their order), at most `MESSAGE_PANEL_CAP` of them.
    pub fn events(&self) -> (events: Vec<MessageEvent>)
        ensures
            events@ == panel_events(self.snapshots_spec()),
    {
        // Collect all message events from all nodes.
        let mut all: Vec<MessageEvent> = Vec::new();
        let mut k: usize = 0;
        while k < self.snapshots.len()
            invariant
                k <= self.snapshots@.len(),
                all@ == all_messages(self.snapshots@.take(k as int)),
            decreases self.snapshots.len() - k,
        {
            let log = &self.snapshots[k].message_log;
            let ghost base = all@;
            let mut j: usize = 0;
            while j < log.len()
                invariant
                    j <= log@.len(),
                    all@ == base + log@.take(j as int),
                decreases log.len() - j,
            {
                all.push(log[j].clone());
                proof {
                    assert(log@.take(j + 1) =~= log@.take(j as int).push(log@[j as int]));
                    assert(base + log@.take(j + 1) =~= (base + log@.take(j as int)).push(log@[j as int]));
                }
                j = j + 1;
            }
            proof {
                let t1 = self.snapshots@.take(k + 1);
                assert(t1.drop_last() =~= self.snapshots@.take(k as int));
                assert(t1.last() == self.snapshots@[k as int]);
                assert(log@.take(j as int) =~= log@);
            }
            k = k + 1;
        }
        proof {
            assert(self.snapshots@.take(k as int) =~= self.snapshots@);
        }
        // Stable insertion sort, newest first.
        let mut sorted: Vec<MessageEvent> = Vec::new();
        let mut i: usize = 0;
        while i < all.len()
            invariant
                i <= all@.len(),
                sorted@ == newest_first(all@.take(i as int)),
            decreases all.len() - i,
        {
            let tick = all[i].tick;
            let mut p: usize = 0;
            while p < sorted.len() && sorted[p].tick >= tick
                invariant
                    p <= sorted@.len(),
                    forall|q: int| 0 <= q < p ==> #[trigger] sorted@[q].tick >= tick,
                decreases sorted.len() - p,
            {
                p = p + 1;
            }
            proof {
                lemma_newer_prefix_at(sorted@, tick, p as int);
                let t1 = all@.take(i + 1);
                assert(t1.drop_last() =~= all@.take(i as int));
                assert(t1.last() == all@[i as int]);
            }
            sorted.insert(p, all[i].clone());
            i = i + 1;
        }
        proof {
            assert(all@.take(i as int) =~= all@);
        }
        sorted.truncate(MESSAGE_PANEL_CAP);
        sorted
    }
}

/// The message panel is ordered newest first and loses no message below
/// its cap: sorting keeps every event and puts later ticks first.
pub proof fn law_newest_first_is_sorted(s: Seq<MessageEvent>)
    ensures
        sorted_newest_first(newest_first(s)),
        newest_first(s).len() == s.len(),
        newest_first(s).to_multiset() == s.to_multiset(),
    decreases s.len(),
{
    if s.len() > 0 {
        let r = newest_first(s.drop_last());
        law_newest_first_is_sorted(s.drop_last());
        let e = s.last();
        let p = newer_prefix(r, e.tick);
        lemma_newer_prefix_splits(r, e.tick);
        let out = r.insert(p as int, e);
        assert forall|a: int, b: int| 0 <= a <= b < out.len() implies out[a].tick >= out[b].tick by {
            if a < p && b < p {
            } else if a < p && b == p {
            } else if a < p {
                assert(out[b] == r[b - 1]);
            } else if a == p && b == p {
            } else if a == p {
                assert(out[b] == r[b - 1]);
            } else {
                assert(out[a] == r[a - 1]);
                assert(out[b] == r[b - 1]);
            }
        }
        vstd::seq_lib::to_multiset_insert(r, p as int, e);
        vstd::seq_lib::to_multiset_build(s.drop_last(), e);
        vstd::seq_lib::to_multiset_len(s.drop_last());
        assert(s =~= s.drop_last().push(e));
    }
}

// ── label kinds ──────────────────────────────────────────────────────────────

/// The kind of message a label names (it decides the label's colour).
#[derive(Debug, Clone, Copy, PartialEq, Eq, Structural)]
pub enum LabelKind {
    RequestVote,
    VoteResponse,
    AppendEntries,
    AppendEntriesResponse,
}

pub open spec fn has_prefix(s: Seq<char>, p: Seq<char>) -> bool {
    p.len() <= s.len() && s.take(p.len() as int) == p
}

/// Kind of a label by its prefix; anything unrecognised counts as an
/// `AppendEntriesResponse`.
pub open spec fn label_kind_spec(label: Seq<char>) -> LabelKind {
    if has_prefix(label, "RequestVote("@) {
        LabelKind::RequestVote
    } else if has_prefix(label, "VoteResp"@) {
        LabelKind::VoteResponse
    } else if has_prefix(label, "AppendEntries("@) {
        LabelKind::AppendEntries
    } else {
        LabelKind::AppendEntriesResponse
    }
}

fn starts_with(s: &str, p: &str) -> (r: bool)
    ensures
        r == has_prefix(s@, p@),
{
    let n = p.unicode_len();
    if n > s.unicode_len() {
        return false;
    }
    let mut i: usize = 0;
    while i < n
        invariant
            n == p@.len(),
            n <= s@.len(),
            i <= n,
            forall|q: int| 0 <= q < i ==> s@[q] == p@[q],
        decreases n - i,
    {
        if s.get_char(i) != p.get_char(i) {
            proof {
                assert(s@.take(n as int)[i as int] != p@[i as int]);
            }
            return false;
        }
        i = i + 1;
    }
    proof {
        assert(s@.take(n as int) =~= p@);
    }
    true
}

/// Kind of a message label, by its prefix.
pub fn label_kind(label: &String) -> (k: LabelKind)
    ensures
        k == label_kind_spec(label@),
{
    let s = label.as_str();
    if starts_with(s, "RequestVote(") {
        LabelKind::RequestVote
    } else if starts_with(s, "VoteResp") {
        LabelKind::VoteResponse
    } else if starts_with(s, "AppendEntries(") {
        LabelKind::AppendEntries
    } else {
        LabelKind::AppendEntriesResponse
    }
}

} // verus!
