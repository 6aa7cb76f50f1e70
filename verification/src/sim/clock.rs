use vstd::prelude::*;

verus! {

/// Simulated microseconds per auto-advance tick by default (1:1 speed).
pub const DEFAULT_STEP_US: u64 = 10000;

/// Bounds of the clock speed, in simulated microseconds per tick.
pub const MIN_STEP_US: u64 = 1;
pub const MAX_STEP_US: u64 = 10_000;

/// A sleeper waiting on the clock: its deadline and the token by which the
/// runtime finds its waker again.
pub type Sleeper = (u64, u64);

/// Number of leading sleepers whose deadline is at most `t`.
pub open spec fn due_prefix(s: Seq<Sleeper>, t: u64) -> nat
    decreases s.len(),
{
    if s.len() == 0 {
        0
    } else if s[0].0 <= t {
        1 + due_prefix(s.drop_first(), t)
    } else {
        0
    }
}

/// Sleepers are kept in order of deadline.
pub open spec fn sorted_by_deadline(s: Seq<Sleeper>) -> bool {
    forall|i: int, j: int| 0 <= i <= j < s.len() ==> s[i].0 <= s[j].0
}

/// The tokens of a list of sleepers.
pub open spec fn tokens(s: Seq<Sleeper>) -> Seq<u64> {
    s.map_values(|e: Sleeper| e.1)
}

/// In a deadline-sorted list, the due prefix is exactly the sleepers whose
/// deadline is at most `t`.
pub proof fn lemma_due_prefix_splits(s: Seq<Sleeper>, t: u64)
    requires
        sorted_by_deadline(s),
    ensures
        due_prefix(s, t) <= s.len(),
        forall|i: int| 0 <= i < due_prefix(s, t) ==> #[trigger] s[i].0 <= t,
        forall|i: int| due_prefix(s, t) <= i < s.len() ==> #[trigger] s[i].0 > t,
    decreases s.len(),
{
    if s.len() > 0 && s[0].0 <= t {
        let r = s.drop_first();
        assert(sorted_by_deadline(r));
        lemma_due_prefix_splits(r, t);
        assert forall|i: int| 0 <= i < due_prefix(s, t) implies #[trigger] s[i].0 <= t by {
            if i > 0 {
                assert(s[i] == r[i - 1]);
            }
        }
        assert forall|i: int| due_prefix(s, t) <= i < s.len() implies #[trigger] s[i].0 > t by {
            assert(s[i] == r[i - 1]);
        }
    } else if s.len() > 0 {
        assert forall|i: int| 0 <= i < s.len() implies #[trigger] s[i].0 > t by {
            assert(s[0].0 <= s[i].0);
        }
    }
}

/// If the first `j` sleepers are due and the next one (if any) is not,
/// the due prefix has length `j`.
proof fn lemma_due_prefix_at(s: Seq<Sleeper>, t: u64, j: int)
    requires
        0 <= j <= s.len(),
        forall|i: int| 0 <= i < j ==> #[trigger] s[i].0 <= t,
        j < s.len() ==> s[j].0 > t,
    ensures
        due_prefix(s, t) == j,
    decreases j,
{
    if j > 0 {
        let r = s.drop_first();
        assert forall|i: int| 0 <= i < j - 1 implies #[trigger] r[i].0 <= t by {
            assert(r[i] == s[i + 1]);
        }
        if j - 1 < r.len() {
            assert(r[j - 1] == s[j]);
        }
        lemma_due_prefix_at(r, t, j - 1);
    }
}

/// A deterministic clock whose time only advances when `tick` is called.
///
/// The speed is how many simulated microseconds each auto-advance tick
/// adds; it stays within `[MIN_STEP_US, MAX_STEP_US]`.
pub struct SimulatedClock {
    now_us: u64,
    paused: bool,
    step_us: u64,
    /// Sleepers in order of deadline; equal deadlines in order of arrival.
    sleepers: Vec<Sleeper>,
}

impl SimulatedClock {
    pub closed spec fn now(&self) -> u64 {
        self.now_us
    }

    pub closed spec fn paused_spec(&self) -> bool {
        self.paused
    }

    pub closed spec fn step(&self) -> u64 {
        self.step_us
    }

    pub closed spec fn sleepers_spec(&self) -> Seq<Sleeper> {
        self.sleepers@
    }

    pub open spec fn wf(&self) -> bool {
        &&& sorted_by_deadline(self.sleepers_spec())
        &&& MIN_STEP_US <= self.step() <= MAX_STEP_US
    }

    /// Time 0, running, default speed, nobody asleep.
    pub fn new() -> (c: Self)
        ensures
            c.wf(),
            c.now() == 0,
            !c.paused_spec(),
            c.step() == DEFAULT_STEP_US,
            c.sleepers_spec().len() == 0,
    {
        SimulatedClock { now_us: 0, paused: false, step_us: DEFAULT_STEP_US, sleepers: Vec::new() }
    }

    /// Current simulated time in microseconds.
    pub fn now_us(&self) -> (t: u64)
        ensures
            t == self.now(),
    {
        self.now_us
    }

    pub fn pause(&mut self)
        ensures
            final(self).paused_spec(),
            final(self).now() == old(self).now(),
            final(self).step() == old(self).step(),
            final(self).sleepers_spec() == old(self).sleepers_spec(),
    {
        self.paused = true;
    }

    pub fn resume(&mut self)
        ensures
            !final(self).paused_spec(),
            final(self).now() == old(self).now(),
            final(self).step() == old(self).step(),
            final(self).sleepers_spec() == old(self).sleepers_spec(),
    {
        self.paused = false;
    }

    pub fn is_paused(&self) -> (p: bool)
        ensures
            p == self.paused_spec(),
    {
        self.paused
    }

    /// Simulated microseconds added per auto-advance tick.
    pub fn speed_us(&self) -> (s: u64)
        ensures
            s == self.step(),
    {
        self.step_us
    }

    /// Set the clock speed, clamped to `[MIN_STEP_US, MAX_STEP_US]`.
    pub fn set_speed_us(&mut self, us: u64)
        ensures
            final(self).step() == if us < MIN_STEP_US {
                MIN_STEP_US
            } else if us > MAX_STEP_US {
                MAX_STEP_US
            } else {
                us
            },
            final(self).now() == old(self).now(),
            final(self).paused_spec() == old(self).paused_spec(),
            final(self).sleepers_spec() == old(self).sleepers_spec(),
    {
        self.step_us = if us < MIN_STEP_US {
            MIN_STEP_US
        } else if us > MAX_STEP_US {
            MAX_STEP_US
        } else {
            us
        };
    }

    /// Advance the clock by `us` simulated microseconds and hand back, in
    /// order of deadline, the tokens of every sleeper whose deadline has now
    /// passed; they stop waiting.
    pub fn tick(&mut self, us: u64) -> (woken: Vec<u64>)
        requires
            old(self).wf(),
            old(self).now() + us <= u64::MAX,
        ensures
            final(self).wf(),
            final(self).now() == old(self).now() + us,
            ({
                let k = due_prefix(old(self).sleepers_spec(), final(self).now());
                &&& woken@ == tokens(old(self).sleepers_spec().take(k as int))
                &&& final(self).sleepers_spec() == old(self).sleepers_spec().skip(k as int)
            }),
            final(self).paused_spec() == old(self).paused_spec(),
            final(self).step() == old(self).step(),
    {
        let new_now = self.now_us + us;
        self.now_us = new_now;
        let ghost all = self.sleepers@;
        assert(all.len() == self.sleepers.len());
        let mut woken: Vec<u64> = Vec::new();
        let mut k: usize = 0;
        while self.sleepers.len() > 0 && self.sleepers[0].0 <= new_now
            invariant
                self.wf(),
                self.now_us == new_now,
                self.paused == old(self).paused,
                self.step_us == old(self).step_us,
                all == old(self).sleepers@,
                all.len() <= usize::MAX,
                k <= all.len(),
                self.sleepers@ == all.skip(k as int),
                woken@ == tokens(all.take(k as int)),
                due_prefix(all, new_now) == k + due_prefix(self.sleepers@, new_now),
            decreases self.sleepers.len(),
        {
            let ghost before = self.sleepers@;
            let e = self.sleepers.remove(0);
            woken.push(e.1);
            proof {
                assert(self.sleepers@ =~= before.drop_first());
                assert(all.skip(k + 1) =~= all.skip(k as int).drop_first());
                assert(all.take(k + 1) =~= all.take(k as int).push(e));
                assert(tokens(all.take(k + 1)) =~= tokens(all.take(k as int)).push(e.1));
                assert forall|i: int, j: int|
                    0 <= i <= j < self.sleepers@.len() implies self.sleepers@[i].0
                    <= self.sleepers@[j].0 by {
                    assert(self.sleepers@[i] == before[i + 1]);
                    assert(self.sleepers@[j] == before[j + 1]);
                }
            }
            k = k + 1;
        }
        woken
    }

    /// Register a sleeper with `deadline_us` under `token`, after every
    /// sleeper with an earlier or equal deadline.
    pub fn register_waker(&mut self, deadline_us: u64, token: u64)
        requires
            old(self).wf(),
        ensures
            final(self).wf(),
            final(self).sleepers_spec() == old(self).sleepers_spec().insert(
                due_prefix(old(self).sleepers_spec(), deadline_us) as int,
                (deadline_us, token),
            ),
            final(self).now() == old(self).now(),
            final(self).paused_spec() == old(self).paused_spec(),
            final(self).step() == old(self).step(),
    {
        let mut j: usize = 0;
        while j < self.sleepers.len() && self.sleepers[j].0 <= deadline_us
            invariant
                j <= self.sleepers@.len(),
                forall|i: int| 0 <= i < j ==> #[trigger] self.sleepers@[i].0 <= deadline_us,
            decreases self.sleepers.len() - j,
        {
            j = j + 1;
        }
        proof {
            lemma_due_prefix_at(self.sleepers@, deadline_us, j as int);
            lemma_due_prefix_splits(self.sleepers@, deadline_us);
        }
        let ghost before = self.sleepers@;
        self.sleepers.insert(j, (deadline_us, token));
        proof {
            let s = self.sleepers@;
            assert forall|a: int, b: int| 0 <= a <= b < s.len() implies s[a].0 <= s[b].0 by {
                if a < j && b < j {
                } else if a < j && b == j {
                } else if a < j {
                    assert(s[b] == before[b - 1]);
                } else if a == j && b == j {
                } else if a == j {
                    assert(s[b] == before[b - 1]);
                } else {
                    assert(s[a] == before[a - 1]);
                    assert(s[b] == before[b - 1]);
                }
            }
        }
    }
}

impl Default for SimulatedClock {
    fn default() -> (c: Self)
        ensures
            c.wf(),
            c.now() == 0,
            !c.paused_spec(),
            c.step() == DEFAULT_STEP_US,
            c.sleepers_spec().len() == 0,
    {
        Self::new()
    }
}

/// A tick wakes exactly the sleepers that are due: every woken sleeper's
/// deadline is at most the new time and every remaining one's is later.
pub proof fn law_tick_wakes_exactly_the_due(s: Seq<Sleeper>, now: u64)
    requires
        sorted_by_deadline(s),
    ensures
        forall|i: int| 0 <= i < due_prefix(s, now) ==> #[trigger] s.take(due_prefix(s, now) as int)[i].0 <= now,
        forall|i: int| 0 <= i < s.skip(due_prefix(s, now) as int).len() ==> #[trigger] s.skip(due_prefix(s, now) as int)[i].0 > now,
        s.take(due_prefix(s, now) as int) + s.skip(due_prefix(s, now) as int) == s,
{
    lemma_due_prefix_splits(s, now);
    assert(s.take(due_prefix(s, now) as int) + s.skip(due_prefix(s, now) as int) =~= s);
}

} // verus!
