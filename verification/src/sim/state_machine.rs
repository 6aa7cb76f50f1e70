use vstd::prelude::*;
use crate::protocol::command::{Command, Op};
use crate::runtime::state_machine::StateMachine;

verus! {

/// Entries of the store: key and value.
pub type Entry = (String, String);

/// No key occurs twice.
pub open spec fn keys_unique(d: Seq<Entry>) -> bool {
    forall|i: int, j: int| 0 <= i < d.len() && 0 <= j < d.len() && i != j ==> d[i].0@ != d[j].0@
}

/// Some entry has key `k`.
pub open spec fn has_key(d: Seq<Entry>, k: Seq<char>) -> bool {
    exists|i: int| 0 <= i < d.len() && #[trigger] d[i].0@ == k
}

/// The map from keys to values that the entries describe.
pub open spec fn kv_map(d: Seq<Entry>) -> Map<Seq<char>, Seq<char>> {
    Map::new(
        |k: Seq<char>| has_key(d, k),
        |k: Seq<char>| d[choose|i: int| 0 <= i < d.len() && #[trigger] d[i].0@ == k].1@,
    )
}

/// With unique keys, the entry at `i` gives the value of its key.
proof fn lemma_kv_at(d: Seq<Entry>, i: int)
    requires
        keys_unique(d),
        0 <= i < d.len(),
    ensures
        kv_map(d).contains_key(d[i].0@),
        kv_map(d)[d[i].0@] == d[i].1@,
{
    let k = d[i].0@;
    assert(has_key(d, k));
    let j = choose|j: int| 0 <= j < d.len() && #[trigger] d[j].0@ == k;
    assert(d[j].0@ == k);
    assert(j == i);
}

/// A simple in-memory key-value store, the application state machine of the
/// simulator: every committed `Command` is applied here in log order.
#[derive(Debug)]
pub struct KeyValueStore {
    data: Vec<Entry>,
}

impl KeyValueStore {
    #[verifier::type_invariant]
    spec fn inv(self) -> bool {
        keys_unique(self.data@)
    }

    /// An empty store.
    pub fn new() -> (s: Self)
        ensures
            s@ == Map::<Seq<char>, Seq<char>>::empty(),
    {
        let s = KeyValueStore { data: Vec::new() };
        proof {
            assert(kv_map(s.data@) =~= Map::<Seq<char>, Seq<char>>::empty());
        }
        s
    }
}

impl View for KeyValueStore {
    type V = Map<Seq<char>, Seq<char>>;

    closed spec fn view(&self) -> Map<Seq<char>, Seq<char>> {
        kv_map(self.data@)
    }
}

impl Default for KeyValueStore {
    fn default() -> (s: Self)
        ensures
            s@ == Map::<Seq<char>, Seq<char>>::empty(),
    {
        Self::new()
    }
}

/// Position of the entry with key `key`, if any.
fn find_key(d: &Vec<Entry>, key: &String) -> (r: Option<usize>)
    requires
        keys_unique(d@),
    ensures
        match r {
            Some(i) => i < d@.len() && d@[i as int].0@ == key@,
            None => !has_key(d@, key@),
        },
{
    let mut i: usize = 0;
    while i < d.len()
        invariant
            i <= d@.len(),
            forall|q: int| 0 <= q < i ==> #[trigger] d@[q].0@ != key@,
        decreases d.len() - i,
    {
        if d[i].0.eq(key) {
            return Some(i);
        }
        i = i + 1;
    }
    None
}

proof fn lemma_kv_update(d: Seq<Entry>, i: int, e: Entry)
    requires
        keys_unique(d),
        0 <= i < d.len(),
        d[i].0@ == e.0@,
    ensures
        keys_unique(d.update(i, e)),
        kv_map(d.update(i, e)) == kv_map(d).insert(e.0@, e.1@),
{
    let d2 = d.update(i, e);
    assert forall|k: Seq<char>| #[trigger] kv_map(d2).contains_key(k) == kv_map(d).insert(
        e.0@,
        e.1@,
    ).contains_key(k) by {
        if has_key(d2, k) {
            let j = choose|j: int| 0 <= j < d2.len() && #[trigger] d2[j].0@ == k;
            if j != i {
                assert(d[j].0@ == k);
            }
        }
        if has_key(d, k) {
            let j = choose|j: int| 0 <= j < d.len() && #[trigger] d[j].0@ == k;
            assert(d2[j].0@ == k);
        }
    }
    assert forall|k: Seq<char>| #[trigger] kv_map(d2).contains_key(k) implies kv_map(d2)[k]
        == kv_map(d).insert(e.0@, e.1@)[k] by {
        let j = choose|j: int| 0 <= j < d2.len() && #[trigger] d2[j].0@ == k;
        lemma_kv_at(d2, j);
        if j != i {
            assert(d[j].0@ == k);
            lemma_kv_at(d, j);
        }
    }
    assert(kv_map(d2) =~= kv_map(d).insert(e.0@, e.1@));
}

proof fn lemma_kv_push(d: Seq<Entry>, e: Entry)
    requires
        keys_unique(d),
        !has_key(d, e.0@),
    ensures
        keys_unique(d.push(e)),
        kv_map(d.push(e)) == kv_map(d).insert(e.0@, e.1@),
{
    let d2 = d.push(e);
    assert forall|i: int, j: int|
        0 <= i < d2.len() && 0 <= j < d2.len() && i != j implies d2[i].0@ != d2[j].0@ by {
        if i == d.len() as int {
            assert(d[j].0@ != e.0@);
        } else if j == d.len() as int {
            assert(d[i].0@ != e.0@);
        }
    }
    assert forall|k: Seq<char>| #[trigger] kv_map(d2).contains_key(k) == kv_map(d).insert(
        e.0@,
        e.1@,
    ).contains_key(k) by {
        if has_key(d2, k) {
            let j = choose|j: int| 0 <= j < d2.len() && #[trigger] d2[j].0@ == k;
            if j != d.len() as int {
                assert(d[j].0@ == k);
            }
        }
        if has_key(d, k) {
            let j = choose|j: int| 0 <= j < d.len() && #[trigger] d[j].0@ == k;
            assert(d2[j].0@ == k);
        }
        if k == e.0@ {
            assert(d2[d.len() as int].0@ == k);
        }
    }
    assert forall|k: Seq<char>| #[trigger] kv_map(d2).contains_key(k) implies kv_map(d2)[k]
        == kv_map(d).insert(e.0@, e.1@)[k] by {
        let j = choose|j: int| 0 <= j < d2.len() && #[trigger] d2[j].0@ == k;
        lemma_kv_at(d2, j);
        if j != d.len() as int {
            assert(d[j].0@ == k);
            lemma_kv_at(d, j);
        }
    }
    assert(kv_map(d2) =~= kv_map(d).insert(e.0@, e.1@));
}

proof fn lemma_kv_remove(d: Seq<Entry>, i: int)
    requires
        keys_unique(d),
        0 <= i < d.len(),
    ensures
        keys_unique(d.remove(i)),
        kv_map(d.remove(i)) == kv_map(d).remove(d[i].0@),
{
    let d2 = d.remove(i);
    let k0 = d[i].0@;
    assert forall|a: int, b: int|
        0 <= a < d2.len() && 0 <= b < d2.len() && a != b implies d2[a].0@ != d2[b].0@ by {
        let a1 = if a < i { a } else { a + 1 };
        let b1 = if b < i { b } else { b + 1 };
        assert(d2[a] == d[a1]);
        assert(d2[b] == d[b1]);
    }
    assert forall|k: Seq<char>| #[trigger] kv_map(d2).contains_key(k) == kv_map(d).remove(
        k0,
    ).contains_key(k) by {
        if has_key(d2, k) {
            let j = choose|j: int| 0 <= j < d2.len() && #[trigger] d2[j].0@ == k;
            let j1 = if j < i { j } else { j + 1 };
            assert(d[j1].0@ == k);
            assert(j1 != i);
        }
        if has_key(d, k) && k != k0 {
            let j = choose|j: int| 0 <= j < d.len() && #[trigger] d[j].0@ == k;
            assert(j != i);
            let j2 = if j < i { j } else { j - 1 };
            assert(d2[j2].0@ == k);
        }
    }
    assert forall|k: Seq<char>| #[trigger] kv_map(d2).contains_key(k) implies kv_map(d2)[k]
        == kv_map(d).remove(k0)[k] by {
        let j = choose|j: int| 0 <= j < d2.len() && #[trigger] d2[j].0@ == k;
        let j1 = if j < i { j } else { j + 1 };
        assert(d2[j] == d[j1]);
        lemma_kv_at(d2, j);
        lemma_kv_at(d, j1);
    }
    assert(kv_map(d2) =~= kv_map(d).remove(k0));
}

impl StateMachine for KeyValueStore {
    /// `Put` binds the key to the value; `Delete` removes the key.
    fn apply(&mut self, command: Command)
        ensures
            final(self)@ == match command.op {
                Op::Put { key, value } => old(self)@.insert(key@, value@),
                Op::Delete { key } => old(self)@.remove(key@),
            },
    {
        proof {
            use_type_invariant(&*self);
        }
        let mut data: Vec<Entry> = Vec::new();
        std::mem::swap(&mut data, &mut self.data);
        match command.op {
            Op::Put { key, value } => {
                match find_key(&data, &key) {
                    Some(i) => {
                        proof {
                            lemma_kv_update(data@, i as int, (key, value));
                        }
                        data.set(i, (key, value));
                    },
                    None => {
                        proof {
                            lemma_kv_push(data@, (key, value));
                        }
                        data.push((key, value));
                    },
                }
            },
            Op::Delete { key } => {
                match find_key(&data, &key) {
                    Some(i) => {
                        proof {
                            lemma_kv_remove(data@, i as int);
                        }
                        data.remove(i);
                    },
                    None => {
                        proof {
                            assert(kv_map(data@) =~= kv_map(data@).remove(key@));
                        }
                    },
                }
            },
        }
        self.data = data;
    }
}

} // verus!
