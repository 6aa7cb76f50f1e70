use vstd::prelude::*;
use crate::protocol::types::NodeId;

verus! {

/// A directed link `(from, to)` between two nodes.
pub type Link = (NodeId, NodeId);

/// The set of cut links: messages from `a` to `b` are dropped while
/// `(a, b)` is cut. Cuts are made and healed in both directions at once.
pub struct Partitions {
    cut: Vec<Link>,
}

impl View for Partitions {
    type V = Set<Link>;

    closed spec fn view(&self) -> Set<Link> {
        self.cut@.to_set()
    }
}

/// Why a message is or is not delivered, checked in this order: the target
/// node is dead; the link is cut; the random drop hit; otherwise it is
/// delivered, after the configured latency when that is not zero.
#[derive(Debug, Clone, Copy, PartialEq, Eq, Structural)]
pub enum Delivery {
    DropDeadNode,
    DropPartitioned,
    DropRandom,
    Delayed(u64),
    Immediate,
}

/// Both directions between `node` and each node of `nodes[..k]` other than itself.
pub open spec fn links_of(node: NodeId, nodes: Seq<NodeId>, k: int) -> Set<Link> {
    Set::new(
        |l: Link|
            exists|j: int|
                0 <= j < k && #[trigger] nodes[j] != node && (l == (node, nodes[j]) || l == (
                    nodes[j],
                    node,
                )),
    )
}

proof fn lemma_links_of_step(node: NodeId, nodes: Seq<NodeId>, i: int)
    requires
        0 <= i < nodes.len(),
    ensures
        links_of(node, nodes, i + 1) == if nodes[i] != node {
            links_of(node, nodes, i).insert((node, nodes[i])).insert((nodes[i], node))
        } else {
            links_of(node, nodes, i)
        },
{
    let other = nodes[i];
    let lhs = links_of(node, nodes, i + 1);
    let rhs = if other != node {
        links_of(node, nodes, i).insert((node, other)).insert((other, node))
    } else {
        links_of(node, nodes, i)
    };
    assert forall|l: Link| lhs.contains(l) <==> rhs.contains(l) by {
        if lhs.contains(l) {
            let j = choose|j: int|
                0 <= j < i + 1 && #[trigger] nodes[j] != node && (l == (node, nodes[j]) || l == (
                    nodes[j],
                    node,
                ));
            if j < i {
                assert(links_of(node, nodes, i).contains(l));
            }
        }
        if links_of(node, nodes, i).contains(l) {
            let j = choose|j: int|
                0 <= j < i && #[trigger] nodes[j] != node && (l == (node, nodes[j]) || l == (
                    nodes[j],
                    node,
                ));
            assert(lhs.contains(l));
        }
        if other != node && (l == (node, other) || l == (other, node)) {
            assert(nodes[i] != node);
            assert(lhs.contains(l));
        }
    }
    assert(lhs =~= rhs);
}

/// The network's decision for one message (the fault-injection pipeline).
pub fn route(target_alive: bool, link_cut: bool, random_drop: bool, latency_ms: u64) -> (d: Delivery)
    ensures
        d == if !target_alive {
            Delivery::DropDeadNode
        } else if link_cut {
            Delivery::DropPartitioned
        } else if random_drop {
            Delivery::DropRandom
        } else if latency_ms > 0 {
            Delivery::Delayed(latency_ms)
        } else {
            Delivery::Immediate
        },
{
    if !target_alive {
        return Delivery::DropDeadNode;
    }
    if link_cut {
        return Delivery::DropPartitioned;
    }
    if random_drop {
        return Delivery::DropRandom;
    }
    if latency_ms > 0 {
        Delivery::Delayed(latency_ms)
    } else {
        Delivery::Immediate
    }
}

impl Partitions {
    /// No link is cut.
    pub fn new() -> (p: Self)
        ensures
            p@ == Set::<Link>::empty(),
    {
        let p = Partitions { cut: Vec::new() };
        proof {
            assert(p.cut@.to_set() =~= Set::<Link>::empty());
        }
        p
    }

    /// Whether messages from `from` to `to` are dropped.
    pub fn is_cut(&self, from: NodeId, to: NodeId) -> (r: bool)
        ensures
            r == self@.contains((from, to)),
    {
        let mut i: usize = 0;
        while i < self.cut.len()
            invariant
                i <= self.cut@.len(),
                forall|q: int| 0 <= q < i ==> #[trigger] self.cut@[q] != (from, to),
            decreases self.cut.len() - i,
        {
            if self.cut[i].0 == from && self.cut[i].1 == to {
                proof {
                    assert(self.cut@.contains(self.cut@[i as int]));
                }
                return true;
            }
            i = i + 1;
        }
        proof {
            if self.cut@.to_set().contains((from, to)) {
                assert(self.cut@.contains((from, to)));
                let q = choose|q: int| 0 <= q < self.cut@.len() && self.cut@[q] == (from, to);
                assert(self.cut@[q] != (from, to));
            }
        }
        false
    }

    fn add(&mut self, l: Link)
        ensures
            final(self)@ == old(self)@.insert(l),
    {
        self.cut.push(l);
        proof {
            assert(self.cut@.to_set() =~= old(self).cut@.to_set().insert(l)) by {
                assert forall|x: Link| self.cut@.contains(x) <==> (old(self).cut@.contains(x) || x
                    == l) by {
                    if self.cut@.contains(x) {
                        let q = choose|q: int| 0 <= q < self.cut@.len() && self.cut@[q] == x;
                        if q < old(self).cut@.len() {
                            assert(old(self).cut@[q] == x);
                        }
                    }
                    if old(self).cut@.contains(x) {
                        let q = choose|q: int| 0 <= q < old(self).cut@.len() && old(self).cut@[q]
                            == x;
                        assert(self.cut@[q] == x);
                    }
                    if x == l {
                        assert(self.cut@[old(self).cut@.len() as int] == l);
                    }
                }
            }
        }
    }

    fn drop_link(&mut self, l: Link)
        ensures
            final(self)@ == old(self)@.remove(l),
    {
        let ghost orig = self.cut@;
        let mut kept: Vec<Link> = Vec::new();
        let mut i: usize = 0;
        while i < self.cut.len()
            invariant
                i <= self.cut@.len(),
                self.cut@ == orig,
                forall|x: Link| kept@.contains(x) <==> (orig.take(i as int).contains(x) && x != l),
            decreases self.cut.len() - i,
        {
            let x = self.cut[i];
            let ghost kept0 = kept@;
            let keep = !(x.0 == l.0 && x.1 == l.1);
            if keep {
                kept.push(x);
            }
            proof {
                let t0 = orig.take(i as int);
                let t1 = orig.take(i + 1);
                assert(t1 =~= t0.push(x));
                assert(keep <==> x != l);
                assert forall|y: Link| kept@.contains(y) <==> (t1.contains(y) && y != l) by {
                    assert(t1.contains(y) <==> (t0.contains(y) || y == x)) by {
                        if t1.contains(y) {
                            let q = choose|q: int| 0 <= q < t1.len() && t1[q] == y;
                            if q < i {
                                assert(t0[q] == y);
                            }
                        }
                        if t0.contains(y) {
                            let q = choose|q: int| 0 <= q < t0.len() && t0[q] == y;
                            assert(t1[q] == y);
                        }
                        if y == x {
                            assert(t1[i as int] == x);
                        }
                    }
                    if keep {
                        assert(kept@ =~= kept0.push(x));
                        assert(kept@.contains(y) <==> (kept0.contains(y) || y == x)) by {
                            if kept@.contains(y) {
                                let q = choose|q: int| 0 <= q < kept@.len() && kept@[q] == y;
                                if q < kept0.len() {
                                    assert(kept0[q] == y);
                                }
                            }
                            if kept0.contains(y) {
                                let q = choose|q: int| 0 <= q < kept0.len() && kept0[q] == y;
                                assert(kept@[q] == y);
                            }
                            if y == x {
                                assert(kept@[kept0.len() as int] == x);
                            }
                        }
                    }
                }
            }
            i = i + 1;
        }
        proof {
            assert(orig.take(i as int) =~= orig);
            assert(kept@.to_set() =~= orig.to_set().remove(l));
        }
        self.cut = kept;
    }

    /// Drop all messages between `a` and `b` in both directions.
    pub fn partition(&mut self, a: NodeId, b: NodeId)
        ensures
            final(self)@ == old(self)@.insert((a, b)).insert((b, a)),
    {
        self.add((a, b));
        self.add((b, a));
    }

    /// Restore the link between `a` and `b` in both directions.
    pub fn heal(&mut self, a: NodeId, b: NodeId)
        ensures
            final(self)@ == old(self)@.remove((a, b)).remove((b, a)),
    {
        self.drop_link((a, b));
        self.drop_link((b, a));
    }

    /// Cut `node` off from every other node of `nodes`.
    pub fn isolate(&mut self, node: NodeId, nodes: &Vec<NodeId>)
        ensures
            final(self)@ == old(self)@ + links_of(node, nodes@, nodes@.len() as int),
    {
        let mut i: usize = 0;
        while i < nodes.len()
            invariant
                i <= nodes@.len(),
                self@ == old(self)@ + links_of(node, nodes@, i as int),
            decreases nodes.len() - i,
        {
            let other = nodes[i];
            if other != node {
                self.partition(node, other);
            }
            proof {
                lemma_links_of_step(node, nodes@, i as int);
                assert(self@ =~= old(self)@ + links_of(node, nodes@, i + 1));
            }
            i = i + 1;
        }
    }

    /// Restore every link between `node` and the other nodes of `nodes`.
    pub fn unisolate(&mut self, node: NodeId, nodes: &Vec<NodeId>)
        ensures
            final(self)@ == old(self)@ - links_of(node, nodes@, nodes@.len() as int),
    {
        let mut i: usize = 0;
        while i < nodes.len()
            invariant
                i <= nodes@.len(),
                self@ == old(self)@ - links_of(node, nodes@, i as int),
            decreases nodes.len() - i,
        {
            let other = nodes[i];
            if other != node {
                self.heal(node, other);
            }
            proof {
                lemma_links_of_step(node, nodes@, i as int);
                assert(self@ =~= old(self)@ - links_of(node, nodes@, i + 1));
            }
            i = i + 1;
        }
    }
}

/// Healing a link undoes cutting it: starting from a state where neither
/// direction was cut, `partition` followed by `heal` gives the state back,
/// and a partition always cuts both directions.
pub proof fn law_heal_undoes_partition(p: Set<Link>, a: NodeId, b: NodeId)
    requires
        !p.contains((a, b)),
        !p.contains((b, a)),
    ensures
        p.insert((a, b)).insert((b, a)).remove((a, b)).remove((b, a)) == p,
        p.insert((a, b)).insert((b, a)).contains((a, b)),
        p.insert((a, b)).insert((b, a)).contains((b, a)),
{
    assert(p.insert((a, b)).insert((b, a)).remove((a, b)).remove((b, a)) =~= p);
}

} // verus!
