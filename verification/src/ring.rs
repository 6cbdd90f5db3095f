//! The ring of relay nodes that the echo ring's console manages.
//!
//! Nodes are kept head first, oldest last. A node is started to relay every
//! request it gets to the node that was the head when it started, so a
//! request sent to the head travels along the ring towards the oldest node,
//! which answers it: the oldest node was started either alone or behind a node
//! that has since been stopped. `add` starts nodes in front of the head; `rm`
//! stops the oldest nodes first.
//!
//! Nodes are named by their plain addresses.
use vstd::prelude::*;
use std::collections::VecDeque;

verus! {

pub struct Ring {
    nodes: VecDeque<u64>,
    relays: Ghost<Seq<Option<u64>>>,
    started: Ghost<Seq<u64>>,
    stopped: Ghost<nat>,
}

impl View for Ring {
    type V = Seq<u64>;

    /// The nodes, head first.
    closed spec fn view(&self) -> Seq<u64> {
        self.nodes@
    }
}

/// The first element of a sequence, if any.
pub open spec fn first_of(s: Seq<u64>) -> Option<u64> {
    if s.len() > 0 {
        Some(s[0])
    } else {
        None
    }
}

impl Ring {
    /// For each node, head first, the node it was started to relay to.
    pub closed spec fn relay_targets(&self) -> Seq<Option<u64>> {
        self.relays@
    }

    /// Every node started so far, oldest first.
    pub closed spec fn started(&self) -> Seq<u64> {
        self.started@
    }

    /// How many nodes have been taken out to be stopped.
    pub closed spec fn stopped_count(&self) -> nat {
        self.stopped@
    }

    /// The nodes taken out to be stopped, oldest first.
    pub open spec fn stopped(&self) -> Seq<u64> {
        self.started().take(self.stopped_count() as int)
    }

    /// The ring holds, head first, the started nodes that have not been
    /// taken out; each node but the oldest relays to the next older one, and
    /// the oldest relays to no node or to the node started just before it.
    pub open spec fn wf(&self) -> bool {
        &&& self.stopped_count() <= self.started().len()
        &&& self@.len() == self.started().len() - self.stopped_count()
        &&& self.relay_targets().len() == self@.len()
        &&& forall|i: int|
            #![trigger self@[i]]
            0 <= i < self@.len() ==> self@[i] == self.started()[self.started().len() - 1 - i]
        &&& forall|i: int|
            0 <= i < self@.len() - 1 ==> #[trigger] self.relay_targets()[i] == Some(self@[i + 1])
        &&& self@.len() > 0 ==> {
            ||| self.relay_targets()[self@.len() - 1] is None
            ||| self.stopped_count() > 0 && self.relay_targets()[self@.len() - 1] == Some(
                self.started()[self.stopped_count() - 1],
            )
        }
    }

    /// Each node but the oldest relays to the next older one.
    pub open spec fn relays_form_chain(&self) -> bool {
        &&& self.relay_targets().len() == self@.len()
        &&& forall|i: int|
            0 <= i < self@.len() - 1 ==> #[trigger] self.relay_targets()[i] == Some(self@[i + 1])
    }

    /// An empty ring.
    pub fn new() -> (r: Ring)
        ensures
            r.wf(),
            r@ == Seq::<u64>::empty(),
            r.started() == Seq::<u64>::empty(),
            r.stopped_count() == 0,
    {
        Ring {
            nodes: VecDeque::new(),
            relays: Ghost(Seq::empty()),
            started: Ghost(Seq::empty()),
            stopped: Ghost(0),
        }
    }

    /// The number of nodes.
    pub fn len(&self) -> (n: usize)
        ensures
            n == self@.len(),
    {
        self.nodes.len()
    }

    /// The head of the ring: where requests enter, and what a new node
    /// relays to.
    pub fn head(&self) -> (h: Option<u64>)
        ensures
            h == first_of(self@),
    {
        if self.nodes.len() > 0 {
            Some(self.nodes[0])
        } else {
            None
        }
    }

    /// Records that `node` has started, relaying to the current head; it
    /// becomes the new head.
    pub fn node_started(&mut self, node: u64)
        requires
            old(self).wf(),
        ensures
            final(self).wf(),
            final(self)@ == seq![node] + old(self)@,
            final(self).relay_targets() == seq![first_of(old(self)@)] + old(self).relay_targets(),
            final(self).started() == old(self).started().push(node),
            final(self).stopped_count() == old(self).stopped_count(),
    {
        let ghost head = first_of(self.nodes@);
        let ghost n0 = self.started@.len();
        self.nodes.push_front(node);
        self.relays = Ghost(seq![head] + self.relays@);
        self.started = Ghost(self.started@.push(node));
        proof {
            let s = self.started@;
            assert forall|i: int| #![trigger self.nodes@[i]] 0 <= i < self.nodes@.len() implies self.nodes@[i]
                == s[s.len() - 1 - i] by {
                if i > 0 {
                    assert(self.nodes@[i] == old(self)@[i - 1]);
                }
            }
            assert forall|i: int| 0 <= i < self.nodes@.len() - 1 implies #[trigger] self.relays@[i]
                == Some(self.nodes@[i + 1]) by {
                if i > 0 {
                    assert(self.relays@[i] == old(self).relay_targets()[i - 1]);
                }
            }
            if old(self)@.len() > 0 {
                assert(self.relays@[self.nodes@.len() - 1] == old(self).relay_targets()[old(
                    self,
                )@.len() - 1]);
                if old(self).stopped_count() > 0 {
                    assert(old(self).started()[old(self).stopped_count() - 1] == s[old(
                        self,
                    ).stopped_count() - 1]);
                }
            }
        }
    }

    /// Takes the oldest node out of the ring, to be stopped; `None` when the
    /// ring is empty.
    pub fn take_oldest(&mut self) -> (oldest: Option<u64>)
        requires
            old(self).wf(),
        ensures
            final(self).wf(),
            old(self)@.len() == 0 ==> oldest is None && final(self)@ == old(self)@
                && final(self).stopped_count() == old(self).stopped_count(),
            old(self)@.len() > 0 ==> oldest == Some(old(self)@.last()) && final(self)@
                == old(self)@.drop_last() && final(self).stopped_count() == old(self).stopped_count()
                + 1,
            final(self).relay_targets() == old(self).relay_targets().take(final(self)@.len() as int),
            final(self).started() == old(self).started(),
    {
        let oldest = self.nodes.pop_back();
        if oldest.is_some() {
            self.relays = Ghost(self.relays@.drop_last());
            self.stopped = Ghost(self.stopped@ + 1);
            proof {
                assert(self.relays@ =~= old(self).relay_targets().take(self.nodes@.len() as int));
                assert forall|i: int| #![trigger self.nodes@[i]] 0 <= i < self.nodes@.len() implies self.nodes@[i]
                    == self.started@[self.started@.len() - 1 - i] by {
                    assert(self.nodes@[i] == old(self)@[i]);
                }
                assert forall|i: int| 0 <= i < self.nodes@.len() - 1 implies #[trigger] self.relays@[i]
                    == Some(self.nodes@[i + 1]) by {
                    assert(self.relays@[i] == old(self).relay_targets()[i]);
                }
                if self.nodes@.len() > 0 {
                    let k = self.nodes@.len() - 1;
                    assert(self.relays@[k] == old(self).relay_targets()[k]);
                    assert(old(self)@[k + 1] == self.started@[self.started@.len() - 1 - (k + 1)]);
                }
            }
        } else {
            proof {
                assert(self.relays@ =~= old(self).relay_targets().take(self.nodes@.len() as int));
            }
        }
        oldest
    }

    /// Takes up to `count` of the oldest nodes out of the ring, to be
    /// stopped in the order given: oldest first. Fewer come out only when the
    /// ring runs out of nodes.
    pub fn take_oldest_n(&mut self, count: usize) -> (taken: Vec<u64>)
        requires
            old(self).wf(),
        ensures
            final(self).wf(),
            taken.len() == (if count <= old(self)@.len() {
                count as int
            } else {
                old(self)@.len() as int
            }),
            forall|j: int|
                0 <= j < taken.len() ==> #[trigger] taken@[j] == old(self)@[old(self)@.len() - 1
                    - j],
            final(self)@ == old(self)@.take(old(self)@.len() - taken.len()),
            final(self).started() == old(self).started(),
            final(self).stopped_count() == old(self).stopped_count() + taken.len(),
    {
        let mut taken: Vec<u64> = Vec::new();
        let ghost before = self@;
        while taken.len() < count
            invariant
                self.wf(),
                taken.len() <= count,
                taken.len() <= before.len(),
                self@ == before.take(before.len() - taken.len()),
                forall|j: int|
                    0 <= j < taken.len() ==> #[trigger] taken@[j] == before[before.len() - 1 - j],
                self.started() == old(self).started(),
                self.stopped_count() == old(self).stopped_count() + taken.len(),
                before == old(self)@,
            ensures
                self.wf(),
                taken.len() == count || taken.len() == before.len(),
                taken.len() <= count,
                taken.len() <= before.len(),
                self@ == before.take(before.len() - taken.len()),
                forall|j: int|
                    0 <= j < taken.len() ==> #[trigger] taken@[j] == before[before.len() - 1 - j],
                self.started() == old(self).started(),
                self.stopped_count() == old(self).stopped_count() + taken.len(),
            decreases count - taken.len(),
        {
            match self.take_oldest() {
                Some(node) => {
                    taken.push(node);
                    proof {
                        assert(self@ =~= before.take(before.len() - taken.len()));
                    }
                },
                None => {
                    break;
                },
            }
        }
        taken
    }
}

/// Nodes leave the ring in the order in which they joined it: starting a node
/// in front of a non-empty ring does not change which node is taken out next.
pub proof fn lemma_oldest_leaves_first(nodes: Seq<u64>, node: u64)
    requires
        nodes.len() > 0,
    ensures
        (seq![node] + nodes).last() == nodes.last(),
        (seq![node] + nodes).drop_last() == seq![node] + nodes.drop_last(),
{
    assert((seq![node] + nodes).drop_last() =~= seq![node] + nodes.drop_last());
}

/// A request sent to the head travels the whole ring and is answered by the
/// oldest node: each node but the oldest relays to the next older one, and
/// the oldest was started alone or behind a node that has been taken out to
/// be stopped. When the runtime never hands out an address twice, no node
/// occurs twice in the ring and no node in the ring is one that was stopped.
pub proof fn lemma_request_travels_whole_ring(r: &Ring)
    requires
        r.wf(),
    ensures
        r.relays_form_chain(),
        r@.len() > 0 && r.relay_targets()[r@.len() - 1] is Some ==> r.stopped().contains(
            r.relay_targets()[r@.len() - 1]->0,
        ),
        r.started().no_duplicates() ==> r@.no_duplicates(),
        r.started().no_duplicates() ==> forall|k: int|
            0 <= k < r@.len() ==> !r.stopped().contains(#[trigger] r@[k]),
{
    let s = r.started();
    let n = s.len() as int;
    let m = r.stopped_count() as int;
    if r@.len() > 0 && r.relay_targets()[r@.len() - 1] is Some {
        assert(r.stopped()[m - 1] == s[m - 1]);
    }
    if s.no_duplicates() {
        assert forall|a: int, b: int|
            0 <= a < r@.len() && 0 <= b < r@.len() && a != b implies r@[a] != r@[b] by {
            assert(r@[a] == s[n - 1 - a]);
            assert(r@[b] == s[n - 1 - b]);
        }
        assert forall|k: int| 0 <= k < r@.len() implies !r.stopped().contains(#[trigger] r@[k]) by {
            if r.stopped().contains(r@[k]) {
                let t = choose|t: int| 0 <= t < r.stopped().len() && r.stopped()[t] == r@[k];
                assert(r.stopped()[t] == s[t]);
                assert(r@[k] == s[n - 1 - k]);
            }
        }
    }
}

} // verus!
