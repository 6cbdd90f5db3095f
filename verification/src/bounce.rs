//! The two nodes of the multi-node example play catch across the network.
//!
//! The second node throws first, with the number 1; each node that catches a
//! throw throws back to the thrower, naming itself as the one to throw back
//! to, with the next number.
use vstd::prelude::*;

verus! {

/// A throw: who to throw back to, and its number.
#[derive(PartialEq, Eq, Structural, Debug, Clone, Copy)]
pub struct Hop {
    pub reply_to: u64,
    pub idx: usize,
}

/// The first throw, by the node at `own`.
pub fn first_hop(own: u64) -> (h: Hop)
    ensures
        h == (Hop { reply_to: own, idx: 1 }),
{
    Hop { reply_to: own, idx: 1 }
}

/// The throw back from the node at `own` after it catches `received`.
pub open spec fn next_hop(received: Hop, own: u64) -> Hop {
    Hop { reply_to: own, idx: (received.idx + 1) as usize }
}

/// The node at `own` catches `received`: it throws the next number back to
/// the thrower. Returns where the throw goes, and the throw.
pub fn hop_back(received: Hop, own: u64) -> (r: (u64, Hop))
    requires
        received.idx < usize::MAX,
    ensures
        r.0 == received.reply_to,
        r.1 == next_hop(received, own),
{
    (received.reply_to, Hop { reply_to: own, idx: received.idx + 1 })
}

/// The throw that follows `k` catches in a rally that `b` opens by throwing
/// to `a`: the throws alternate between the two nodes and count up by one.
pub open spec fn rally(a: u64, b: u64, k: nat) -> Hop
    decreases k,
{
    if k == 0 {
        Hop { reply_to: b, idx: 1 }
    } else {
        let prev = rally(a, b, (k - 1) as nat);
        next_hop(prev, if prev.reply_to == b { a } else { b })
    }
}

/// In a rally between `a` and `b`, the throw after `k` catches carries the
/// number `k + 1` and names `b` when `k` is even, `a` when it is odd.
pub proof fn lemma_rally_counts(a: u64, b: u64, k: nat)
    requires
        a != b,
        k + 1 <= usize::MAX,
    ensures
        rally(a, b, k).idx == k + 1,
        rally(a, b, k).reply_to == (if k % 2 == 0 { b } else { a }),
    decreases k,
{
    if k > 0 {
        lemma_rally_counts(a, b, (k - 1) as nat);
    }
}

} // verus!
