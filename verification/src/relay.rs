//! A node of the echo ring.
//!
//! A node started behind another one watches it and relays every request to
//! it, until it learns (by the `Down` notice of that watch) that the node it
//! relays to is gone; from then on it answers requests itself. A node started
//! alone answers from the start.
use vstd::prelude::*;

verus! {

/// What a node does with the requests it receives.
#[derive(PartialEq, Eq, Structural, Debug, Clone, Copy)]
pub enum NodeRole {
    /// Relay each request to `to`, watched under the reference `watch`.
    Relaying { to: u64, watch: u64 },
    /// Answer each request.
    Answering,
}

/// What a node does with one request.
#[derive(PartialEq, Eq, Structural, Debug, Clone, Copy)]
pub enum RequestAction {
    /// Pass the request on, unchanged, to this node.
    Forward(u64),
    /// Reply to the requester.
    Answer,
}

/// The role a node has after the `Down` notice for the watch `watch_ref`.
pub open spec fn role_after_down(role: NodeRole, watch_ref: u64) -> NodeRole {
    match role {
        NodeRole::Relaying { watch, .. } if watch == watch_ref => NodeRole::Answering,
        _ => role,
    }
}

/// What a node in `role` does with a request.
pub open spec fn action_of(role: NodeRole) -> RequestAction {
    match role {
        NodeRole::Relaying { to, .. } => RequestAction::Forward(to),
        NodeRole::Answering => RequestAction::Answer,
    }
}

/// A relaying node starts answering exactly when the `Down` notice of its own
/// watch arrives, whatever the addresses and references; an answering node
/// keeps answering.
pub proof fn lemma_down_of_own_watch(to: u64, watch: u64, other: u64)
    requires
        other != watch,
    ensures
        role_after_down(NodeRole::Relaying { to, watch }, watch) == NodeRole::Answering,
        role_after_down(NodeRole::Relaying { to, watch }, other) == (NodeRole::Relaying {
            to,
            watch,
        }),
        role_after_down(NodeRole::Answering, other) == NodeRole::Answering,
        role_after_down(NodeRole::Answering, watch) == NodeRole::Answering,
{
}

/// A relaying node passes every request on to the node it relays to, and an
/// answering node answers it, whatever the addresses and references.
pub proof fn lemma_requests_follow_role(to: u64, watch: u64)
    ensures
        action_of(NodeRole::Relaying { to, watch }) == RequestAction::Forward(to),
        action_of(NodeRole::Answering) == RequestAction::Answer,
{
}

pub struct RelayNode {
    pub role: NodeRole,
}

impl RelayNode {
    /// A node that relays to `to`, which it watches under `watch`.
    pub fn relaying(to: u64, watch: u64) -> (n: RelayNode)
        ensures
            n.role == (NodeRole::Relaying { to, watch }),
    {
        RelayNode { role: NodeRole::Relaying { to, watch } }
    }

    /// A node that answers requests itself.
    pub fn answering() -> (n: RelayNode)
        ensures
            n.role == NodeRole::Answering,
    {
        RelayNode { role: NodeRole::Answering }
    }

    /// Takes note of the `Down` notice of the watch `watch_ref`: when it is
    /// the watch of the node relayed to, the node starts answering; any other
    /// notice changes nothing. A node that answers keeps answering.
    pub fn on_down(&mut self, watch_ref: u64)
        ensures
            final(self).role == role_after_down(old(self).role, watch_ref),
            old(self).role == NodeRole::Answering ==> final(self).role == NodeRole::Answering,
            forall|to: u64, watch: u64|
                old(self).role == (NodeRole::Relaying { to, watch }) ==> final(self).role == (if watch
                    == watch_ref {
                    NodeRole::Answering
                } else {
                    NodeRole::Relaying { to, watch }
                }),
    {
        match self.role {
            NodeRole::Relaying { watch, .. } => {
                if watch == watch_ref {
                    self.role = NodeRole::Answering;
                }
            },
            NodeRole::Answering => {},
        }
    }

    /// What to do with a request.
    pub fn on_request(&self) -> (a: RequestAction)
        ensures
            a == action_of(self.role),
            forall|to: u64, watch: u64|
                self.role == (NodeRole::Relaying { to, watch }) ==> a == RequestAction::Forward(to),
            self.role == NodeRole::Answering ==> a == RequestAction::Answer,
    {
        match self.role {
            NodeRole::Relaying { to, .. } => RequestAction::Forward(to),
            NodeRole::Answering => RequestAction::Answer,
        }
    }
}

/// A node started with `relay_to`: relaying (under the watch `watch`) when
/// there is a node to relay to, answering otherwise.
pub fn node_for(relay_to: Option<u64>, watch: u64) -> (n: RelayNode)
    ensures
        n.role == (match relay_to {
            Some(to) => NodeRole::Relaying { to, watch },
            None => NodeRole::Answering,
        }),
{
    match relay_to {
        Some(to) => RelayNode::relaying(to, watch),
        None => RelayNode::answering(),
    }
}

} // verus!
