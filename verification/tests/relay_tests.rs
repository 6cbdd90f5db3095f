use actor_apps::relay::{node_for, NodeRole, RelayNode, RequestAction};

#[test]
fn relaying_node_forwards_until_its_target_is_down() {
    let mut n = RelayNode::relaying(7, 100);
    assert_eq!(n.on_request(), RequestAction::Forward(7));
    n.on_down(99);
    assert_eq!(n.on_request(), RequestAction::Forward(7));
    n.on_down(100);
    assert_eq!(n.role, NodeRole::Answering);
    assert_eq!(n.on_request(), RequestAction::Answer);
}

#[test]
fn answering_node_keeps_answering() {
    let mut n = RelayNode::answering();
    n.on_down(1);
    assert_eq!(n.on_request(), RequestAction::Answer);
}

#[test]
fn start_role_follows_relay_target() {
    assert_eq!(node_for(Some(3), 4).role, NodeRole::Relaying { to: 3, watch: 4 });
    assert_eq!(node_for(None, 4).role, NodeRole::Answering);
}
