use actor_apps::ring::Ring;

#[test]
fn empty_ring_has_no_head() {
    let mut r = Ring::new();
    assert_eq!(r.len(), 0);
    assert_eq!(r.head(), None);
    assert_eq!(r.take_oldest(), None);
}

#[test]
fn new_nodes_go_in_front() {
    let mut r = Ring::new();
    r.node_started(10);
    assert_eq!(r.head(), Some(10));
    r.node_started(20);
    r.node_started(30);
    assert_eq!(r.head(), Some(30));
    assert_eq!(r.len(), 3);
}

#[test]
fn oldest_nodes_leave_first() {
    let mut r = Ring::new();
    for a in [1, 2, 3, 4] {
        r.node_started(a);
    }
    assert_eq!(r.take_oldest(), Some(1));
    r.node_started(5);
    assert_eq!(r.take_oldest(), Some(2));
    assert_eq!(r.take_oldest(), Some(3));
    assert_eq!(r.take_oldest(), Some(4));
    assert_eq!(r.head(), Some(5));
    assert_eq!(r.take_oldest(), Some(5));
    assert_eq!(r.take_oldest(), None);
    assert_eq!(r.len(), 0);
}

#[test]
fn rm_takes_the_oldest_first() {
    let mut r = Ring::new();
    for a in [1, 2, 3, 4] {
        r.node_started(a);
    }
    assert_eq!(r.take_oldest_n(3), vec![1, 2, 3]);
    assert_eq!(r.len(), 1);
    assert_eq!(r.head(), Some(4));
}

#[test]
fn rm_more_than_the_ring_holds() {
    let mut r = Ring::new();
    r.node_started(7);
    r.node_started(8);
    assert_eq!(r.take_oldest_n(5), vec![7, 8]);
    assert_eq!(r.len(), 0);
    assert_eq!(r.take_oldest_n(2), Vec::<u64>::new());
}

#[test]
fn rm_zero_takes_nothing() {
    let mut r = Ring::new();
    r.node_started(7);
    assert_eq!(r.take_oldest_n(0), Vec::<u64>::new());
    assert_eq!(r.len(), 1);
}
