use actor_apps::bounce::{first_hop, hop_back, Hop};

#[test]
fn first_throw_carries_one() {
    assert_eq!(first_hop(5), Hop { reply_to: 5, idx: 1 });
}

#[test]
fn throws_alternate_and_count_up() {
    let (a, b) = (100, 200);
    let mut hop = first_hop(b);
    let mut at = a;
    for k in 1..=6usize {
        let (to, next) = hop_back(hop, at);
        assert_eq!(to, if k % 2 == 1 { b } else { a });
        assert_eq!(next.idx, k + 1);
        hop = next;
        at = to;
    }
}
