use actor_apps::chat_protocol::{Join, Post};
use actor_apps::room::{Room, HISTORY_LIMIT};

fn join(member: u64) -> Join {
    Join { reply_to: member + 1000, member, peer_addr: "127.0.0.1:1".to_string() }
}

fn post(text: &str) -> Post {
    Post { reply_to: 9, message: text.as_bytes().to_vec() }
}

#[test]
fn joining_an_empty_room() {
    let mut room = Room::new();
    let reply = room.on_join(&join(1), 11);
    assert_eq!(reply.stale_watch, None);
    assert_eq!(reply.reply_to, 1001);
    assert!(reply.joined.history.is_empty());
}

#[test]
fn post_goes_to_every_member_once() {
    let mut room = Room::new();
    room.on_join(&join(1), 11);
    room.on_join(&join(2), 12);
    room.on_join(&join(1), 13);
    let reply = room.on_post(post("hi"));
    let mut to = reply.recipients.clone();
    to.sort();
    assert_eq!(to, vec![1, 2]);
    assert_eq!(reply.message.message, b"hi".to_vec());
    assert_eq!(reply.reply_to, 9);
}

#[test]
fn rejoining_returns_the_stale_watch() {
    let mut room = Room::new();
    room.on_join(&join(1), 11);
    let reply = room.on_join(&join(1), 12);
    assert_eq!(reply.stale_watch, Some(11));
}

#[test]
fn gone_member_gets_no_more_posts() {
    let mut room = Room::new();
    room.on_join(&join(1), 11);
    room.on_join(&join(2), 12);
    room.on_down(1);
    let reply = room.on_post(post("x"));
    assert_eq!(reply.recipients, vec![2]);
    room.on_down(42);
    let reply = room.on_post(post("y"));
    assert_eq!(reply.recipients, vec![2]);
}

#[test]
fn history_keeps_the_last_ten_in_order() {
    let mut room = Room::new();
    for i in 0..15 {
        room.on_post(post(&format!("m{}", i)));
    }
    let reply = room.on_join(&join(1), 11);
    let expected: Vec<Vec<u8>> = (5..15).map(|i| format!("m{}", i).into_bytes()).collect();
    assert_eq!(HISTORY_LIMIT, 10);
    assert_eq!(reply.joined.history, expected);
}

#[test]
fn history_shorter_than_the_limit() {
    let mut room = Room::new();
    room.on_post(post("a"));
    room.on_post(post("b"));
    let reply = room.on_join(&join(3), 1);
    assert_eq!(reply.joined.history, vec![b"a".to_vec(), b"b".to_vec()]);
}

#[test]
fn join_sees_the_latest_post_last() {
    let mut room = Room::new();
    for i in 0..10 {
        room.on_post(post(&format!("{}", i)));
    }
    room.on_post(post("latest"));
    let reply = room.on_join(&join(1), 1);
    assert_eq!(reply.joined.history.len(), 10);
    assert_eq!(reply.joined.history.last(), Some(&b"latest".to_vec()));
    assert_eq!(reply.joined.history.first(), Some(&b"1".to_vec()));
}
