use actor_apps::connection::{after_read, ReadOutcome, READ_BUFFER_SIZE};

#[test]
fn empty_read_closes() {
    let buf = [0u8; READ_BUFFER_SIZE];
    assert!(matches!(after_read(&buf, 0), ReadOutcome::Closed));
}

#[test]
fn read_posts_exactly_the_bytes_read() {
    let mut buf = [0u8; READ_BUFFER_SIZE];
    buf[..5].copy_from_slice(b"hello");
    buf[5] = b'!';
    match after_read(&buf, 5) {
        ReadOutcome::Post(m) => assert_eq!(m, b"hello".to_vec()),
        ReadOutcome::Closed => panic!("closed"),
    }
}

#[test]
fn full_buffer_read() {
    let buf = [7u8; READ_BUFFER_SIZE];
    match after_read(&buf, READ_BUFFER_SIZE) {
        ReadOutcome::Post(m) => assert_eq!(m, vec![7u8; 1024]),
        ReadOutcome::Closed => panic!("closed"),
    }
}
