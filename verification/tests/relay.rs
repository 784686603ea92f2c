use proctor::relay::{Relay, Turn};
use proctor::stream::{Fault, ReadResult};

fn failed(fault: Fault) -> ReadResult {
    ReadResult::Failed(fault, "cause".to_string())
}

#[test]
fn what_was_read_is_written() {
    let mut relay = Relay::new();
    let mut written: Vec<u8> = Vec::new();
    for chunk in ["hel", "lo", " ", "world"] {
        let mut buffer = [0u8; 8];
        buffer[..chunk.len()].copy_from_slice(chunk.as_bytes());
        match relay.after_read(&buffer, &ReadResult::Count(chunk.len())) {
            Turn::Write(bytes) => written.extend_from_slice(bytes),
            turn => panic!("unexpected turn {:?}", turn),
        }
        assert!(relay.after_write(true));
    }
    assert_eq!(written, b"hello world");
}

#[test]
fn an_empty_read_closes_the_relay() {
    let mut relay = Relay::new();
    assert!(matches!(relay.after_read(&[1, 2, 3], &ReadResult::Count(0)), Turn::Closed));
}

#[test]
fn a_read_that_would_block_is_made_again() {
    let mut relay = Relay::new();
    assert!(matches!(relay.after_read(&[], &failed(Fault::WouldBlock)), Turn::Retry));
    assert!(matches!(relay.after_read(&[], &failed(Fault::InvalidInput)), Turn::Retry));
    match relay.after_read(&[9, 8], &ReadResult::Count(2)) {
        Turn::Write(bytes) => assert_eq!(bytes, [9, 8]),
        turn => panic!("unexpected turn {:?}", turn),
    }
}

#[test]
fn any_other_failure_ends_the_relay() {
    for fault in [Fault::Interrupted, Fault::Other] {
        let mut relay = Relay::new();
        assert!(matches!(relay.after_read(&[], &failed(fault)), Turn::Broken));
    }
}

#[test]
fn a_failed_write_ends_the_relay() {
    let mut relay = Relay::new();
    relay.after_read(&[1], &ReadResult::Count(1));
    assert!(!relay.after_write(false));
}

/// What a relay sends over these reads, where `writes` says whether the writes succeed, and
/// whether it has stopped.
fn sent_over(reads: &[(&[u8], ReadResult)], writes: &[bool]) -> (Vec<u8>, bool) {
    let mut relay = Relay::new();
    let mut writes = writes.iter();
    let mut sent: Vec<u8> = Vec::new();
    for (buffer, result) in reads {
        match relay.after_read(buffer, result) {
            Turn::Write(bytes) => match writes.next() {
                Some(true) => {
                    sent.extend_from_slice(bytes);
                    assert!(relay.after_write(true));
                }
                Some(false) => {
                    assert!(!relay.after_write(false));
                    return (sent, true);
                }
                None => return (sent, false),
            },
            Turn::Retry => {}
            Turn::Closed | Turn::Broken => return (sent, true),
        }
    }
    (sent, false)
}

fn one() -> (&'static [u8], ReadResult) {
    (b"one  ", ReadResult::Count(4))
}

fn two() -> (&'static [u8], ReadResult) {
    (b"two", ReadResult::Count(3))
}

#[test]
fn the_chunks_are_sent_up_to_the_end_or_a_failure() {
    let all = [true; 4];
    assert_eq!(sent_over(&[], &all), (b"".to_vec(), false));
    assert_eq!(sent_over(&[one(), two()], &all), (b"one two".to_vec(), false));
    let end = (&b""[..], ReadResult::Count(0));
    assert_eq!(sent_over(&[one(), end, two()], &all), (b"one ".to_vec(), true));
    let broken = (&b"two"[..], failed(Fault::Other));
    assert_eq!(sent_over(&[one(), two(), broken, one()], &all), (b"one two".to_vec(), true));
}

#[test]
fn the_chunks_are_sent_up_to_a_write_that_fails() {
    let reads = [one(), two(), one()];
    assert_eq!(sent_over(&reads, &[false, true, true]), (b"".to_vec(), true));
    assert_eq!(sent_over(&reads, &[true, false, true]), (b"one ".to_vec(), true));
    assert_eq!(sent_over(&reads, &[true, true, false]), (b"one two".to_vec(), true));
    assert_eq!(sent_over(&reads, &[true, true]), (b"one two".to_vec(), false));
    assert_eq!(sent_over(&reads, &[true, true, true]), (b"one twoone ".to_vec(), false));
}

#[test]
fn reads_that_are_tried_again_change_nothing() {
    for writes in [&[true, true][..], &[true, false], &[false], &[true], &[]] {
        let expected = sent_over(&[one(), two()], writes);
        for fault in [Fault::WouldBlock, Fault::InvalidInput] {
            for place in 0..3 {
                let mut reads = vec![one(), two()];
                for _ in 0..3 {
                    reads.insert(place, (&b"noise"[..], failed(fault)));
                }
                assert_eq!(sent_over(&reads, writes), expected);
            }
        }
    }
}
