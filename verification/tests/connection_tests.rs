use pubsub::connection::{Connection, ReadOutcome, WriteOutcome};

#[test]
fn recv_without_newline_yields_empty_ok() {
    let mut c = Connection::new();
    c.react(true, false);
    let r = c.recv_pub(ReadOutcome::Data(b"{\"channel\":\"a\",\"payl".to_vec()));
    match r {
        Some(Ok(v)) => assert!(v.is_empty()),
        _ => panic!("expected Ok with no messages"),
    }
    assert_eq!(c.buffered(), b"{\"channel\":\"a\",\"payl".to_vec());
}

#[test]
fn recv_two_frames_in_one_read_yields_both() {
    let mut c = Connection::new();
    c.react(true, false);
    let data = b"{\"channel\":\"a\",\"payload\":\"1\"}\n{\"channel\":\"b\",\"payload\":\"2\"}\n"
        .to_vec();
    let r = c.recv_pub(ReadOutcome::Data(data));
    match r {
        Some(Ok(v)) => {
            assert_eq!(v.len(), 2);
            assert_eq!(v[0].channel, b"a".to_vec());
            assert_eq!(v[0].payload, b"1".to_vec());
            assert_eq!(v[1].channel, b"b".to_vec());
            assert_eq!(v[1].payload, b"2".to_vec());
        }
        _ => panic!("expected two messages"),
    }
    assert!(c.buffered().is_empty());
}

#[test]
fn recv_zero_byte_read_is_closed() {
    let mut c = Connection::new();
    c.react(true, false);
    let r = c.recv_pub(ReadOutcome::Closed);
    assert!(matches!(r, Some(Err(_))));
}

#[test]
fn recv_would_block_yields_none_and_clears_readable() {
    let mut c = Connection::new();
    c.react(true, false);
    let r = c.recv_pub(ReadOutcome::WouldBlock);
    assert!(r.is_none());
    assert!(!c.wants_read());
}

#[test]
fn recv_across_arbitrary_splits_yields_same_messages() {
    let frames = b"{\"channel\":\"a\",\"payload\":\"1\"}\n{\"channel\":\"b\",\"payload\":\"22\"}\n"
        .to_vec();
    // one shot
    let mut c = Connection::new();
    c.react(true, false);
    let whole = match c.recv_pub(ReadOutcome::Data(frames.clone())) {
        Some(Ok(v)) => v,
        _ => panic!(),
    };
    // byte by byte
    let mut c2 = Connection::new();
    c2.react(true, false);
    let mut split = Vec::new();
    for b in &frames {
        match c2.recv_pub(ReadOutcome::Data(vec![*b])) {
            Some(Ok(v)) => split.extend(v),
            _ => panic!(),
        }
    }
    assert_eq!(whole.len(), split.len());
    for (x, y) in whole.iter().zip(split.iter()) {
        assert_eq!(x.channel, y.channel);
        assert_eq!(x.payload, y.payload);
    }
}

#[test]
fn malformed_line_is_skipped_and_stream_continues() {
    let mut c = Connection::new();
    c.react(true, false);
    // the bad line stalls this recv after being consumed...
    let r = c.recv_pub(ReadOutcome::Data(
        b"garbage\n{\"channel\":\"a\",\"payload\":\"1\"}\n".to_vec(),
    ));
    match r {
        Some(Ok(v)) => assert!(v.is_empty()),
        _ => panic!(),
    }
    // ...and the next read picks up the good frame after it.
    let r2 = c.recv_pub(ReadOutcome::Data(Vec::new()));
    match r2 {
        Some(Ok(v)) => {
            assert_eq!(v.len(), 1);
            assert_eq!(v[0].channel, b"a".to_vec());
        }
        _ => panic!(),
    }
}

#[test]
fn recv_sub_decodes_subscriptions() {
    let mut c = Connection::new();
    c.react(true, false);
    let r = c.recv_sub(ReadOutcome::Data(b"{\"channel\":\"x\"}\n{\"channel\":\"y\"}\n".to_vec()));
    match r {
        Some(Ok(v)) => {
            assert_eq!(v.len(), 2);
            assert_eq!(v[0].channel, b"x".to_vec());
            assert_eq!(v[1].channel, b"y".to_vec());
        }
        _ => panic!(),
    }
}

#[test]
fn write_drains_written_prefix() {
    let mut c = Connection::new();
    c.react(false, true);
    c.add_payload(&b"hello world".to_vec());
    assert!(c.wants_write());
    let r = c.on_write(WriteOutcome::Wrote(6));
    assert!(matches!(r, Some(Ok(6))));
    assert_eq!(c.pending(), b"world".to_vec());
    let r2 = c.on_write(WriteOutcome::WouldBlock);
    assert!(r2.is_none());
    assert!(!c.wants_write());
}

#[test]
fn write_error_reports_closed() {
    let mut c = Connection::new();
    c.react(false, true);
    c.add_payload(&b"x".to_vec());
    let r = c.on_write(WriteOutcome::Closed);
    assert!(matches!(r, Some(Err(_))));
}
