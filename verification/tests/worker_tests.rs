use pubsub::connection::{ReadOutcome, WriteOutcome};
use pubsub::publisher::{PubStep, Publisher};
use pubsub::subscriber::{SubStep, Subscriber};

fn pub_frame(channel: &str, payload: &str) -> Vec<u8> {
    let mut v = Vec::new();
    v.extend_from_slice(b"{\"channel\":\"");
    v.extend_from_slice(channel.as_bytes());
    v.extend_from_slice(b"\",\"payload\":\"");
    v.extend_from_slice(payload.as_bytes());
    v.extend_from_slice(b"\"}\n");
    v
}

fn sub_frame(channel: &str) -> Vec<u8> {
    let mut v = Vec::new();
    v.extend_from_slice(b"{\"channel\":\"");
    v.extend_from_slice(channel.as_bytes());
    v.extend_from_slice(b"\"}\n");
    v
}

#[test]
fn single_publisher_single_subscriber_same_channel() {
    let mut publisher = Publisher::new(256);
    let mut subscriber = Subscriber::new();

    subscriber.add_connection(1);
    subscriber.connection_react(1, true, true);
    assert!(matches!(
        subscriber.on_read(1, ReadOutcome::Data(sub_frame("abc"))),
        SubStep::Progress
    ));
    assert_eq!(subscriber.roster(&b"abc".to_vec()), vec![1]);

    publisher.add_connection(2);
    publisher.connection_react(2, true, true);
    assert!(matches!(
        publisher.on_read(2, ReadOutcome::Data(pub_frame("abc", "hi"))),
        PubStep::Progress
    ));
    // exactly one ack per received message
    assert_eq!(publisher.conn_pending(2), b"{\"ack\":true}\n".to_vec());
    // below the threshold: no flush yet
    assert!(publisher.maybe_flush().is_none());
    // the timer tick flushes the stage in one blob
    let blob = publisher.on_timer().expect("stage not empty");
    assert_eq!(blob, pub_frame("abc", "hi"));
    assert!(publisher.on_timer().is_none());

    subscriber.on_broadcast(&blob);
    let to_drain = subscriber.publish_pending();
    assert_eq!(to_drain, vec![1]);
    assert_eq!(subscriber.conn_pending(1), pub_frame("abc", "hi"));
}

#[test]
fn fan_out_of_two() {
    let mut subscriber = Subscriber::new();
    for t in [1, 2] {
        subscriber.add_connection(t);
        subscriber.connection_react(t, true, true);
        assert!(matches!(
            subscriber.on_read(t, ReadOutcome::Data(sub_frame("x"))),
            SubStep::Progress
        ));
    }
    subscriber.on_broadcast(&pub_frame("x", "p"));
    let to_drain = subscriber.publish_pending();
    assert_eq!(to_drain, vec![1, 2]);
    assert_eq!(subscriber.conn_pending(1), pub_frame("x", "p"));
    assert_eq!(subscriber.conn_pending(2), pub_frame("x", "p"));
}

#[test]
fn channel_isolation() {
    let mut subscriber = Subscriber::new();
    subscriber.add_connection(1);
    subscriber.connection_react(1, true, true);
    subscriber.on_read(1, ReadOutcome::Data(sub_frame("x")));
    subscriber.add_connection(2);
    subscriber.connection_react(2, true, true);
    subscriber.on_read(2, ReadOutcome::Data(sub_frame("y")));

    subscriber.on_broadcast(&pub_frame("x", "only for x"));
    let to_drain = subscriber.publish_pending();
    assert_eq!(to_drain, vec![1]);
    assert_eq!(subscriber.conn_pending(1), pub_frame("x", "only for x"));
    assert!(subscriber.conn_pending(2).is_empty());
}

#[test]
fn batch_flush_by_threshold() {
    let mut publisher = Publisher::new(64);
    publisher.add_connection(7);
    publisher.connection_react(7, true, true);
    let mut sent = Vec::new();
    for i in 0..3 {
        let frame = pub_frame("c", &format!("payload number {}", i));
        sent.extend_from_slice(&frame);
        publisher.on_read(7, ReadOutcome::Data(frame));
    }
    // over the threshold: one blob, all frames, arrival order
    let blob = publisher.maybe_flush().expect("threshold reached");
    assert!(blob.len() >= 64);
    assert_eq!(blob, sent);
    assert!(publisher.maybe_flush().is_none());

    let mut subscriber = Subscriber::new();
    subscriber.add_connection(1);
    subscriber.connection_react(1, true, true);
    subscriber.on_read(1, ReadOutcome::Data(sub_frame("c")));
    subscriber.on_broadcast(&blob);
    let to_drain = subscriber.publish_pending();
    assert_eq!(to_drain, vec![1, 1, 1]);
    assert_eq!(subscriber.conn_pending(1), sent);
}

#[test]
fn timer_flush_delivers_single_message() {
    // a huge threshold never flushes by size; the tick does
    let mut publisher = Publisher::new(1 << 20);
    publisher.add_connection(3);
    publisher.connection_react(3, true, true);
    publisher.on_read(3, ReadOutcome::Data(pub_frame("t", "tick")));
    assert!(publisher.maybe_flush().is_none());
    let blob = publisher.on_timer().expect("flushed by timer");
    assert_eq!(blob, pub_frame("t", "tick"));
}

#[test]
fn subscriber_disconnect_cleans_rosters() {
    let mut subscriber = Subscriber::new();
    subscriber.add_connection(9);
    subscriber.connection_react(9, true, true);
    subscriber.on_read(9, ReadOutcome::Data(sub_frame("z")));
    assert_eq!(subscriber.roster(&b"z".to_vec()), vec![9]);

    // peer closes
    assert!(matches!(subscriber.on_read(9, ReadOutcome::Closed), SubStep::Closed));
    assert!(!subscriber.has_connection(9));
    assert!(subscriber.roster(&b"z".to_vec()).is_empty());

    // a later message to z must be discarded quietly
    subscriber.on_broadcast(&pub_frame("z", "late"));
    let to_drain = subscriber.publish_pending();
    assert!(to_drain.is_empty());
}

#[test]
fn write_failure_unsubscribes_token() {
    let mut subscriber = Subscriber::new();
    subscriber.add_connection(4);
    subscriber.connection_react(4, true, true);
    subscriber.on_read(4, ReadOutcome::Data(sub_frame("w")));
    subscriber.on_broadcast(&pub_frame("w", "data"));
    let to_drain = subscriber.publish_pending();
    assert_eq!(to_drain, vec![4]);
    let r = subscriber.on_write(4, WriteOutcome::Closed);
    assert!(matches!(r, Some(Err(_))));
    assert!(!subscriber.has_connection(4));
    assert!(subscriber.roster(&b"w".to_vec()).is_empty());
}

#[test]
fn publisher_close_flushes_stage() {
    let mut publisher = Publisher::new(1 << 20);
    publisher.add_connection(5);
    publisher.connection_react(5, true, true);
    publisher.on_read(5, ReadOutcome::Data(pub_frame("c", "last words")));
    match publisher.on_read(5, ReadOutcome::Closed) {
        PubStep::Closed(blob) => assert_eq!(blob, pub_frame("c", "last words")),
        _ => panic!("expected closed with flush"),
    }
    assert!(!publisher.has_connection(5));
}

#[test]
fn one_ack_per_message_in_batch() {
    let mut publisher = Publisher::new(1 << 20);
    publisher.add_connection(6);
    publisher.connection_react(6, true, true);
    let mut data = pub_frame("a", "1");
    data.extend_from_slice(&pub_frame("a", "2"));
    data.extend_from_slice(&pub_frame("a", "3"));
    publisher.on_read(6, ReadOutcome::Data(data));
    let acks: Vec<u8> = b"{\"ack\":true}\n".iter().copied().cycle().take(13 * 3).collect();
    assert_eq!(publisher.conn_pending(6), acks);
}

#[test]
fn duplicate_subscription_causes_duplicate_delivery() {
    let mut subscriber = Subscriber::new();
    subscriber.add_connection(8);
    subscriber.connection_react(8, true, true);
    let mut two = sub_frame("d");
    two.extend_from_slice(&sub_frame("d"));
    subscriber.on_read(8, ReadOutcome::Data(two));
    assert_eq!(subscriber.roster(&b"d".to_vec()), vec![8, 8]);
    subscriber.on_broadcast(&pub_frame("d", "p"));
    let to_drain = subscriber.publish_pending();
    assert_eq!(to_drain, vec![8, 8]);
    let mut twice = pub_frame("d", "p");
    twice.extend_from_slice(&pub_frame("d", "p"));
    assert_eq!(subscriber.conn_pending(8), twice);
}

#[test]
fn never_published_channel_gets_no_writes() {
    let mut subscriber = Subscriber::new();
    subscriber.add_connection(1);
    subscriber.connection_react(1, true, true);
    subscriber.on_read(1, ReadOutcome::Data(sub_frame("quiet")));
    subscriber.on_broadcast(&pub_frame("loud", "noise"));
    let _ = subscriber.publish_pending();
    assert!(subscriber.conn_pending(1).is_empty());
}

#[test]
fn malformed_broadcast_frame_stalls_until_next_round() {
    let mut subscriber = Subscriber::new();
    subscriber.add_connection(2);
    subscriber.connection_react(2, true, true);
    subscriber.on_read(2, ReadOutcome::Data(sub_frame("ok")));
    let mut blob = b"broken\n".to_vec();
    blob.extend_from_slice(&pub_frame("ok", "good"));
    subscriber.on_broadcast(&blob);
    // the bad line is consumed and stops this round
    assert!(subscriber.publish_pending().is_empty());
    // the next round delivers the good frame after it
    assert_eq!(subscriber.publish_pending(), vec![2]);
    assert_eq!(subscriber.conn_pending(2), pub_frame("ok", "good"));
}
