use mqueue::queue::{
    checkpoint_is_compatible, ChannelCheckpoint, Queue, QueueCheckpoint, QueueConfig, QueueState,
};

fn make_config(name: &str, ttl: u32, segment_size: u64) -> QueueConfig {
    QueueConfig {
        name: name.to_string(),
        data_directory: format!("./data/{}", name),
        time_to_live: ttl,
        segment_size,
    }
}

fn small_queue(name: &str) -> Queue {
    Queue::new(make_config(name, 60, 1024))
}

#[test]
fn push_ids_monotone() {
    let mut q = Queue::new(make_config("push_ids_monotone", 1, 4 * 1024 * 1024));
    let payload = [51u8; 96];
    for i in 1..=100_000u64 {
        assert_eq!(q.push(&payload), Some(i));
    }
}

#[test]
fn put_get_ids_in_lockstep() {
    let mut q = small_queue("put_get_ids_in_lockstep");
    assert!(q.create_channel("test"));
    for i in 1..=1000u64 {
        assert_eq!(q.push(b"payload"), Some(i));
        match q.get("test") {
            Some(Ok(m)) => assert_eq!(m.id(), i),
            _ => panic!("expected message {}", i),
        }
        assert_eq!(q.ack("test", i), Some(true));
    }
}

#[test]
fn queue_name() {
    let q = small_queue("queue_name");
    assert_eq!(q.name(), "queue_name");
}

#[test]
fn tick_latches_clock() {
    let mut q = small_queue("tick_latches_clock");
    q.tick();
    assert!(q.clock > 0);
}

#[test]
fn get_hint_is_tail() {
    let mut q = small_queue("get_hint_is_tail");
    assert!(q.create_channel("c"));
    match q.get("c") {
        Some(Err(pos)) => assert_eq!(pos, 1),
        _ => panic!("expected a position hint"),
    }
    assert_eq!(q.push(b"one"), Some(1));
    match q.get("c") {
        Some(Ok(m)) => assert_eq!(m.id(), 1),
        _ => panic!("expected a message"),
    }
    match q.get("c") {
        Some(Err(pos)) => assert_eq!(pos, 2),
        _ => panic!("expected a position hint"),
    }
}

#[test]
fn channel_sees_only_later_pushes() {
    let mut q = small_queue("channel_sees_only_later_pushes");
    assert_eq!(q.push(b"before"), Some(1));
    assert!(q.create_channel("late"));
    // the cursor starts at the log tail, so the earlier push is invisible
    match q.get("late") {
        Some(Err(pos)) => assert_eq!(pos, 2),
        _ => panic!("expected a position hint"),
    }
    assert_eq!(q.push(b"after"), Some(2));
    match q.get("late") {
        Some(Ok(m)) => assert_eq!(m.id(), 2),
        _ => panic!("expected a message"),
    }
}

#[test]
fn ack_unknown_channel() {
    let mut q = small_queue("ack_unknown_channel");
    assert_eq!(q.ack("nope", 1), None);
}

#[test]
fn ack_idempotent() {
    let mut q = small_queue("ack_idempotent");
    assert!(q.create_channel("c"));
    assert_eq!(q.push(b"m"), Some(1));
    assert!(q.get("c").unwrap().is_ok());
    assert_eq!(q.ack("c", 1), Some(true));
    assert_eq!(q.ack("c", 1), Some(false));
    // the duplicate ack changed nothing: the channel is still caught up
    match q.get("c") {
        Some(Err(pos)) => assert_eq!(pos, 2),
        _ => panic!("expected a position hint"),
    }
}

#[test]
fn ack_wrong_id() {
    let mut q = small_queue("ack_wrong_id");
    assert!(q.create_channel("c"));
    assert_eq!(q.push(b"m"), Some(1));
    assert!(q.get("c").unwrap().is_ok());
    assert_eq!(q.ack("c", 77), Some(false));
    assert_eq!(q.ack("c", 1), Some(true));
}

#[test]
fn delete_channel_discards_leases() {
    let mut q = small_queue("delete_channel_discards_leases");
    assert!(q.create_channel("c"));
    assert_eq!(q.push(b"m"), Some(1));
    assert!(q.get("c").unwrap().is_ok());
    assert!(q.delete_channel("c"));
    assert!(q.get("c").is_none());
    assert!(!q.delete_channel("c"));
}

#[test]
fn purge_resets() {
    let mut q = small_queue("purge_resets");
    assert!(q.create_channel("a"));
    assert!(q.create_channel("b"));
    for _ in 0..10 {
        assert!(q.push(b"payload").is_some());
    }
    assert!(q.get("a").unwrap().is_ok());
    assert!(q.get("b").unwrap().is_ok());
    q.purge();
    assert_eq!(q.backend.files_count(), 1);
    // ids restart at 1 and every channel's cursor is back at 1
    assert_eq!(q.push(b"fresh"), Some(1));
    match q.get("a") {
        Some(Ok(m)) => assert_eq!(m.id(), 1),
        _ => panic!("expected the fresh message"),
    }
    match q.get("b") {
        Some(Ok(m)) => assert_eq!(m.id(), 1),
        _ => panic!("expected the fresh message"),
    }
}

#[test]
fn maintenance_without_channels_keeps_files() {
    let mut q = small_queue("maintenance_without_channels_keeps_files");
    for _ in 0..100 {
        assert!(q.push(&[7u8; 100]).is_some());
    }
    let files = q.backend.files_count();
    assert!(files >= 3);
    // no channels: the minimum is 0 and nothing is collected
    q.maintenance();
    assert_eq!(q.backend.files_count(), files);
}

#[test]
fn maintenance_spares_inflight() {
    let mut q = small_queue("maintenance_spares_inflight");
    assert!(q.create_channel("c"));
    for _ in 0..100 {
        assert!(q.push(&[7u8; 100]).is_some());
        assert!(q.get("c").unwrap().is_ok());
    }
    assert!(q.backend.files_count() >= 3);
    // everything is still leased and unacked, so nothing may be retired
    q.maintenance();
    assert!(q.backend.get(1).is_some());
}

#[test]
fn checkpoint_carries_real_tail() {
    let mut q = small_queue("checkpoint_carries_real_tail");
    assert!(q.create_channel("c"));
    for i in 1..=3u64 {
        assert_eq!(q.push(b"m"), Some(i));
    }
    for _ in 0..3 {
        assert!(q.get("c").unwrap().is_ok());
    }
    assert_eq!(q.ack("c", 2), Some(true));
    let cp = q.checkpoint(false);
    assert!(matches!(cp.state, QueueState::Ready));
    assert_eq!(cp.channels.len(), 1);
    assert_eq!(cp.channels[0].0, "c");
    // id 1 is still unacked, so the persisted tail rolls back to it
    assert_eq!(cp.channels[0].1.tail, 1);
}

#[test]
fn recover_without_checkpoint_starts_fresh() {
    let q = small_queue("recover_without_checkpoint_starts_fresh");
    let backend = q.into_backend();
    let mut q = Queue::recover(
        make_config("recover_without_checkpoint_starts_fresh", 60, 1024),
        None,
        backend,
    );
    assert!(q.create_channel("c"));
}

#[test]
fn recover_redelivers_unacked() {
    let mut q = small_queue("recover_redelivers_unacked");
    assert!(q.create_channel("c"));
    for i in 1..=3u64 {
        assert_eq!(q.push(b"m"), Some(i));
    }
    for _ in 0..3 {
        assert!(q.get("c").unwrap().is_ok());
    }
    assert_eq!(q.ack("c", 3), Some(true));
    let cp = q.checkpoint(true);
    let backend = q.into_backend();
    let mut q = Queue::recover(make_config("recover_redelivers_unacked", 60, 1024), Some(cp), backend);
    // ids 1 and 2 were never acked; the persisted real tail rolls back to 1
    // and everything from there on is delivered again, id 3 included
    for i in 1..=3u64 {
        match q.get("c") {
            Some(Ok(m)) => assert_eq!(m.id(), i),
            _ => panic!("expected redelivery"),
        }
    }
    assert!(q.get("c").unwrap().is_err());
}

#[test]
fn checkpoint_compatibility_guards_recovery() {
    let mut q = small_queue("checkpoint_compatibility_guards_recovery");
    assert!(q.create_channel("c"));
    assert_eq!(q.push(b"m"), Some(1));
    let good = q.checkpoint(true);
    let backend = q.into_backend();
    assert!(checkpoint_is_compatible(&good, &backend));
    // a persisted tail beyond the log cannot be replayed
    let stale = QueueCheckpoint {
        state: QueueState::Ready,
        channels: vec![("c".to_string(), ChannelCheckpoint { last_touched: 0, tail: 99 })],
    };
    assert!(!checkpoint_is_compatible(&stale, &backend));
    // neither can a record naming the same channel twice
    let doubled = QueueCheckpoint {
        state: QueueState::Ready,
        channels: vec![
            ("c".to_string(), ChannelCheckpoint { last_touched: 0, tail: 1 }),
            ("c".to_string(), ChannelCheckpoint { last_touched: 0, tail: 1 }),
        ],
    };
    assert!(!checkpoint_is_compatible(&doubled, &backend));
    let mut q = Queue::recover(
        make_config("checkpoint_compatibility_guards_recovery", 60, 1024),
        Some(good),
        backend,
    );
    assert!(q.create_channel("c") == false);
}

#[test]
fn recover_purging_serves_no_channels() {
    let q = small_queue("recover_purging_serves_no_channels");
    let backend = q.into_backend();
    let cp = QueueCheckpoint { state: QueueState::Purging, channels: Vec::new() };
    let mut q = Queue::recover(
        make_config("recover_purging_serves_no_channels", 60, 1024),
        Some(cp),
        backend,
    );
    assert!(q.get("c").is_none());
}
