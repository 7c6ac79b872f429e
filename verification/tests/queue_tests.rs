use mqueue::queue::{Queue, QueueConfig};

fn make_config(name: &str) -> QueueConfig {
    QueueConfig {
        name: name.to_string(),
        data_directory: format!("./data/{}", name),
        time_to_live: 1,
        segment_size: 4 * 1024 * 1024,
    }
}

fn get_queue_opt(name: &str) -> Queue {
    Queue::new(make_config(name))
}

fn gen_message() -> &'static [u8] {
    b"333333333333333333333333333333333333333333333333333333333333333333333333333333333333333333333333"
}

#[test]
fn test_fill() {
    let mut q = get_queue_opt("test_fill");
    let message = gen_message();
    for _i in 0..100_000 {
        let r = q.push(message);
        assert!(r.is_some());
    }
}

#[test]
fn test_put_get() {
    let mut q = get_queue_opt("test_put_get");
    let message = gen_message();
    assert!(q.create_channel("test"));
    for _i in 0..100_000 {
        assert!(q.push(message).is_some());
        let m = q.get("test");
        assert!(m.is_some());
    }
}

#[test]
fn test_create_channel() {
    let mut q = get_queue_opt("test_create_channel");
    let message = gen_message();
    assert!(q.get("test").is_none());
    assert!(q.push(message).is_some());
    assert!(q.create_channel("test") == true);
    assert!(q.create_channel("test") == false);
    assert!(q.get("test").is_some());
}

#[test]
fn test_in_flight() {
    let mut q = get_queue_opt("test_in_flight");
    let message = gen_message();
    assert!(q.get("test").is_none());
    assert!(q.create_channel("test") == true);
    assert!(q.create_channel("test") == false);
    assert!(q.push(message).is_some());
    assert!(q.get("test").unwrap().is_ok());
    assert!(q.get("test").unwrap().is_err());
}

#[test]
fn test_in_flight_timeout() {
    let mut q = get_queue_opt("test_in_flight_timeout");
    let message = gen_message();
    assert!(q.create_channel("test") == true);
    assert!(q.push(message).is_some());
    assert!(q.get("test").unwrap().is_ok());
    assert!(q.get("test").unwrap().is_err());
    let start = clock_ticks::precise_time_s();
    while clock_ticks::precise_time_s() - start < 1.001 {}
    q.tick();
    assert!(q.get("test").unwrap().is_ok());
}

#[test]
fn test_queue_recover() {
    let mut q = get_queue_opt("test_queue_recover");
    let message = gen_message();
    assert!(q.create_channel("test") == true);
    assert!(q.push(message).is_some());
    assert!(q.push(message).is_some());
    assert!(q.get("test").unwrap().is_ok());
    assert!(q.get("test").unwrap().is_ok());
    assert!(q.get("test").unwrap().is_err());
    let cp = q.checkpoint(true);

    println!("{:#?}", &q);

    let backend = q.into_backend();
    let mut q = Queue::recover(make_config("test_queue_recover"), Some(cp), backend);

    println!("{:#?}", &q);
    assert!(q.create_channel("test") == false);
    assert!(q.get("test").unwrap().is_ok());
    assert!(q.get("test").unwrap().is_ok());
    assert!(q.get("test").unwrap().is_err());
}

#[test]
fn test_gc() {
    let message = gen_message();
    let mut q = get_queue_opt("test_gc");
    assert!(q.create_channel("test") == true);

    while q.backend.files_count() < 3 {
        assert!(q.push(message).is_some());
        let get_result = q.get("test");
        assert!(get_result.as_ref().unwrap().is_ok());
        assert!(q.ack("test", get_result.unwrap().unwrap().id()).unwrap());
    }
    q.maintenance();

    // gc should get rid of the first two files
    assert_eq!(q.backend.files_count(), 1);
}
