use lib::mqtt_server::{LoopAction, MqttServerEntity, ReadOutcome};

fn connect_packet(flags: u8, keep_alive: u16) -> Vec<u8> {
    let mut p = vec![0x10, 0, 0x00, 0x04, b'M', b'Q', b'T', b'T', 0x04, flags];
    p.push((keep_alive >> 8) as u8);
    p.push((keep_alive & 0xff) as u8);
    p[1] = (p.len() - 2) as u8;
    p
}

fn subscribe_packet(topic: &str) -> Vec<u8> {
    let mut p = vec![0x82, 0, 0x00, 0x01, 0x00, topic.len() as u8];
    p.extend_from_slice(topic.as_bytes());
    p.push(0x00);
    p[1] = (p.len() - 2) as u8;
    p
}

fn publish_packet(topic: &str, payload: &[u8]) -> Vec<u8> {
    let mut p = vec![0x30, 0, 0x00, topic.len() as u8];
    p.extend_from_slice(topic.as_bytes());
    p.extend_from_slice(payload);
    p[1] = (p.len() - 2) as u8;
    p
}

/// Runs the steps of session `i` until the round ends, collecting actions.
fn drain(s: &mut MqttServerEntity, i: usize, now: u128) -> Vec<LoopAction> {
    let mut out = Vec::new();
    loop {
        assert!(!s.step_would_block(i));
        match s.step(i, now) {
            LoopAction::Stop => break,
            LoopAction::Continue => {}
            a => out.push(a),
        }
    }
    out
}

fn connected_server() -> MqttServerEntity {
    let mut s = MqttServerEntity::init();
    assert_eq!(s.handle_incoming(0), (0, true));
    assert_eq!(s.handle_incoming(0), (1, true));
    for i in 0..2 {
        assert!(s.read_task(i, &connect_packet(0xC2, 60), 1));
        let acts = drain(&mut s, i, 1);
        assert_eq!(acts.len(), 1);
        match &acts[0] {
            LoopAction::Reply(b) => assert_eq!(b, &vec![0x20, 0x02, 0x00, 0x00]),
            other => panic!("unexpected {:?}", other),
        }
    }
    s
}

#[test]
fn incoming_connections_get_numbers_in_order() {
    let mut s = MqttServerEntity::init();
    assert_eq!(s.task_count(), 0);
    assert!(!s.heart_beat_running());
    assert_eq!(s.handle_incoming(5), (0, true));
    assert_eq!(s.handle_incoming(6), (1, true));
    assert_eq!(s.task_count(), 2);
    assert_eq!(s.task_id(1), 1);
}

#[test]
fn subscribe_then_publish_delivers_the_packet() {
    let mut s = connected_server();
    s.read_task(0, &subscribe_packet("home/kitchen"), 2);
    assert!(drain(&mut s, 0, 2).is_empty());
    let p = publish_packet("home/kitchen", b"21C");
    s.read_task(1, &p, 3);
    let acts = drain(&mut s, 1, 3);
    assert_eq!(acts.len(), 1);
    match &acts[0] {
        LoopAction::Deliver(ids, packet) => {
            assert_eq!(ids, &vec![0]);
            assert_eq!(packet, &p);
        }
        other => panic!("unexpected {:?}", other),
    }
    // Another topic reaches nobody.
    s.read_task(1, &publish_packet("home/hall", b"x"), 4);
    assert!(drain(&mut s, 1, 4).is_empty());
}

#[test]
fn unconnected_sessions_ignore_subscribe_and_publish() {
    let mut s = MqttServerEntity::init();
    s.handle_incoming(0);
    s.read_task(0, &subscribe_packet("a"), 1);
    assert!(!s.step_would_block(0));
    match s.step(0, 1) {
        LoopAction::Continue => {}
        other => panic!("unexpected {:?}", other),
    }
    // The packet stays, so the same step comes again.
    assert_eq!(s.next_message(0), lib::mqtt_entities::mqtt::MsgType::Sub);
}

#[test]
fn heartbeat_is_answered_for_connected_sessions() {
    let mut s = connected_server();
    s.read_task(0, &[0xC0, 0x00], 5);
    let acts = drain(&mut s, 0, 7);
    match &acts[..] {
        [LoopAction::Reply(b)] => assert_eq!(b, &vec![0xD0, 0x00]),
        other => panic!("unexpected {:?}", other),
    }
    assert!(!s.check_timeout(0, 7));
}

#[test]
fn a_session_that_connected_without_keep_alive_handles_nothing_more() {
    let mut s = MqttServerEntity::init();
    s.handle_incoming(0);
    s.read_task(0, &connect_packet(0xC2, 0), 1);
    drain(&mut s, 0, 1);
    s.read_task(0, &[0xC0, 0x00], 2);
    match s.step(0, 2) {
        LoopAction::Stop => {}
        other => panic!("unexpected {:?}", other),
    }
}

#[test]
fn disconnect_changes_nothing() {
    let mut s = connected_server();
    s.read_task(0, &[0xE0, 0x00], 2);
    match s.step(0, 2) {
        LoopAction::Continue => {}
        other => panic!("unexpected {:?}", other),
    }
    assert_eq!(s.next_message(0), lib::mqtt_entities::mqtt::MsgType::Disconnect);
}

#[test]
fn subscribing_twice_to_a_topic_would_block() {
    let mut s = connected_server();
    s.read_task(0, &subscribe_packet("t"), 2);
    drain(&mut s, 0, 2);
    s.read_task(0, &subscribe_packet("t"), 3);
    assert!(s.step_would_block(0));
    assert!(s.sub_would_block(0));
}

#[test]
fn publishing_to_oneself_would_block() {
    let mut s = connected_server();
    s.read_task(0, &subscribe_packet("t"), 2);
    drain(&mut s, 0, 2);
    s.read_task(0, &publish_packet("t", b"x"), 3);
    assert!(s.step_would_block(0));
    assert!(s.pub_would_block(0));
    s.read_task(1, &publish_packet("t", b"x"), 3);
    assert!(!s.step_would_block(1));
}

#[test]
fn timeouts_shutdown_and_removal() {
    let mut s = connected_server();
    assert!(!s.check_timeout(0, 1 + 90_000_000_000));
    assert!(s.check_timeout(0, 1 + 90_000_000_001));
    assert!(s.shutdown_task(0, true));
    assert!(!s.shutdown_task(1, false));
    assert_eq!(s.closed_client_ids(), vec![0]);
    assert!(!s.removal_in_bounds(&vec![0, 1]));
    assert!(s.removal_in_bounds(&vec![1, 0]));
    s.remove_timed_out(&vec![0]);
    assert_eq!(s.task_count(), 1);
    assert_eq!(s.task_id(0), 1);
    assert_eq!(s.closed_client_ids(), vec![0]);
}

#[test]
fn closed_subscribers_are_dropped_when_someone_subscribes_again() {
    let mut s = connected_server();
    s.read_task(0, &subscribe_packet("t"), 2);
    drain(&mut s, 0, 2);
    s.shutdown_task(0, true);
    s.remove_timed_out(&vec![0]);
    s.handle_incoming(3);
    s.read_task(1, &connect_packet(0xC2, 60), 3);
    drain(&mut s, 1, 3);
    // Session 1 (the former second connection) subscribes: the closed 0 is dropped.
    s.read_task(0, &subscribe_packet("t"), 4);
    drain(&mut s, 0, 4);
    s.read_task(1, &publish_packet("t", b"y"), 5);
    match &drain(&mut s, 1, 5)[..] {
        [LoopAction::Deliver(ids, _)] => assert_eq!(ids, &vec![1]),
        other => panic!("unexpected {:?}", other),
    }
}

#[test]
fn read_and_check_decides_what_comes_next() {
    let mut s = connected_server();
    assert_eq!(s.read_and_check(0, &[0xC0], 5), ReadOutcome::Idle);
    assert_eq!(s.read_and_check(0, &[0xC0, 0x00], 6), ReadOutcome::Dispatch);
    assert_eq!(s.read_and_check(1, &[], 1 + 90_000_000_001), ReadOutcome::Expired);
    // Bytes read count as activity before the timeout is judged.
    assert_eq!(s.read_and_check(1, &[0xC0, 0x00], 2 + 90_000_000_001), ReadOutcome::Dispatch);
}

#[test]
fn record_write_updates_the_session() {
    let mut s = connected_server();
    assert!(s.record_write(1, 4, Some(4), 100));
    assert!(!s.check_timeout(1, 100));
    assert!(!s.record_write(1, 4, Some(2), 200));
    assert!(s.record_write(42, 3, Some(3), 300));
    s.finish_loop();
    assert!(!s.heart_beat_running());
}

#[test]
fn each_step_takes_one_whole_packet_off_the_buffer() {
    let mut s = connected_server();
    let mut bytes = publish_packet("a", b"x");
    bytes.extend_from_slice(&[0xC0, 0x00]);
    assert!(s.read_task(0, &bytes, 3));
    assert_eq!(s.next_message(0), lib::mqtt_entities::mqtt::MsgType::Pub);
    match s.step(0, 3) {
        LoopAction::Continue => {}
        other => panic!("unexpected {:?}", other),
    }
    assert_eq!(s.next_message(0), lib::mqtt_entities::mqtt::MsgType::PINGREQ);
    match s.step(0, 3) {
        LoopAction::Reply(b) => assert_eq!(b, vec![0xD0, 0x00]),
        other => panic!("unexpected {:?}", other),
    }
    assert_eq!(s.next_message(0), lib::mqtt_entities::mqtt::MsgType::NoMessage);
    match s.step(0, 3) {
        LoopAction::Stop => {}
        other => panic!("unexpected {:?}", other),
    }
}
