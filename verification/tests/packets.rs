use lib::mqtt_entities::mqtt::{MQTTConfig, MsgType, MQTT};
use lib::mqtt_entities::mqtt_handler::MqttHandle;

fn handle(bytes: &[u8]) -> MqttHandle {
    let mut h = MqttHandle::new(MQTTConfig { keep_alive: 0, clear_session: true, will_flag: false });
    h.buff.extend_from_slice(bytes);
    h
}

/// A CONNECT for protocol "MQTT" level 4 with the given flags and keep-alive.
fn connect_packet(flags: u8, keep_alive: u16) -> Vec<u8> {
    let mut p = vec![0x10, 0, 0x00, 0x04, b'M', b'Q', b'T', b'T', 0x04, flags];
    p.push((keep_alive >> 8) as u8);
    p.push((keep_alive & 0xff) as u8);
    p.extend_from_slice(&[0x00, 0x02, b'i', b'd']);
    p[1] = (p.len() - 2) as u8;
    p
}

#[test]
fn judge_needs_a_header_and_the_whole_packet() {
    assert_eq!(handle(&[]).judge_if_buff_legal(), (false, 0));
    assert_eq!(handle(&[0x10]).judge_if_buff_legal(), (false, 0));
    assert_eq!(handle(&[0x10, 3, 1]).judge_if_buff_legal(), (false, 3));
    assert_eq!(handle(&[0x10, 3, 1, 2, 3]).judge_if_buff_legal(), (true, 3));
    assert_eq!(handle(&[0xC0, 0]).judge_if_buff_legal(), (true, 0));
}

#[test]
fn heartbeat_answers_pingresp_and_consumes_one_packet() {
    let mut h = handle(&[0xC0, 0x00, 0x30, 0x01]);
    assert_eq!(h.handle_heartbeat(), Some([0xD0, 0x00]));
    assert_eq!(h.buff, vec![0x30, 0x01]);
    let mut h = handle(&[0xC0]);
    assert_eq!(h.handle_heartbeat(), None);
    assert_eq!(h.buff, vec![0xC0]);
}

#[test]
fn connect_with_clean_session_is_accepted_without_session() {
    let mut p = connect_packet(0xC2, 60);
    p.extend_from_slice(&[0xC0, 0x00]);
    let mut h = handle(&p);
    assert_eq!(h.handle_connect(), Some([0x00, 0x00]));
    assert_eq!(h.config.keep_alive, 60);
    assert!(h.config.clear_session);
    assert!(!h.config.will_flag);
    assert_eq!(h.buff, vec![0xC0, 0x00]);
}

#[test]
fn connect_keeping_the_session_reports_session_present() {
    let mut h = handle(&connect_packet(0xC4, 300));
    assert_eq!(h.handle_connect(), Some([0x01, 0x00]));
    assert_eq!(h.config.keep_alive, 300);
    assert!(!h.config.clear_session);
    assert!(h.config.will_flag);
    assert!(h.buff.is_empty());
}

#[test]
fn connect_without_username_or_password_or_with_reserved_bit_is_refused() {
    let mut h = handle(&connect_packet(0x42, 60));
    assert_eq!(h.handle_connect(), None);
    assert_eq!(h.config.keep_alive, 0);
    assert!(h.buff.is_empty());

    let mut h = handle(&connect_packet(0x82, 60));
    assert_eq!(h.handle_connect(), None);

    // The reserved bit refuses the CONNECT after the session flags are taken.
    let mut h = handle(&connect_packet(0xC1, 60));
    assert_eq!(h.handle_connect(), None);
    assert!(!h.config.clear_session);
    assert_eq!(h.config.keep_alive, 0);
}

#[test]
fn connect_too_short_is_refused_and_incomplete_is_kept() {
    let mut h = handle(&[0x10, 0x01, 0x00]);
    assert_eq!(h.handle_connect(), None);
    assert!(h.buff.is_empty());
    let mut h = handle(&[0x10, 0x05, 0x00]);
    assert_eq!(h.handle_connect(), None);
    assert_eq!(h.buff, vec![0x10, 0x05, 0x00]);
}

#[test]
fn connect_ending_before_its_keep_alive_would_overrun() {
    let p = vec![0x10, 9, 0x00, 0x04, b'M', b'Q', b'T', b'T', 0x04, 0xC2, 0x00];
    assert!(handle(&p).connect_would_panic());
    assert!(!handle(&connect_packet(0xC2, 60)).connect_would_panic());
    assert!(!handle(&[0x10, 9, 0x00]).connect_would_panic());
}

#[test]
fn publish_returns_topic_and_whole_packet() {
    let p = vec![0x30, 6, 0x00, 0x03, b'a', b'/', b'b', b'x'];
    let mut h = handle(&[&p[..], &[0xC0, 0x00]].concat());
    let (topic, packet) = h.handle_publish().unwrap();
    assert_eq!(topic, "a/b");
    assert_eq!(packet, p);
    assert_eq!(h.buff, vec![0xC0, 0x00]);
}

#[test]
fn publish_with_non_utf8_topic_is_dropped() {
    let mut h = handle(&[0x30, 4, 0x00, 0x02, 0xFF, 0xFE]);
    assert_eq!(h.handle_publish(), None);
    assert!(h.buff.is_empty());
    assert!(!handle(&[0x30, 4, 0x00, 0x02, 0xFF, 0xFE]).publish_would_panic());
}

#[test]
fn publish_with_topic_past_the_packet_would_overrun() {
    assert!(handle(&[0x30, 3, 0x00, 0x05, b'a']).publish_would_panic());
    assert!(handle(&[0x30, 1, 0x00]).publish_would_panic());
    assert!(!handle(&[0x30, 3, 0x00, 0x01, b'a']).publish_would_panic());
}

#[test]
fn subscribe_lists_filter_levels() {
    let mut h = handle(&[0x82, 8, 0x00, 0x01, 0x00, 0x03, b'a', b'/', b'b', 0x00]);
    assert!(!h.subscribe_would_panic());
    let routes = h.handle_subscribe().unwrap();
    assert_eq!(routes, vec![vec!["a".to_string(), "b".to_string()]]);
    assert!(h.buff.is_empty());
}

#[test]
fn subscribe_keeps_empty_levels() {
    let mut h = handle(&[0x82, 8, 0x00, 0x01, 0x00, 0x03, b'/', b'x', b'/', 0x00]);
    let routes = h.handle_subscribe().unwrap();
    assert_eq!(routes, vec![vec!["".to_string(), "x".to_string(), "".to_string()]]);
}

#[test]
fn subscribe_stops_at_a_non_utf8_filter() {
    let mut h = handle(&[0x82, 7, 0x00, 0x01, 0x00, 0x02, 0xFF, 0xFE, 0x00]);
    assert_eq!(h.handle_subscribe(), Some(vec![]));
}

#[test]
fn subscribe_lists_several_filters() {
    let bytes = [0x82, 12, 0x00, 0x0A, 0x00, 0x03, b'a', b'/', b'b', 0x00, 0x00, 0x01, b'c', 0x01];
    let mut h = handle(&bytes);
    assert!(!h.subscribe_would_panic());
    assert_eq!(
        h.handle_subscribe(),
        Some(vec![vec!["a".to_string(), "b".to_string()], vec!["c".to_string()]])
    );
    assert!(h.buff.is_empty());
    let bytes = [0x82, 11, 0x00, 0x01, 0x00, 0x01, b'a', 0x00, 0x00, 0x02, 0x01, b'x', 0x00];
    assert_eq!(
        handle(&bytes).handle_subscribe(),
        Some(vec![vec!["a".to_string()], vec!["\u{1}x".to_string()]])
    );
}

#[test]
fn subscribe_without_the_last_qos_byte_still_lists_the_filter() {
    let mut h = handle(&[0x82, 5, 0x00, 0x01, 0x00, 0x01, b'a']);
    assert_eq!(h.handle_subscribe(), Some(vec![vec!["a".to_string()]]));
}

#[test]
fn subscribe_whose_second_filter_runs_past_the_packet_would_overrun() {
    let bytes = [0x82, 10, 0x00, 0x01, 0x00, 0x01, b'a', 0x00, 0x00, 0x05, b'c', 0x00];
    assert!(handle(&bytes).subscribe_would_panic());
    let bytes = [0x82, 6, 0x00, 0x01, 0x00, 0x05, b'c', 0x00];
    assert!(handle(&bytes).subscribe_would_panic());
}

#[test]
fn incomplete_packets_are_left_in_the_buffer() {
    let mut h = handle(&[0x82, 8, 0x00]);
    assert_eq!(h.handle_subscribe(), None);
    assert_eq!(h.buff, vec![0x82, 8, 0x00]);
    let mut h = handle(&[0x30, 8, 0x00]);
    assert_eq!(h.handle_publish(), None);
    assert_eq!(h.buff, vec![0x30, 8, 0x00]);
}

#[test]
fn session_connack_and_loop_work() {
    let mut m = MQTT::init(7, 1_000);
    assert_eq!(m.client_id(), 7);
    assert!(!m.is_closed());
    assert!(m._is_emtpy_link);
    assert_eq!(m.handle_loop_work(), None);
    assert_eq!(m.get_first_buff(), 0);
    let p = connect_packet(0xC0, 10);
    assert!(m.read_buff(&p, 2_000));
    assert_eq!(m.last_buff_time, 2_000);
    assert_eq!(m.get_first_buff(), 0x10);
    assert_eq!(m.handle_loop_work(), Some(MsgType::CONNECT));
    assert_eq!(m.handle_connect(), [0x20, 0x02, 0x01, 0x00]);
    assert!(!m._is_emtpy_link);
    assert!(!m.read_buff(&[0xC0], 3_000));
    assert_eq!(m.last_buff_time, 2_000);
}

#[test]
fn refused_connect_answers_zeros_and_stays_unconnected() {
    let mut m = MQTT::init(1, 0);
    m.read_buff(&connect_packet(0x02, 10), 0);
    assert_eq!(m.handle_connect(), [0x20, 0x02, 0x00, 0x05]);
    assert!(m._is_emtpy_link);
    let mut m = MQTT::init(1, 0);
    m.read_buff(&connect_packet(0xC3, 10), 0);
    assert_eq!(m.handle_connect(), [0x20, 0x02, 0x00, 0x05]);
    assert!(m._is_emtpy_link);
}

#[test]
fn loop_work_kinds() {
    let kinds = [
        (0x10, Some(MsgType::CONNECT)),
        (0x82, Some(MsgType::Sub)),
        (0x30, Some(MsgType::Pub)),
        (0xC0, Some(MsgType::PINGREQ)),
        (0xE0, Some(MsgType::Disconnect)),
        (0x31, None),
    ];
    for (b, k) in kinds {
        let mut m = MQTT::init(0, 0);
        m.read_buff(&[b, 0], 0);
        assert_eq!(m.handle_loop_work(), k);
    }
}

#[test]
fn timeout_after_one_and_a_half_keep_alive() {
    let mut m = MQTT::init(0, 0);
    m.read_buff(&connect_packet(0xC2, 60), 5);
    m.handle_connect();
    assert!(!m.if_timeout(5 + 90_000_000_000));
    assert!(m.if_timeout(5 + 90_000_000_001));
    // A connection that never connected does not time out.
    let mut fresh = MQTT::init(1, 0);
    assert!(!fresh.if_timeout(u128::MAX));
}

#[test]
fn keep_alive_zero_times_out_as_soon_as_time_passes() {
    let mut m = MQTT::init(0, 0);
    m.read_buff(&connect_packet(0xC2, 0), 10);
    m.handle_connect();
    assert!(!m.if_timeout(10));
    assert!(m.if_timeout(11));
}

#[test]
fn heartbeat_keeps_alive() {
    let mut m = MQTT::init(0, 0);
    m.read_buff(&connect_packet(0xC2, 1), 0);
    m.handle_connect();
    assert!(m.if_timeout(2_000_000_000));
    m.read_buff(&[0xC0, 0x00], 1_000);
    assert_eq!(m.handle_heartbeat(2_000_000_000), Some([0xD0, 0x00]));
    assert!(!m.if_timeout(2_000_000_000));
}

#[test]
fn write_outcome() {
    let mut m = MQTT::init(0, 0);
    assert!(m.write(4, Some(4), 50));
    assert_eq!(m.last_buff_time, 50);
    assert!(!m.write(4, Some(3), 60));
    assert!(!m.write(4, None, 70));
    assert_eq!(m.last_buff_time, 50);
}

#[test]
fn shutdown_outcome() {
    let mut m = MQTT::init(0, 0);
    assert!(!m.shutdown(false));
    assert!(!m.is_closed());
    assert!(m.shutdown(true));
    assert!(m.is_closed());
}

#[test]
fn read_more_while_chunks_are_full() {
    assert!(MQTT::read_more(13));
    assert!(!MQTT::read_more(12));
    assert!(!MQTT::read_more(0));
}
