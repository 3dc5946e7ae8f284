use liveion_core::forward::{relay_step, RelayAction, RelayEvent};
use liveion_core::forward::{
    channel_plan, channel_step, needs_fallback, ptz_addresses, socket_address, udp_message,
    ChannelAction, ChannelEndpoints, ChannelEvent, PtzRelay,
};

#[test]
fn socket_address_text() {
    assert_eq!(socket_address("127.0.0.1", 1234), "127.0.0.1:1234");
    assert_eq!(socket_address("[::1]", 0), "[::1]:0");
}

#[test]
fn channel_plan_from_endpoints() {
    assert!(channel_plan(None).is_none());
    let plan = channel_plan(Some(ChannelEndpoints {
        listen_host: String::from("0.0.0.0"),
        listen_port: 7774,
        target_host: String::from("127.0.0.1"),
        target_port: 1234,
    }))
    .unwrap();
    assert_eq!(plan.bind, "0.0.0.0:7774");
    assert_eq!(plan.target, "127.0.0.1:1234");
}

#[test]
fn channel_passes_bytes_through() {
    match channel_step(ChannelEvent::DataChannelMessage(vec![1, 2, 3])) {
        ChannelAction::SendToTarget(d) => assert_eq!(d, vec![1, 2, 3]),
        _ => panic!("data-channel messages go to the target"),
    }
    match channel_step(ChannelEvent::UdpDatagram(b"{\"pan\":1}".to_vec())) {
        ChannelAction::SendToDataChannel(d) => assert_eq!(d, b"{\"pan\":1}".to_vec()),
        _ => panic!("datagrams go to the data channel"),
    }
    assert!(matches!(channel_step(ChannelEvent::DataChannelClosed), ChannelAction::Stop));
    assert!(matches!(channel_step(ChannelEvent::DataChannelLagged(5)), ChannelAction::Wait));
    assert!(matches!(channel_step(ChannelEvent::UdpError), ChannelAction::Wait));
}

#[test]
fn ptz_addresses_from_config() {
    let a = ptz_addresses("127.0.0.1", 8890, 8891);
    assert_eq!(a.target, "127.0.0.1:8890");
    assert_eq!(a.listen, "0.0.0.0:8891");
}

#[test]
fn fallback_only_when_no_client_got_it() {
    assert!(needs_fallback(0));
    assert!(!needs_fallback(1));
    assert!(!needs_fallback(3));
}

#[test]
fn udp_message_wraps_datagram() {
    let msg = udp_message("10.0.0.5:4000", b"hello");
    let text = String::from_utf8(msg).unwrap();
    assert_eq!(
        text,
        "{\"client_id\":\"10.0.0.5:4000\",\"data\":\"hello\",\"type\":\"udp_to_datachannel\"}"
    );
}

#[test]
fn udp_message_replaces_invalid_utf8_and_escapes() {
    let msg = udp_message("::1:9", &[b'a', 0xff, b'"']);
    let text = String::from_utf8(msg).unwrap();
    assert_eq!(
        text,
        "{\"client_id\":\"::1:9\",\"data\":\"a\u{fffd}\\\"\",\"type\":\"udp_to_datachannel\"}"
    );
}

#[test]
fn relay_records_clients_once() {
    let mut relay: PtzRelay<u32> = PtzRelay::new();
    assert_eq!(relay.client_count(), 0);
    assert_eq!(relay.record_client("10.0.0.5", 4000, 1), "10.0.0.5:4000");
    assert_eq!(relay.record_client("10.0.0.6", 4000, 2), "10.0.0.6:4000");
    assert_eq!(relay.record_client("10.0.0.5", 4000, 3), "10.0.0.5:4000");
    assert_eq!(relay.client_count(), 2);
    assert_eq!(*relay.client_address(0), 3);
    assert_eq!(*relay.client_address(1), 2);
}

#[test]
fn relay_step_cases() {
    match relay_step(RelayEvent::Message(b"cmd".to_vec())) {
        RelayAction::Broadcast(d) => assert_eq!(d, b"cmd".to_vec()),
        _ => panic!("messages are broadcast"),
    }
    assert!(matches!(relay_step(RelayEvent::Lagged(3)), RelayAction::Wait));
    assert!(matches!(relay_step(RelayEvent::Closed), RelayAction::Stop));
}

#[test]
fn relay_client_recorded_once() {
    let mut relay: PtzRelay<u16> = PtzRelay::new();
    relay.record_client("127.0.0.1", 5000, 5000);
    assert_eq!(relay.client_count(), 1);
    relay.record_client("127.0.0.1", 5000, 5000);
    assert_eq!(relay.client_count(), 1);
}
