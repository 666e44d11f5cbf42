use pubsub::auth::{AuthorizationError, Authorizor, Capabilities};
use pubsub::config::Config;
use pubsub::mqtthandler::State;
use pubsub::mqttpacket::{Packet, Publish};
use pubsub::mqtttransport::{handle_websocket_events, TransportRequest};
use pubsub::storage::{RetainedSlot, RetainedVersion, Storage, StorageError};
use pubsub::websocket::{parse_websocket_event, write_websocket_event, WsEvent};

struct TestStorage;

impl Storage for TestStorage {
    fn write_retained(
        &self,
        _topic: &str,
        _message: &[u8],
        _ttl: Option<u64>,
    ) -> Result<RetainedVersion, StorageError> {
        Ok(RetainedVersion {
            generation: 1,
            seq: 1,
        })
    }

    fn read_retained(
        &self,
        _topic: &str,
        _after: Option<RetainedVersion>,
    ) -> Result<Option<RetainedSlot>, StorageError> {
        Ok(None)
    }
}

struct AllowAll;

impl Authorizor for AllowAll {
    fn validate_token(
        &self,
        _token: &str,
        _internal_key: Option<&[u8]>,
    ) -> Result<Capabilities, AuthorizationError> {
        Ok(Capabilities::new_admin())
    }
}

fn config() -> Config {
    Config {
        sse_enabled: true,
        http_publish_enabled: true,
        mqtt_enabled: true,
        admin_enabled: true,
        publish_token: String::new(),
        internal_key: Vec::new(),
        local_echo: true,
    }
}

fn connected_state() -> State {
    State {
        connected: true,
        client_id: "c1".to_string(),
        token: Some("t".to_string()),
        subs: Vec::new(),
    }
}

fn request(state: Option<State>, replayed: usize) -> TransportRequest {
    TransportRequest {
        grip_offered: false,
        protocol_requested: false,
        cid: String::new(),
        state,
        replayed,
    }
}

#[test]
fn handle_events() {
    let config = config();
    let storage = TestStorage;

    let p = Publish {
        topic: "fruit".to_string(),
        message: "apple".as_bytes().to_vec(),
        dup: false,
        qos: 0,
        retain: false,
        message_expiry_interval: None,
    };

    let mut packet_bytes = Vec::new();
    Packet::Publish(p).serialize(&mut packet_bytes);

    let part1 = &packet_bytes[..7];
    let part2 = &packet_bytes[7..];

    let mut body = Vec::new();
    body.extend_from_slice(format!("BINARY {:x}\r\n", part1.len()).as_bytes());
    body.extend_from_slice(part1);
    body.extend_from_slice(b"\r\n");

    {
        let resp = handle_websocket_events(
            &config,
            &AllowAll,
            &storage,
            request(Some(connected_state()), 0),
            &body,
        )
        .unwrap();
        assert_eq!(resp.content_accepted, 0);
        assert!(resp.events.is_empty());
    }

    body.extend_from_slice(format!("BINARY {:x}\r\n", part2.len()).as_bytes());
    body.extend_from_slice(part2);
    body.extend_from_slice(b"\r\n");

    {
        let resp = handle_websocket_events(
            &config,
            &AllowAll,
            &storage,
            request(Some(connected_state()), part1.len()),
            &body,
        )
        .unwrap();
        assert_eq!(resp.content_accepted, 15);
        // the handler saw the publish, and echoed it back
        assert_eq!(resp.events.len(), 1);
        assert_eq!(resp.events[0].etype, "BINARY");
        let content = &resp.events[0].content;
        assert_eq!(&content[..2], b"m:");
        let (back, read) = Packet::parse(&content[2..]).unwrap().unwrap();
        assert_eq!(read, 15);
        match back {
            Packet::Publish(p) => {
                assert_eq!(p.topic, "fruit");
                assert_eq!(p.message, "apple".as_bytes());
            }
            _ => panic!("unexpected packet type"),
        }
    }
}

#[test]
fn malformed_body_is_bad_request() {
    let body = b"BINARY zz\r\nab\r\n".to_vec();
    assert!(handle_websocket_events(&config(), &AllowAll, &TestStorage, request(None, 0), &body)
        .is_err());
}

#[test]
fn open_is_acknowledged_and_connect_answered() {
    // CONNECT v5 with client id "c1" and password "tok"
    let connect: Vec<u8> = vec![
        0x10, 0x14, 0x00, 0x04, b'M', b'Q', b'T', b'T', 0x05, 0x40, 0x00, 0x3c, 0x00, 0x00, 0x02,
        b'c', b'1', 0x00, 0x03, b't', b'o', b'k',
    ];
    let mut body = b"OPEN\r\n".to_vec();
    write_websocket_event(
        &mut body,
        &WsEvent {
            etype: "BINARY".to_string(),
            content: connect.clone(),
        },
    );
    let mut req = request(None, 0);
    req.grip_offered = true;
    req.protocol_requested = true;
    let resp = handle_websocket_events(&config(), &AllowAll, &TestStorage, req, &body).unwrap();
    assert!(resp.grip_extension);
    assert!(resp.mqtt_protocol);
    assert_eq!(resp.content_accepted, connect.len());
    assert_eq!(resp.events.len(), 2);
    assert_eq!(resp.events[0].etype, "OPEN");
    assert!(resp.state.connected);
    assert_eq!(resp.state.client_id, "c1");
    assert_eq!(resp.state.token.as_deref(), Some("tok"));
    // the client id changed: the proxy is told the user
    assert_eq!(resp.controls.len(), 1);
    assert_eq!(resp.controls[0].ctype, "set-meta");
    assert_eq!(resp.controls[0].value.as_deref(), Some("c1"));
    assert!(resp.close.is_none());
}

#[test]
fn subscribe_sends_channel_controls_with_skip_self() {
    // SUBSCRIBE id 1, topic "t", options no_local
    let sub: Vec<u8> = vec![0x82, 0x07, 0x00, 0x01, 0x00, 0x00, 0x01, b't', 0x04];
    let mut body = Vec::new();
    write_websocket_event(
        &mut body,
        &WsEvent {
            etype: "BINARY".to_string(),
            content: sub,
        },
    );
    let resp = handle_websocket_events(
        &config(),
        &AllowAll,
        &TestStorage,
        request(Some(connected_state()), 0),
        &body,
    )
    .unwrap();
    assert_eq!(resp.controls.len(), 2);
    assert_eq!(resp.controls[0].ctype, "subscribe");
    assert_eq!(resp.controls[0].channel.as_deref(), Some("s:t"));
    assert_eq!(resp.controls[0].filters, vec!["skip-self".to_string()]);
    assert_eq!(resp.controls[1].channel.as_deref(), Some("d:t"));
    assert!(resp.controls[1].filters.is_empty());
    assert_eq!(resp.state.subs.len(), 1);
    assert!(resp.state.subs[0].1.no_local);
    let body = String::from_utf8_lossy(&pubsub::mqtttransport::response_body(&resp)).to_string();
    assert!(body.contains(
        "c:{\"type\":\"subscribe\",\"channel\":\"s:t\",\"filters\":[\"skip-self\"]}"
    ));
    assert!(body.contains("c:{\"type\":\"subscribe\",\"channel\":\"d:t\"}"));
    assert!(!resp.disconnect && resp.close.is_none());
}

#[test]
fn malformed_packet_closes() {
    let mut body = Vec::new();
    write_websocket_event(
        &mut body,
        &WsEvent {
            etype: "BINARY".to_string(),
            content: vec![0x30, 0x80, 0x80, 0x80, 0x80, 0x01],
        },
    );
    let resp =
        handle_websocket_events(&config(), &AllowAll, &TestStorage, request(None, 0), &body)
            .unwrap();
    let close = resp.close.unwrap();
    assert_eq!(close.etype, "CLOSE");
    assert_eq!(close.content, vec![0x03, 0xe8]);
}

#[test]
fn ws_event_round_trip() {
    for (etype, content) in [
        ("TEXT", b"c:{}".to_vec()),
        ("OPEN", Vec::new()),
        ("BINARY", vec![0u8; 300]),
        ("", Vec::new()),
    ] {
        let e = WsEvent {
            etype: etype.to_string(),
            content: content.clone(),
        };
        let mut bytes = Vec::new();
        write_websocket_event(&mut bytes, &e);
        let (back, n) = parse_websocket_event(&bytes).ok().unwrap();
        assert_eq!(n, bytes.len());
        assert_eq!(back.etype, etype);
        assert_eq!(back.content, content);
    }
}

#[test]
fn ws_event_bytes() {
    let mut bytes = Vec::new();
    write_websocket_event(
        &mut bytes,
        &WsEvent {
            etype: "BINARY".to_string(),
            content: vec![1u8; 26],
        },
    );
    assert_eq!(&bytes[..11], b"BINARY 1a\r\n");
    let mut bytes = Vec::new();
    write_websocket_event(
        &mut bytes,
        &WsEvent {
            etype: "CLOSE".to_string(),
            content: Vec::new(),
        },
    );
    assert_eq!(bytes, b"CLOSE\r\n");
}

#[test]
fn ws_event_errors() {
    assert!(parse_websocket_event(b"TEXT").is_err());
    assert!(parse_websocket_event(b"TEXT 2\r\nab").is_err());
    assert!(parse_websocket_event(b"TEXT 2 3\r\nab\r\n").is_err());
    assert!(parse_websocket_event(b"TEXT 5\r\nab\r\n").is_err());
    let (e, n) = parse_websocket_event(b"TEXT 2\r\nab\r\nOPEN\r\n").ok().unwrap();
    assert_eq!(n, 12);
    assert_eq!(e.content, b"ab");
}

#[test]
fn control_message_json_text() {
    let c = pubsub::grip::ControlMessage {
        ctype: "subscribe".to_string(),
        channel: Some("s:t\"".to_string()),
        filters: vec!["skip-self".to_string(), "x".to_string()],
        name: None,
        value: None,
    };
    assert_eq!(
        pubsub::grip::control_message_json(&c),
        "{\"type\":\"subscribe\",\"channel\":\"s:t\\\"\",\"filters\":[\"skip-self\",\"x\"]}"
    );
    let c = pubsub::grip::ControlMessage {
        ctype: "set-meta".to_string(),
        channel: None,
        filters: Vec::new(),
        name: Some("user".to_string()),
        value: Some("c1".to_string()),
    };
    assert_eq!(
        pubsub::grip::control_message_json(&c),
        "{\"type\":\"set-meta\",\"name\":\"user\",\"value\":\"c1\"}"
    );
}
