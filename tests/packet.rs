use pubsub::mqttpacket::{
    ConnAck, ConnAckV4, Disconnect, InvalidData, Packet, PingResp, Publish, Reason, SubAck,
    UnsubAck,
};

fn hex(data: &[u8]) -> String {
    let mut out = String::new();
    for (n, b) in data.iter().enumerate() {
        if n > 0 {
            out.push(' ');
        }
        out.push_str(&format!("{:02x}", b));
    }
    out
}

fn publish(dup: bool, qos: u8, retain: bool, expiry: Option<u32>) -> Packet {
    Packet::Publish(Publish {
        topic: "fruit".to_string(),
        message: b"apple".to_vec(),
        dup,
        qos,
        retain,
        message_expiry_interval: expiry,
    })
}

#[test]
fn packet() {
    let p = publish(false, 0, false, None);

    let mut data = Vec::new();
    p.serialize(&mut data);

    let expected = "30 0d 00 05 66 72 75 69 74 00 61 70 70 6c 65";
    assert_eq!(hex(&data), expected);

    let (p, read) = Packet::parse(&data).unwrap().unwrap();
    assert_eq!(read, 15);

    let publish = match p {
        Packet::Publish(p) => p,
        _ => panic!("unexpected packet type"),
    };

    assert_eq!(publish.topic, "fruit");
    assert_eq!(publish.message, b"apple");
    assert!(!publish.dup);
    assert_eq!(publish.qos, 0);
    assert!(!publish.retain);
    assert!(publish.message_expiry_interval.is_none());

    let p = self::publish(true, 1, true, Some(30));

    let mut data = Vec::new();
    p.serialize(&mut data);

    let expected = "3b 12 00 05 66 72 75 69 74 05 02 00 00 00 1e 61 70 70 6c 65";
    assert_eq!(hex(&data), expected);

    let (p, read) = Packet::parse(&data).unwrap().unwrap();
    assert_eq!(read, 20);

    let publish = match p {
        Packet::Publish(p) => p,
        _ => panic!("unexpected packet type"),
    };

    assert_eq!(publish.topic, "fruit");
    assert_eq!(publish.message, b"apple");
    assert!(publish.dup);
    assert_eq!(publish.qos, 1);
    assert!(publish.retain);
    assert_eq!(publish.message_expiry_interval, Some(30));
}

fn bytes_of(p: &Packet) -> Vec<u8> {
    let mut v = Vec::new();
    p.serialize(&mut v);
    v
}

#[test]
fn publish_parse_is_incomplete_until_whole() {
    let data = bytes_of(&publish(false, 0, false, None));
    for n in 0..data.len() {
        assert!(Packet::parse(&data[..n]).is_none(), "prefix of {n} bytes");
    }
}

#[test]
fn publish_body_stops_at_remaining_length() {
    let mut data = bytes_of(&publish(false, 0, false, None));
    data.extend_from_slice(&bytes_of(&publish(false, 0, true, None)));
    let (p, read) = Packet::parse(&data).unwrap().unwrap();
    assert_eq!(read, 15);
    match p {
        Packet::Publish(p) => assert_eq!(p.message, b"apple"),
        _ => panic!("unexpected packet type"),
    }
}

#[test]
fn connack_bytes() {
    let p = Packet::ConnAck(ConnAck {
        reason: Reason::Success,
        maximum_packet_size: Some(32768),
    });
    assert_eq!(
        hex(&bytes_of(&p)),
        "20 10 00 00 0d 24 00 25 01 27 00 00 80 00 28 00 2a 00"
    );
    let p = Packet::ConnAck(ConnAck {
        reason: Reason::ProtocolError,
        maximum_packet_size: None,
    });
    assert_eq!(hex(&bytes_of(&p)), "20 0b 00 82 08 24 00 25 01 28 00 2a 00");
    let p = Packet::ConnAckV4(ConnAckV4 { ret: 1 });
    assert_eq!(hex(&bytes_of(&p)), "20 02 00 01");
}

#[test]
fn ack_bytes() {
    let p = Packet::SubAck(SubAck {
        id: 0x1234,
        reason: Reason::WildcardSubscriptionsNotSupported,
    });
    assert_eq!(hex(&bytes_of(&p)), "90 04 12 34 00 a2");
    let p = Packet::UnsubAck(UnsubAck {
        id: 7,
        reason: Reason::NoSubscriptionExisted,
    });
    assert_eq!(hex(&bytes_of(&p)), "b0 04 00 07 00 11");
    assert_eq!(hex(&bytes_of(&Packet::PingResp(PingResp))), "d0 00");
    let p = Packet::Disconnect(Disconnect {
        reason: Reason::QoSNotSupported,
    });
    assert_eq!(hex(&bytes_of(&p)), "e0 01 9b");
}

#[test]
fn acks_parse_back_as_their_type() {
    let cases = vec![
        (
            Packet::ConnAck(ConnAck {
                reason: Reason::Success,
                maximum_packet_size: None,
            }),
            2u8,
        ),
        (Packet::PingResp(PingResp), 13),
        (
            Packet::SubAck(SubAck {
                id: 1,
                reason: Reason::Success,
            }),
            9,
        ),
        (
            Packet::UnsubAck(UnsubAck {
                id: 1,
                reason: Reason::Success,
            }),
            11,
        ),
    ];
    for (p, ptype) in cases {
        let data = bytes_of(&p);
        let (back, read) = Packet::parse(&data).unwrap().unwrap();
        assert_eq!(read, data.len());
        assert!(matches!(back, Packet::Unsupported(t) if t == ptype));
    }
}

#[test]
fn disconnect_round_trip() {
    for reason in [
        Reason::Success,
        Reason::UnspecifiedError,
        Reason::QoSNotSupported,
        Reason::NotAuthorized,
    ] {
        let data = bytes_of(&Packet::Disconnect(Disconnect { reason }));
        let (back, read) = Packet::parse(&data).unwrap().unwrap();
        assert_eq!(read, 3);
        match back {
            Packet::Disconnect(d) => assert_eq!(d.reason.code(), reason.code()),
            _ => panic!("unexpected packet type"),
        }
    }
}

#[test]
fn connect_v5_and_older() {
    // CONNECT v5, flags: password (0x40), keep-alive 60, no properties,
    // client id "c1", password "tok"
    let body: Vec<u8> = vec![
        0x00, 0x04, b'M', b'Q', b'T', b'T', 0x05, 0x40, 0x00, 0x3c, 0x00, 0x00, 0x02, b'c', b'1',
        0x00, 0x03, b't', b'o', b'k',
    ];
    let mut data = vec![0x10, body.len() as u8];
    data.extend_from_slice(&body);
    let (p, read) = Packet::parse(&data).unwrap().unwrap();
    assert_eq!(read, data.len());
    match p {
        Packet::Connect(c) => {
            assert_eq!(c.version, 5);
            assert_eq!(c.client_id, "c1");
            assert_eq!(c.password.as_deref(), Some("tok"));
        }
        _ => panic!("unexpected packet type"),
    }

    let data = vec![0x10, 0x07, 0x00, 0x04, b'M', b'Q', b'T', b'T', 0x04];
    match Packet::parse(&data).unwrap().unwrap().0 {
        Packet::Connect(c) => {
            assert_eq!(c.version, 4);
            assert_eq!(c.client_id, "");
            assert!(c.password.is_none());
        }
        _ => panic!("unexpected packet type"),
    }

    let data = vec![0x10, 0x07, 0x00, 0x04, b'M', b'Q', b'X', b'X', 0x05];
    assert!(matches!(Packet::parse(&data), Some(Err(InvalidData))));
}

#[test]
fn subscribe_options() {
    let body: Vec<u8> = vec![0x00, 0x09, 0x00, 0x00, 0x01, b't', 0x2d];
    let mut data = vec![0x82, body.len() as u8];
    data.extend_from_slice(&body);
    match Packet::parse(&data).unwrap().unwrap().0 {
        Packet::Subscribe(s) => {
            assert_eq!(s.id, 9);
            assert_eq!(s.topic, "t");
            assert_eq!(s.maximum_qos, 1);
            assert!(s.no_local);
            assert!(s.retain_as_published);
            assert_eq!(s.retain_handling, 2);
        }
        _ => panic!("unexpected packet type"),
    }
    // flags other than 2 are malformed
    let mut data = vec![0x80, body.len() as u8];
    data.extend_from_slice(&body);
    assert!(matches!(Packet::parse(&data), Some(Err(_))));
}

#[test]
fn variable_length_errors() {
    // a fifth length byte
    let data = vec![0x30, 0x80, 0x80, 0x80, 0x80, 0x01];
    assert!(matches!(Packet::parse(&data), Some(Err(_))));
    // unknown publish property
    let data = vec![0x30, 0x05, 0x00, 0x01, b't', 0x01, 0x77];
    assert!(matches!(Packet::parse(&data), Some(Err(_))));
}
