use pubsub::mqtthandler::{handle_connect, sync_read};
use pubsub::mqttpacket::Connect;
use pubsub::auth::Capabilities;
use pubsub::config::Config;
use pubsub::mqtthandler::{
    handle_publish, subscribe_with_retained, sync_subscription, Context, Last, State,
    Subscription,
};
use pubsub::mqttpacket::{Packet, Publish, Reason, Subscribe};
use pubsub::publish::{sequencing_for, MESSAGE_SIZE_MAX};
use pubsub::storage::{
    after_attempt, next_metadata, read_slot, InsertOutcome, Metadata, RetainedSlot,
    RetainedVersion, Storage, StorageError, WriteStep,
};
use pubsub::version::Version;

#[test]
fn version_id_round_trip() {
    for (g, s) in [(0u64, 0u64), (1, 2), (u64::MAX, u64::MAX), (0xabc, 10)] {
        let v = Version {
            generation: g,
            seq: s,
        };
        let id = v.as_id();
        let back = Version::parse(&id).ok().unwrap();
        assert_eq!(back.generation, g);
        assert_eq!(back.seq, s);
        let (hex, dec) = id.split_once('-').unwrap();
        assert_eq!(hex.len(), 16);
        assert!(hex.chars().all(|c| c.is_ascii_digit() || ('a'..='f').contains(&c)));
        assert!(!dec.is_empty() && dec.chars().all(|c| c.is_ascii_digit()));
    }
    let v = Version {
        generation: 0xabc,
        seq: 10,
    };
    assert_eq!(v.as_id(), "0000000000000abc-10");
    assert_eq!(v.to_id(), "0000000000000abc-10");
}

#[test]
fn version_parse_errors() {
    assert!(Version::parse("abc").is_err());
    assert!(Version::parse("xyz-1").is_err());
    assert!(Version::parse("1-").is_err());
    assert!(Version::parse("10000000000000000-1").is_err());
    let v = Version::parse("+ff-+7").ok().unwrap();
    assert_eq!((v.generation, v.seq), (255, 7));
}

fn meta(generation: u64, seq: u64, expires_at: Option<i128>) -> Metadata {
    Metadata {
        generation,
        seq,
        expires_at,
    }
}

#[test]
fn reader_sees_only_newer_versions() {
    let m = meta(5, 3, None);
    let seen = RetainedVersion {
        generation: 5,
        seq: 3,
    };
    assert!(read_slot(&m, Some(seen), 0, b"x".to_vec()).is_none());
    let older = RetainedVersion {
        generation: 5,
        seq: 2,
    };
    let s = read_slot(&m, Some(older), 0, b"x".to_vec()).unwrap();
    assert_eq!((s.version.generation, s.version.seq), (5, 3));
    // another generation is news, whatever its number
    let other = RetainedVersion {
        generation: 9,
        seq: 7,
    };
    assert!(read_slot(&m, Some(other), 0, b"x".to_vec()).is_some());
}

#[test]
fn retained_write_sequence() {
    // a fresh slot takes the fresh generation and sequence 1
    let first = next_metadata(None, 77, None, 0).ok().unwrap();
    assert_eq!((first.generation, first.seq), (77, 1));
    assert!(first.expires_at.is_none());
    // the next write keeps the generation and counts on
    let second = next_metadata(Some(first), 12, Some(60), 1_000).ok().unwrap();
    assert_eq!((second.generation, second.seq), (77, 2));
    assert_eq!(second.expires_at, Some(1_000 + 60_000_000_000));
    // read back within the minute: payload with ttl at most 60 s
    let s = read_slot(&second, None, 1_000 + 1_000_000_000, b"world".to_vec()).unwrap();
    let m = s.message.unwrap();
    assert_eq!(m.data, b"world");
    assert!(m.ttl.unwrap() <= 60_000_000_000);
    // a reader at version 2 gets nothing
    assert!(read_slot(
        &second,
        Some(RetainedVersion {
            generation: 77,
            seq: 2
        }),
        0,
        Vec::new()
    )
    .is_none());
    // once expired the slot lingers without its payload
    let s = read_slot(&second, None, 1_000 + 60_000_000_000, b"world".to_vec()).unwrap();
    assert!(s.message.is_none());
    assert_eq!(s.version.seq, 2);
    // an exhausted sequence is refused
    assert!(next_metadata(Some(meta(1, u64::MAX, None)), 0, None, 0).is_err());
}

#[test]
fn write_retries_are_bounded() {
    let m = meta(1, 2, None);
    assert!(matches!(
        after_attempt(&m, InsertOutcome::Stored, 1),
        WriteStep::Done(RetainedVersion {
            generation: 1,
            seq: 2
        })
    ));
    assert!(matches!(
        after_attempt(&m, InsertOutcome::Conflict, 4),
        WriteStep::Retry
    ));
    assert!(matches!(
        after_attempt(&m, InsertOutcome::Throttled, 5),
        WriteStep::Fail(StorageError::TooManyRequests)
    ));
    assert!(matches!(
        after_attempt(&m, InsertOutcome::Failed("x".to_string()), 1),
        WriteStep::Fail(StorageError::KVStore(_))
    ));
}

#[test]
fn sequencing_ids() {
    let s = sequencing_for(RetainedVersion {
        generation: 1,
        seq: 1,
    });
    assert_eq!(s.id, "0000000000000001-1");
    assert_eq!(s.prev_id, "none");
    let s = sequencing_for(RetainedVersion {
        generation: 1,
        seq: 3,
    });
    assert_eq!(s.prev_id, "0000000000000001-2");
}

fn subscribe(topic: &str, no_local: bool, retain_handling: u8) -> Subscribe {
    Subscribe {
        id: 4,
        topic: topic.to_string(),
        maximum_qos: 0,
        no_local,
        retain_as_published: false,
        retain_handling,
    }
}

fn stored_slot(now: i128) -> Option<RetainedSlot> {
    read_slot(&meta(3, 8, None), None, now, b"hello".to_vec())
}

#[test]
fn subscribe_then_sync_sends_nothing_new() {
    let mut state = State::default();
    let out = subscribe_with_retained(&mut state, subscribe("t", false, 0), Ok(stored_slot(0)));
    // the retained message goes out with the SUBACK
    assert_eq!(out.len(), 2);
    assert!(matches!(&out[0], Packet::SubAck(a) if a.id == 4 && a.reason.code() == Reason::Success.code()));
    assert!(matches!(&out[1], Packet::Publish(p) if p.retain && p.message == b"hello"));
    let (topic, sub) = &mut state.subs[0];
    let last = sub.last.unwrap().version.unwrap();
    // no write since: the sync pass reads nothing after that version
    let after = RetainedVersion {
        generation: last.generation,
        seq: last.seq,
    };
    let read = read_slot(&meta(3, 8, None), Some(after), 5, b"hello".to_vec());
    assert!(read.is_none());
    assert!(sync_subscription(topic, sub, read).is_none());

    // with retain handling 1 nothing goes out with the SUBACK either
    let mut state = State::default();
    let out = subscribe_with_retained(&mut state, subscribe("t", false, 1), Ok(stored_slot(0)));
    assert_eq!(out.len(), 1);
}

#[test]
fn sync_delivers_a_newer_version_unless_ignored() {
    let mut sub = Subscription {
        no_local: false,
        retain_as_published: true,
        last: Some(Last {
            version: Some(Version {
                generation: 3,
                seq: 8,
            }),
        }),
        ignore: vec![
            Version {
                generation: 3,
                seq: 9,
            },
            Version {
                generation: 3,
                seq: 11,
            },
        ],
    };
    let topic = "t".to_string();
    let read = read_slot(&meta(3, 9, None), None, 0, b"new".to_vec());
    assert!(sync_subscription(&topic, &mut sub, read).is_none());
    assert_eq!(sub.ignore.len(), 1);
    assert_eq!(sub.last.unwrap().version.unwrap().seq, 9);
    let read = read_slot(&meta(3, 10, None), None, 0, b"newer".to_vec());
    match sync_subscription(&topic, &mut sub, read) {
        Some(Packet::Publish(p)) => {
            assert!(p.retain);
            assert_eq!(p.message, b"newer");
        }
        _ => panic!("expected a publish"),
    }
}

struct NoStorage;

impl Storage for NoStorage {
    fn write_retained(
        &self,
        _topic: &str,
        _message: &[u8],
        _ttl: Option<u64>,
    ) -> Result<RetainedVersion, StorageError> {
        Err(StorageError::StoreNotFound)
    }

    fn read_retained(
        &self,
        _topic: &str,
        _after: Option<RetainedVersion>,
    ) -> Result<Option<RetainedSlot>, StorageError> {
        Ok(None)
    }
}

struct Admin;

impl pubsub::auth::Authorizor for Admin {
    fn validate_token(
        &self,
        _token: &str,
        _internal_key: Option<&[u8]>,
    ) -> Result<Capabilities, pubsub::auth::AuthorizationError> {
        Ok(Capabilities::new_admin())
    }
}

fn config() -> Config {
    Config {
        sse_enabled: true,
        http_publish_enabled: true,
        mqtt_enabled: true,
        admin_enabled: true,
        publish_token: String::new(),
        internal_key: Vec::new(),
        local_echo: true,
    }
}

fn context(no_local: bool) -> Context {
    let mut state = State {
        connected: true,
        client_id: "me".to_string(),
        token: Some("t".to_string()),
        subs: Vec::new(),
    };
    subscribe_with_retained(&mut state, subscribe("t", no_local, 2), Ok(None));
    Context {
        disconnect: false,
        state,
        publishes: Vec::new(),
    }
}

fn publish_packet(message: Vec<u8>, qos: u8) -> Publish {
    Publish {
        topic: "t".to_string(),
        message,
        dup: false,
        qos,
        retain: false,
        message_expiry_interval: None,
    }
}

#[test]
fn own_publish_not_echoed_with_no_local() {
    let mut ctx = context(true);
    let out = handle_publish(&mut ctx, &config(), &Admin, &NoStorage, publish_packet(b"hi".to_vec(), 0));
    assert!(out.is_empty());
    let mut ctx = context(false);
    let out = handle_publish(&mut ctx, &config(), &Admin, &NoStorage, publish_packet(b"hi".to_vec(), 0));
    assert_eq!(out.len(), 1);
    // with a publish client the message goes there, marked with its sender
    let mut cfg = config();
    cfg.publish_token = "secret".to_string();
    let mut ctx = context(true);
    let out = handle_publish(&mut ctx, &cfg, &Admin, &NoStorage, publish_packet(b"hi".to_vec(), 0));
    assert!(out.is_empty());
    assert_eq!(ctx.publishes.len(), 1);
    assert_eq!(ctx.publishes[0].sender.as_deref(), Some("me"));
}

#[test]
fn oversized_payload_is_dropped() {
    let mut cfg = config();
    cfg.publish_token = "secret".to_string();
    let mut ctx = context(false);
    let out = handle_publish(
        &mut ctx,
        &cfg,
        &Admin,
        &NoStorage,
        publish_packet(vec![0u8; MESSAGE_SIZE_MAX + 1], 0),
    );
    assert!(out.is_empty());
    assert!(ctx.publishes.is_empty());
    let out = handle_publish(
        &mut ctx,
        &cfg,
        &Admin,
        &NoStorage,
        publish_packet(vec![0u8; MESSAGE_SIZE_MAX], 0),
    );
    assert!(out.is_empty());
    assert_eq!(ctx.publishes.len(), 1);
    assert_eq!(MESSAGE_SIZE_MAX, 32512);
}

#[test]
fn qos_above_zero_disconnects() {
    let mut ctx = context(false);
    let out = handle_publish(&mut ctx, &config(), &Admin, &NoStorage, publish_packet(b"x".to_vec(), 1));
    assert!(ctx.disconnect);
    assert!(matches!(&out[0], Packet::Disconnect(d) if d.reason.code() == 0x9b));
}

#[test]
fn capabilities_by_topic() {
    let caps = Capabilities::new(vec!["readable".to_string()], vec!["writable".to_string()]);
    assert!(caps.can_subscribe("readable"));
    assert!(!caps.can_subscribe("foo"));
    assert!(caps.can_publish("writable"));
    assert!(!caps.can_publish("readable"));
    assert!(Capabilities::new_admin().can_publish("anything"));
}

#[test]
fn connect_without_password_clears_token() {
    let mut ctx = Context {
        disconnect: false,
        state: State {
            connected: false,
            client_id: String::new(),
            token: Some("old".to_string()),
            subs: Vec::new(),
        },
        publishes: Vec::new(),
    };
    let out = handle_connect(
        &mut ctx,
        Connect {
            version: 5,
            client_id: "c".to_string(),
            password: None,
        },
    );
    assert_eq!(out.len(), 1);
    assert!(ctx.state.connected);
    assert!(ctx.state.token.is_none());
}

#[test]
fn sync_storage_failure_disconnects() {
    let mut sub = Subscription::default();
    let (pk, failed) = sync_read(&"t".to_string(), &mut sub, Err(StorageError::TooManyRequests));
    assert!(failed);
    assert!(matches!(pk, Some(Packet::Disconnect(d)) if d.reason.code() == 0x80));
    let (pk, failed) = sync_read(&"t".to_string(), &mut sub, Err(StorageError::StoreNotFound));
    assert!(!failed && pk.is_none());
}
