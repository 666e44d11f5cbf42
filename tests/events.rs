use pubsub::mqtttransport::{offers_grip, requests_mqtt};
use pubsub::grip::{check_issuer, IssuerError};
use pubsub::admin::key_from_random;
use pubsub::auth::{AuthorizationError, Authorizor, Capabilities, TokenError};
use pubsub::config::{Config, ConfigAndSecretStoreSource, ConfigError, StoreValues};
use pubsub::events::{
    bearer_token, get, parse_grip_last, post, sse_error, BearerError, GetRequest, PostRequest,
};
use pubsub::publish::{publish_item, sse_event_text, PublishRequest, WsFormat};
use pubsub::storage::{
    read_slot, Metadata, RetainedSlot, RetainedVersion, Storage, StorageError,
};

struct Empty;

impl Storage for Empty {
    fn write_retained(
        &self,
        _topic: &str,
        _message: &[u8],
        _ttl: Option<u64>,
    ) -> Result<RetainedVersion, StorageError> {
        Ok(RetainedVersion {
            generation: 0x10,
            seq: 2,
        })
    }

    fn read_retained(
        &self,
        _topic: &str,
        _after: Option<RetainedVersion>,
    ) -> Result<Option<RetainedSlot>, StorageError> {
        Ok(None)
    }
}

struct Retained;

impl Storage for Retained {
    fn write_retained(
        &self,
        _topic: &str,
        _message: &[u8],
        _ttl: Option<u64>,
    ) -> Result<RetainedVersion, StorageError> {
        Err(StorageError::TooManyRequests)
    }

    fn read_retained(
        &self,
        _topic: &str,
        after: Option<RetainedVersion>,
    ) -> Result<Option<RetainedSlot>, StorageError> {
        let meta = Metadata {
            generation: 1,
            seq: 4,
            expires_at: None,
        };
        Ok(read_slot(&meta, after, 0, b"hi\nthere".to_vec()))
    }
}

struct Tokens;

impl Authorizor for Tokens {
    fn validate_token(
        &self,
        token: &str,
        _internal_key: Option<&[u8]>,
    ) -> Result<Capabilities, AuthorizationError> {
        if token == "good" {
            Ok(Capabilities::new(
                vec!["readable".to_string()],
                vec!["writable".to_string()],
            ))
        } else {
            Err(AuthorizationError::Token(TokenError::Invalid))
        }
    }
}

fn config() -> Config {
    Config {
        sse_enabled: true,
        http_publish_enabled: true,
        mqtt_enabled: true,
        admin_enabled: true,
        publish_token: String::new(),
        internal_key: Vec::new(),
        local_echo: true,
    }
}

fn open(topics: &[&str], durable: bool) -> GetRequest {
    GetRequest {
        grip_last: Vec::new(),
        topics: topics.iter().map(|s| s.to_string()).collect(),
        last_event_id: None,
        durable,
        auth: None,
        authorization: None,
    }
}

fn header_values(headers: &[(String, String)], name: &str) -> Vec<String> {
    headers
        .iter()
        .filter(|(n, _)| n == name)
        .map(|(_, v)| v.clone())
        .collect()
}

#[test]
fn sse_open_two_topics_durable() {
    let resp = get(true, &config(), &Tokens, &Empty, open(&["a", "b"], true));
    let channels = header_values(&resp.headers, "Grip-Channel");
    for c in ["s:a", "s:b", "d:a; prev-id=none", "d:b; prev-id=none"] {
        assert!(channels.contains(&c.to_string()), "missing {c}");
    }
    assert_eq!(channels.len(), 4);
    assert_eq!(
        header_values(&resp.headers, "Grip-Link"),
        vec!["</events?durable=true>; rel=next; timeout=120".to_string()]
    );
    assert_eq!(
        header_values(&resp.headers, "Grip-Hold"),
        vec!["stream".to_string()]
    );
    assert_eq!(
        header_values(&resp.headers, "Content-Type"),
        vec!["text/event-stream".to_string()]
    );
    assert!(resp.body.starts_with("event: stream-open\ndata: \n\n"));
}

#[test]
fn sse_durable_backlog_and_resume() {
    let resp = get(true, &config(), &Tokens, &Retained, open(&["a"], true));
    assert_eq!(
        resp.body,
        "event: stream-open\ndata: \n\nevent: message\nid: a:0000000000000001-4\ndata: hi\ndata: there\n\n"
    );
    assert_eq!(
        header_values(&resp.headers, "Grip-Channel"),
        vec!["s:a".to_string(), "d:a; prev-id=0000000000000001-4".to_string()]
    );
    // resuming from that version: nothing to replay, no stream-open
    let next = GetRequest {
        grip_last: vec!["d:a; last-id=0000000000000001-4, s:a; last-id=x".to_string()],
        topics: Vec::new(),
        last_event_id: None,
        durable: true,
        auth: None,
        authorization: None,
    };
    let resp = get(false, &config(), &Tokens, &Retained, next);
    assert_eq!(resp.body, "");
    assert_eq!(
        header_values(&resp.headers, "Grip-Channel"),
        vec!["s:a".to_string(), "d:a; prev-id=0000000000000001-4".to_string()]
    );
    // a resume point given by Last-Event-ID
    let mut req = open(&["a"], true);
    req.last_event_id = Some("a:0000000000000001-4".to_string());
    let resp = get(true, &config(), &Tokens, &Retained, req);
    assert_eq!(resp.body, "event: stream-open\ndata: \n\n");
}

#[test]
fn sse_errors() {
    let resp = get(true, &config(), &Tokens, &Empty, open(&[], false));
    assert_eq!(
        resp.body,
        "event: stream-error\ndata: {\"condition\":\"bad-request\",\"text\":\"Missing 'topic' parameter\"}\n\n"
    );
    let many: Vec<String> = (0..11).map(|i| format!("t{i}")).collect();
    let many: Vec<&str> = many.iter().map(|s| s.as_str()).collect();
    let resp = get(true, &config(), &Tokens, &Empty, open(&many, false));
    assert!(resp.body.contains("Too many topics"));
    let resp = get(false, &config(), &Tokens, &Empty, open(&["readable"], false));
    assert!(resp.body.contains("Missing 'Authorization' header or 'auth' parameter"));
    let mut req = open(&["readable"], false);
    req.auth = Some("bad".to_string());
    let resp = get(false, &config(), &Tokens, &Empty, req);
    assert!(resp.body.contains("\"forbidden\""));
    let mut req = open(&["foo"], false);
    req.authorization = Some("Bearer good".to_string());
    let resp = get(false, &config(), &Tokens, &Empty, req);
    assert!(resp.body.contains("Cannot subscribe to topic: foo"));
    let mut req = open(&["readable"], false);
    req.authorization = Some("Basic good".to_string());
    let resp = get(false, &config(), &Tokens, &Empty, req);
    assert!(resp.body.contains("Unsupported authorization scheme: Basic"));
    let mut req = open(&["readable"], false);
    req.authorization = Some("Bearer good".to_string());
    let resp = get(false, &config(), &Tokens, &Empty, req);
    assert!(resp.body.starts_with("event: stream-open"));
    let mut req = open(&["a"], false);
    req.last_event_id = Some("a-1".to_string());
    let resp = get(true, &config(), &Tokens, &Empty, req);
    assert!(resp.body.contains("Last-Event-ID part missing ':'"));
}

#[test]
fn sse_next_mode_closes_on_bad_header() {
    let mut req = open(&[], true);
    req.grip_last = vec!["d:a".to_string()];
    let resp = get(false, &config(), &Tokens, &Empty, req);
    assert!(resp.headers.is_empty() && resp.body.is_empty());
    let mut req = open(&[], true);
    req.grip_last = vec!["s:a; last-id=none".to_string()];
    let resp = get(false, &config(), &Tokens, &Empty, req);
    assert!(resp.headers.is_empty() && resp.body.is_empty());
    let mut req = open(&[], true);
    req.grip_last = vec!["d:a; last-id=zz".to_string()];
    let resp = get(false, &config(), &Tokens, &Empty, req);
    assert!(resp.headers.is_empty() && resp.body.is_empty());
}

#[test]
fn grip_last_entries() {
    let v = parse_grip_last(&vec![
        " d:a ; last-id= 01-2 ; x=1,s:b;last-id=none".to_string(),
        "d:c; last-id=none".to_string(),
    ])
    .ok()
    .unwrap();
    assert_eq!(
        v,
        vec![
            ("d:a".to_string(), "01-2".to_string()),
            ("s:b".to_string(), "none".to_string()),
            ("d:c".to_string(), "none".to_string()),
        ]
    );
    assert!(parse_grip_last(&vec!["d:a; id=1".to_string()]).is_err());
}

#[test]
fn bearer_tokens() {
    assert_eq!(bearer_token("Bearer abc").ok().unwrap().1, "abc");
    assert!(matches!(bearer_token("Bearer"), Err(BearerError::Invalid)));
    assert!(matches!(bearer_token("Basic abc"), Err(BearerError::Scheme)));
}

#[test]
fn stream_error_body() {
    let r = sse_error("internal-server-error", "say \"hi\"");
    assert_eq!(
        r.body,
        "event: stream-error\ndata: {\"condition\":\"internal-server-error\",\"text\":\"say \\\"hi\\\"\"}\n\n"
    );
}

fn post_req(topic: Option<&str>, auth: Option<&str>, body: &[u8]) -> PostRequest {
    PostRequest {
        topic: topic.map(|s| s.to_string()),
        retain: false,
        ttl: None,
        authorization: auth.map(|s| s.to_string()),
        body: body.to_vec(),
    }
}

#[test]
fn http_publish() {
    let r = post(false, &config(), &Tokens, &Empty, post_req(None, None, b"x"));
    let e = r.err().unwrap();
    assert_eq!(e.status, 400);
    assert_eq!(e.text, "Missing 'topic' param\n");
    let r = post(false, &config(), &Tokens, &Empty, post_req(Some("writable"), None, b"x"));
    assert_eq!(r.err().unwrap().text, "Missing 'Authorization' header\n");
    let r = post(
        false,
        &config(),
        &Tokens,
        &Empty,
        post_req(Some("writable"), Some("Bearer bad"), b"x"),
    );
    assert_eq!(r.err().unwrap().status, 403);
    let r = post(
        false,
        &config(),
        &Tokens,
        &Empty,
        post_req(Some("readable"), Some("Bearer good"), b"x"),
    );
    assert_eq!(r.err().unwrap().text, "Cannot publish to topic: readable\n");
    let r = post(
        false,
        &config(),
        &Tokens,
        &Empty,
        post_req(Some("writable"), Some("Bearer good"), &vec![0u8; 32513]),
    );
    assert_eq!(r.err().unwrap().text, "Message size exceeds 32512 bytes maximum\n");
    let q = post(
        false,
        &config(),
        &Tokens,
        &Empty,
        post_req(Some("writable"), Some("Bearer good"), b"x"),
    )
    .ok()
    .unwrap();
    assert_eq!(q.topic, "writable");
    assert!(q.sequencing.is_none());
    let mut req = post_req(Some("t"), None, b"x");
    req.retain = true;
    req.ttl = Some("60".to_string());
    let q = post(true, &config(), &Tokens, &Empty, req).ok().unwrap();
    let s = q.sequencing.unwrap();
    assert_eq!(s.id, "0000000000000010-2");
    assert_eq!(s.prev_id, "0000000000000010-1");
    let mut req = post_req(Some("t"), None, b"x");
    req.retain = true;
    let r = post(true, &config(), &Tokens, &Retained, req);
    assert_eq!(r.err().unwrap().text, "Failed to write message to storage\n");
    let mut req = post_req(Some("t"), None, b"x");
    req.ttl = Some("abc".to_string());
    assert_eq!(post(true, &config(), &Tokens, &Empty, req).err().unwrap().status, 400);
}

#[test]
fn fan_out_item() {
    let item = publish_item(PublishRequest {
        topic: "fruit".to_string(),
        message: b"apple".to_vec(),
        sequencing: None,
        sender: Some("me".to_string()),
    })
    .unwrap();
    assert_eq!(item.channel, "s:fruit");
    assert_eq!(item.sse_content, "event: message\ndata: apple\n\n");
    match item.ws {
        // the base64 of 30 0d 00 05 "fruit" 00 "apple"
        WsFormat::ContentBin(b) => assert_eq!(b, "MA0ABWZydWl0AGFwcGxl"),
        WsFormat::Refresh => panic!("expected content"),
    }
    assert_eq!(item.sender.as_deref(), Some("me"));
    assert_eq!(
        sse_event_text(&[0xff, 0x00], None),
        "event: message-base64\ndata: /wA=\n\n"
    );
    assert_eq!(
        sse_event_text(b"a\nb", Some("t:1")),
        "event: message\nid: t:1\ndata: a\ndata: b\n\n"
    );
}

#[test]
fn admin_key_from_random() {
    let (id, value) = key_from_random(b"abc");
    // SHA-1 of "abc"
    assert_eq!(value, "a9993e364706816aba3e25717850c26c9cd0d89d");
    assert_eq!(id.len(), 8);
    assert!(id.chars().all(|c| c.is_ascii_hexdigit()));
}

#[test]
fn config_from_store_values() {
    let values = StoreValues {
        sse: Some("false".to_string()),
        http_publish: None,
        admin: Some("true".to_string()),
        local_echo: None,
        publish_token: Some(b"tok".to_vec()),
        internal_key: Some(vec![1, 2]),
    };
    let c = ConfigAndSecretStoreSource::build_config(values).ok().unwrap();
    assert!(!c.sse_enabled && c.http_publish_enabled && c.admin_enabled && c.mqtt_enabled);
    assert_eq!(c.publish_token, "tok");
    assert_eq!(c.internal_key, vec![1, 2]);
    let values = StoreValues {
        sse: Some("yes".to_string()),
        http_publish: None,
        admin: None,
        local_echo: None,
        publish_token: None,
        internal_key: None,
    };
    assert!(matches!(
        ConfigAndSecretStoreSource::build_config(values),
        Err(ConfigError::InvalidValue)
    ));
    let values = StoreValues {
        sse: None,
        http_publish: None,
        admin: None,
        local_echo: None,
        publish_token: Some(vec![0xff]),
        internal_key: None,
    };
    assert!(matches!(
        ConfigAndSecretStoreSource::build_config(values),
        Err(ConfigError::InvalidValue)
    ));
}

#[test]
fn proxy_issuer() {
    assert!(check_issuer(Some("fastly:svc".to_string()), "svc").is_ok());
    assert_eq!(
        check_issuer(Some("fastly:other".to_string()), "svc"),
        Err(IssuerError::ServiceMismatch("fastly:other".to_string()))
    );
    assert_eq!(check_issuer(None, "svc"), Err(IssuerError::NoIssuer));
}

#[test]
fn ten_topics_are_accepted() {
    let many: Vec<String> = (0..10).map(|i| format!("t{i}")).collect();
    let many: Vec<&str> = many.iter().map(|s| s.as_str()).collect();
    let resp = get(true, &config(), &Tokens, &Empty, open(&many, false));
    assert_eq!(header_values(&resp.headers, "Grip-Channel").len(), 10);
    assert_eq!(resp.body, "event: stream-open\ndata: \n\n");
}

#[test]
fn resume_needs_no_token_and_sends_no_stream_open() {
    let mut req = open(&[], false);
    req.grip_last = vec!["d:a; last-id=none".to_string()];
    let resp = get(false, &config(), &Tokens, &Empty, req);
    assert_eq!(header_values(&resp.headers, "Grip-Channel"), vec!["s:a".to_string()]);
    assert_eq!(resp.body, "");
}

#[test]
fn post_errors_and_sequencing() {
    let mut req = post_req(Some("t"), None, b"x");
    req.ttl = Some("".to_string());
    let e = post(true, &config(), &Tokens, &Empty, req).err().unwrap();
    assert_eq!(e.status, 400);
    let e = post(false, &config(), &Tokens, &Empty, post_req(Some("t"), Some("Bearer"), b"x"))
        .err()
        .unwrap();
    assert_eq!(e.text, "Invalid 'Authorization' header\n");
    let e = post(true, &config(), &Tokens, &Empty, post_req(Some("t"), None, &vec![1u8; 40000]))
        .err()
        .unwrap();
    assert_eq!(e.status, 400);
    let mut req = post_req(Some("t"), None, b"x");
    req.retain = true;
    let q = post(true, &config(), &Tokens, &Empty, req).ok().unwrap();
    assert_eq!(q.sequencing.unwrap().id, "0000000000000010-2");
}

#[test]
fn fan_out_body() {
    let item = publish_item(PublishRequest {
        topic: "t".to_string(),
        message: b"a\"b".to_vec(),
        sequencing: None,
        sender: Some("me".to_string()),
    })
    .unwrap();
    assert_eq!(
        pubsub::publish::publish_body(&item),
        "{\"items\":[{\"channel\":\"s:t\",\"formats\":{\"http-stream\":{\"content\":\"event: message\\ndata: a\\\"b\\n\\n\"},\"ws-message\":{\"content-bin\":\"MAcAAXQAYSJi\"}},\"meta\":{\"sender\":\"me\"}}]}"
    );
}

#[test]
fn websocket_header_offers() {
    assert!(offers_grip("grip; message-prefix=\"\""));
    assert!(!offers_grip("deflate"));
    assert!(requests_mqtt("mqttv3.1 mqtt"));
    assert!(!requests_mqtt("mqttv3.1"));
}
