//! The MQTT session handler: one request's worth of packets against a session
//! state that travels with the connection.

use vstd::prelude::*;
use crate::auth::{AuthorizationError, Authorizor, Capabilities};
use crate::config::Config;
use crate::mqttpacket::{
    ConnAck, ConnAckV4, Connect, Disconnect, Packet, PacketModel, PingResp, Publish, Reason,
    SubAck, Subscribe, UnsubAck, Unsubscribe,
};
use crate::publish::{prev_id_chars, sequencing_for, PublishRequest, MESSAGE_SIZE_MAX};
use crate::storage::{
    Metadata, RetainedSlot, RetainedVersion, Storage, StorageError, slot_model, spec_read_slot,
};
use crate::text::{ascii_chars, contains_char, starts_with_ascii, str_eq};
use crate::version::{Version, id_bytes};

verus! {

/// The largest packet this broker takes, as announced at CONNECT.
pub const PACKET_SIZE_MAX: u32 = 32768;

/// The newest version delivered on a topic, if any.
#[derive(Debug, Clone, Copy, PartialEq, Eq, Structural, Default)]
pub struct Last {
    pub version: Option<Version>,
}

#[derive(Debug, Default)]
pub struct Subscription {
    pub no_local: bool,
    pub retain_as_published: bool,
    pub last: Option<Last>,
    pub ignore: Vec<Version>,
}

/// A session: whether it is connected, its client id, its bearer token and
/// its subscriptions by topic.
#[derive(Debug, Default)]
pub struct State {
    pub connected: bool,
    pub client_id: String,
    pub token: Option<String>,
    pub subs: Vec<(String, Subscription)>,
}

/// The index of the subscription to `topic`, looking from `i` on.
pub open spec fn find_sub_from(subs: Seq<(String, Subscription)>, topic: Seq<char>, i: int) -> Option<
    int,
>
    decreases subs.len() - i,
{
    if i < 0 || i >= subs.len() {
        None
    } else if subs[i].0@ == topic {
        Some(i)
    } else {
        find_sub_from(subs, topic, i + 1)
    }
}

/// The index of the subscription to `topic`.
pub open spec fn find_sub(subs: Seq<(String, Subscription)>, topic: Seq<char>) -> Option<int> {
    find_sub_from(subs, topic, 0)
}

/// No topic is subscribed twice.
pub open spec fn topics_unique(subs: Seq<(String, Subscription)>) -> bool {
    forall|i: int, j: int|
        0 <= i < subs.len() && 0 <= j < subs.len() && i != j ==> (#[trigger] subs[i]).0@ != (
        #[trigger] subs[j]).0@
}

/// The topics subscribed.
pub open spec fn sub_topics(subs: Seq<(String, Subscription)>) -> Seq<Seq<char>> {
    subs.map_values(|e: (String, Subscription)| e.0@)
}

/// The packets as values.
pub open spec fn models(ps: Seq<Packet>) -> Seq<PacketModel> {
    ps.map_values(|p: Packet| p@)
}

impl State {
    pub open spec fn wf(&self) -> bool {
        topics_unique(self.subs@)
    }

    /// Ends the session: not connected, no client id, token or subscription.
    pub fn clear(&mut self)
        ensures
            !final(self).connected,
            final(self).client_id@.len() == 0,
            final(self).token is None,
            final(self).subs@.len() == 0,
    {
        self.connected = false;
        self.client_id = String::new();
        self.token = None;
        self.subs = Vec::new();
    }
}

/// Where a subscription to `topic` stands in `subs`.
pub fn find_sub_index(subs: &Vec<(String, Subscription)>, topic: &str) -> (r: Option<usize>)
    ensures
        find_sub(subs@, topic@) == match r {
            Some(i) => Some(i as int),
            None => None::<int>,
        },
        r matches Some(i) ==> i < subs@.len(),
{
    let mut i: usize = 0;
    while i < subs.len()
        invariant
            i <= subs@.len(),
            find_sub(subs@, topic@) == find_sub_from(subs@, topic@, i as int),
        decreases subs@.len() - i,
    {
        if str_eq(subs[i].0.as_str(), topic) {
            return Some(i);
        }
        i = i + 1;
    }
    None
}

proof fn lemma_find_sub_some(subs: Seq<(String, Subscription)>, topic: Seq<char>, i: int)
    requires
        find_sub_from(subs, topic, i) is Some,
    ensures
        ({
            let k = find_sub_from(subs, topic, i).unwrap();
            i <= k < subs.len() && subs[k].0@ == topic
        }),
    decreases subs.len() - i,
{
    if 0 <= i < subs.len() && subs[i].0@ != topic {
        lemma_find_sub_some(subs, topic, i + 1);
    }
}

proof fn lemma_find_sub_none(subs: Seq<(String, Subscription)>, topic: Seq<char>, i: int)
    requires
        0 <= i,
        find_sub_from(subs, topic, i) is None,
    ensures
        forall|j: int| i <= j < subs.len() ==> (#[trigger] subs[j]).0@ != topic,
    decreases subs.len() - i,
{
    if i < subs.len() {
        lemma_find_sub_none(subs, topic, i + 1);
    }
}

/// What a CONNECT does: see `handle_connect`.
pub open spec fn connect_done(o: Context, p: Connect, r: Seq<PacketModel>, f: Context) -> bool {
    &&& (p.version > 5 ==> r == seq![connack(Reason::UnsupportedProtocolVersion, None)]
            && f.disconnect && f.state == o.state)
    &&& (p.version < 5 ==> r == seq![PacketModel::ConnAckV4 { ret: 1 }]
            && f.disconnect && f.state == o.state)
    &&& (p.version == 5 && o.state.connected ==> r == seq![
            connack(Reason::ProtocolError, None),
        ] && f == o)
    &&& (p.version == 5 && !o.state.connected ==> r == seq![
            connack(Reason::Success, Some(PACKET_SIZE_MAX)),
        ] && f.state.connected && f.state.client_id@ == p.client_id@
            && f.state.token == p.password && f.state.subs == o.state.subs && f.disconnect
            == o.disconnect)
    &&& (f.publishes == o.publishes)
}

/// What an UNSUBSCRIBE does: see `handle_unsubscribe`.
pub open spec fn unsubscribe_done(o: Context, p: Unsubscribe, r: Seq<PacketModel>, f: Context) -> bool {
    &&& (f.state.wf())
    &&& (match find_sub(o.state.subs@, p.topic@) {
            Some(i) => r == seq![
                PacketModel::UnsubAck { id: p.id, reason: Reason::Success },
            ] && f.state.subs@ == o.state.subs@.remove(i),
            None => r == seq![
                PacketModel::UnsubAck { id: p.id, reason: Reason::NoSubscriptionExisted },
            ] && f.state.subs@ == o.state.subs@,
        })
    &&& (f.state.connected == o.state.connected)
    &&& (f.state.client_id == o.state.client_id)
    &&& (f.state.token == o.state.token)
    &&& (f.disconnect == o.disconnect)
    &&& (f.publishes == o.publishes)
}

/// What a SUBSCRIBE does once its slot is read: see `subscribe_with_retained`.
pub open spec fn subscribe_step(o: State, p: Subscribe, read: Result<Option<RetainedSlot>, StorageError>, r: Seq<PacketModel>, f: State) -> bool {
    &&& (f.wf())
    &&& (f.connected == o.connected)
    &&& (f.client_id == o.client_id)
    &&& (f.token == o.token)
    &&& (read_failed(read) ==> r == seq![
            PacketModel::SubAck { id: p.id, reason: Reason::UnspecifiedError },
        ] && f.subs == o.subs)
    &&& (!read_failed(read) ==> r == seq![
            PacketModel::SubAck { id: p.id, reason: Reason::Success },
        ] + retained_on_subscribe(p.topic@, read_model(read), p.retain_handling) && upserted(
            o.subs@,
            f.subs@,
            p.topic@,
            p.no_local,
            p.retain_as_published,
            subscribed_version(read_model(read)),
        ))
}

/// What an accepted PUBLISH does once stored: see `publish_after_write`.
pub open spec fn publish_step(o: Context, config: Config, p: Publish, written: Option<RetainedVersion>, r: Seq<PacketModel>, f: Context) -> bool {
    &&& (f.state == o.state)
    &&& (f.disconnect == o.disconnect)
    &&& (config.publish_token@.len() > 0 ==> r.len() == 0 && f.publishes@.len()
            == o.publishes@.len() + 1 && f.publishes@.subrange(
            0,
            o.publishes@.len() as int,
        ) == o.publishes@ && request_is(
            f.publishes@.last(),
            p.topic@,
            p.message@,
            written,
            o.state.client_id@,
        ))
    &&& (config.publish_token@.len() == 0 ==> f.publishes == o.publishes && r == if config.local_echo && written is None && !no_local_on(o.state, p.topic@) {
            seq![
                PacketModel::Publish {
                    topic: p.topic@,
                    message: p.message@,
                    dup: false,
                    qos: 0,
                    retain: false,
                    message_expiry_interval: None,
                },
            ]
        } else {
            Seq::empty()
        })
    &&& (no_local_on(o.state, p.topic@) ==> no_publish(r))
}

/// What a SUBSCRIBE does: see `handle_subscribe`.
pub open spec fn subscribe_done(o: Context, p: Subscribe, r: Seq<PacketModel>, f: Context) -> bool {
    &&& (f.state.wf())
    &&& (f.state.connected == o.state.connected)
    &&& (f.state.client_id == o.state.client_id)
    &&& (f.state.token == o.state.token)
    &&& (f.disconnect == o.disconnect)
    &&& (f.publishes == o.publishes)
    &&& (p.topic@.len() == 0 ==> r == seq![
            PacketModel::SubAck { id: p.id, reason: Reason::UnspecifiedError },
        ] && f.state == o.state)
    &&& (p.topic@.len() > 0 && has_wildcard(p.topic@) ==> r == seq![
            PacketModel::SubAck { id: p.id, reason: Reason::WildcardSubscriptionsNotSupported },
        ] && f.state == o.state)
    &&& (p.topic@.len() > 0 && !has_wildcard(p.topic@) && o.state.token is None
            ==> r == seq![PacketModel::SubAck { id: p.id, reason: Reason::NotAuthorized }]
            && f.state == o.state)
    &&& (r.len() >= 1)
    &&& (r[0] matches PacketModel::SubAck { id, reason } && id == p.id)
    &&& ((p.topic@.len() > 0 && !has_wildcard(p.topic@)) ==> ((r == seq![
            PacketModel::SubAck { id: p.id, reason: Reason::NotAuthorized },
        ] && f.state == o.state && (o.state.token is None || exists|
            v: Result<Capabilities, AuthorizationError>,
        | !#[trigger] spec_grants(v, p.topic@, false))) || (o.state.token is Some && (exists|
            v: Result<Capabilities, AuthorizationError>,
        | #[trigger] spec_grants(v, p.topic@, false)) && exists|
            read: Result<Option<RetainedSlot>, StorageError>,
        | #[trigger] subscribe_step(o.state, p, read, r, f.state))))
}

/// What a PUBLISH does: see `handle_publish`.
pub open spec fn publish_done(o: Context, config: Config, p: Publish, r: Seq<PacketModel>, f: Context) -> bool {
    &&& (f.state == o.state)
    &&& (p.topic@.len() > 0 && p.topic@[0] == '$' ==> r.len() == 0 && f == o)
    &&& (!(p.topic@.len() > 0 && p.topic@[0] == '$') && p.qos > 0 ==> r == seq![
            PacketModel::Disconnect { reason: Reason::QoSNotSupported },
        ] && f.disconnect && f.publishes == o.publishes)
    &&& (p.qos == 0 ==> f.disconnect == o.disconnect)
    &&& (p.qos == 0 && (o.state.token is None || p.message@.len() > MESSAGE_SIZE_MAX)
            ==> r.len() == 0 && f.publishes == o.publishes)
    &&& (forall|i: int|
            o.publishes@.len() <= i < f.publishes@.len() ==> (
            #[trigger] f.publishes@[i]).message@.len() <= MESSAGE_SIZE_MAX)
    &&& (f.publishes@.len() >= o.publishes@.len())
    &&& (f.publishes@.subrange(0, o.publishes@.len() as int) == o.publishes@)
    &&& (no_local_on(o.state, p.topic@) ==> no_publish(r))
    &&& (!(p.topic@.len() > 0 && p.topic@[0] == '$') && p.qos == 0 && p.message@.len()
            <= MESSAGE_SIZE_MAX ==> ((r.len() == 0 && f == o && (o.state.token is None || exists|
            v: Result<Capabilities, AuthorizationError>,
        | !#[trigger] spec_grants(v, p.topic@, true))) || (o.state.token is Some && (exists|
            v: Result<Capabilities, AuthorizationError>,
        | #[trigger] spec_grants(v, p.topic@, true)) && exists|written: Option<RetainedVersion>|
            (written is Some ==> p.retain) && #[trigger] publish_step(o, config, p, written, r, f))))
}

/// Whether a validation result grants the topic: subscribing, or publishing
/// when `publish` is set. A failed validation grants nothing.
pub open spec fn spec_grants(
    v: Result<Capabilities, AuthorizationError>,
    topic: Seq<char>,
    publish: bool,
) -> bool {
    match v {
        Ok(c) => if publish {
            c.spec_can_publish(topic)
        } else {
            c.spec_can_subscribe(topic)
        },
        Err(_) => false,
    }
}

/// Decides whether a validation result grants the topic.
pub fn grants(v: &Result<Capabilities, AuthorizationError>, topic: &str, publish: bool) -> (r: bool)
    ensures
        r == spec_grants(*v, topic@, publish),
{
    match v {
        Ok(caps) => if publish {
            caps.can_publish(topic)
        } else {
            caps.can_subscribe(topic)
        },
        Err(_) => false,
    }
}

/// The time to live a retained message is stored with: its message expiry
/// interval, in seconds.
pub fn retain_ttl(expiry: Option<u32>) -> (r: Option<u64>)
    ensures
        r == match expiry {
            Some(x) => Some(x as u64),
            None => None::<u64>,
        },
{
    match expiry {
        Some(x) => Some(x as u64),
        None => None,
    }
}

/// A session's state between requests and what the current request decided.
pub struct Context {
    pub disconnect: bool,
    pub state: State,
    pub publishes: Vec<PublishRequest>,
}

/// The CONNACK of a connection accepted.
pub open spec fn connack(reason: Reason, max: Option<u32>) -> PacketModel {
    PacketModel::ConnAck { reason, maximum_packet_size: max }
}

/// Handles a CONNECT: a version above 5 is refused with a CONNACK, one below
/// with a version 4 CONNACK, both closing the connection; a second CONNECT is
/// a protocol error; otherwise the session starts with the client id and,
/// when given, the password as token.
pub fn handle_connect(ctx: &mut Context, p: Connect) -> (r: Vec<Packet>)
    ensures
        connect_done(*old(ctx), p, models(r@), *final(ctx)),
{
    if p.version != 5 {
        let out = if p.version > 5 {
            Packet::ConnAck(
                ConnAck { reason: Reason::UnsupportedProtocolVersion, maximum_packet_size: None },
            )
        } else {
            // unacceptable protocol version
            Packet::ConnAckV4(ConnAckV4 { ret: 0x01 })
        };
        ctx.disconnect = true;
        let mut v: Vec<Packet> = Vec::new();
        v.push(out);
        assert(models(v@) =~= seq![out@]);
        return v;
    }
    if ctx.state.connected {
        let mut v: Vec<Packet> = Vec::new();
        v.push(Packet::ConnAck(ConnAck { reason: Reason::ProtocolError, maximum_packet_size: None }));
        assert(models(v@) =~= seq![connack(Reason::ProtocolError, None)]);
        return v;
    }
    ctx.state.connected = true;
    ctx.state.client_id = p.client_id;
    ctx.state.token = p.password;
    let mut v: Vec<Packet> = Vec::new();
    v.push(
        Packet::ConnAck(
            ConnAck { reason: Reason::Success, maximum_packet_size: Some(PACKET_SIZE_MAX) },
        ),
    );
    assert(models(v@) =~= seq![connack(Reason::Success, Some(PACKET_SIZE_MAX))]);
    v
}

/// Handles a DISCONNECT: the session ends, nothing is answered.
pub fn handle_disconnect(ctx: &mut Context, _p: Disconnect) -> (r: Vec<Packet>)
    ensures
        r@.len() == 0,
        !final(ctx).state.connected,
        final(ctx).state.client_id@.len() == 0,
        final(ctx).state.token is None,
        final(ctx).state.subs@.len() == 0,
        final(ctx).disconnect == old(ctx).disconnect,
        final(ctx).publishes == old(ctx).publishes,
{
    ctx.state.clear();
    Vec::new()
}

/// Handles a PINGREQ: a PINGRESP.
pub fn handle_pingreq() -> (r: Vec<Packet>)
    ensures
        models(r@) == seq![PacketModel::PingResp],
{
    let mut v: Vec<Packet> = Vec::new();
    v.push(Packet::PingResp(PingResp));
    assert(models(v@) =~= seq![PacketModel::PingResp]);
    v
}

/// Handles an UNSUBSCRIBE: drops the subscription to the topic and acknowledges
/// with success, or acknowledges that there was none.
pub fn handle_unsubscribe(ctx: &mut Context, p: Unsubscribe) -> (r: Vec<Packet>)
    requires
        old(ctx).state.wf(),
    ensures
        unsubscribe_done(*old(ctx), p, models(r@), *final(ctx)),
{
    let reason = match find_sub_index(&ctx.state.subs, p.topic.as_str()) {
        Some(i) => {
            let ghost before = ctx.state.subs@;
            let _ = ctx.state.subs.remove(i);
            assert forall|a: int, b: int|
                0 <= a < ctx.state.subs@.len() && 0 <= b < ctx.state.subs@.len() && a != b
                    implies (#[trigger] ctx.state.subs@[a]).0@ != (
            #[trigger] ctx.state.subs@[b]).0@ by {
                let a2 = if a < i { a } else { a + 1 };
                let b2 = if b < i { b } else { b + 1 };
                assert(ctx.state.subs@[a] == before[a2]);
                assert(ctx.state.subs@[b] == before[b2]);
            }
            Reason::Success
        },
        None => Reason::NoSubscriptionExisted,
    };
    let mut v: Vec<Packet> = Vec::new();
    v.push(Packet::UnsubAck(UnsubAck { id: p.id, reason }));
    assert(models(v@) =~= seq![PacketModel::UnsubAck { id: p.id, reason }]);
    v
}


/// A stored version as a session keeps it.
pub open spec fn version_of(v: RetainedVersion) -> Version {
    Version { generation: v.generation, seq: v.seq }
}

/// A slot as read, as values: its version, and its time left and payload
/// unless expired.
pub type SlotModel = (RetainedVersion, Option<(Option<u64>, Seq<u8>)>);

/// The version a new subscription records from the slot read for it.
pub open spec fn subscribed_version(read: Option<SlotModel>) -> Option<Version> {
    match read {
        Some((v, _)) => Some(version_of(v)),
        None => None,
    }
}

/// A time left in nanoseconds as whole seconds (as the 32 bits of a message
/// expiry interval hold them).
pub open spec fn ttl_secs(t: Option<u64>) -> Option<u32> {
    match t {
        Some(n) => Some((n / 1_000_000_000) as u32),
        None => None,
    }
}

fn ttl_secs_of(t: Option<u64>) -> (r: Option<u32>)
    ensures
        r == ttl_secs(t),
{
    match t {
        Some(n) => Some((n / 1_000_000_000) as u32),
        None => None,
    }
}

/// The retained message sent on a new subscription: only with retain
/// handling 0 and a payload in the slot.
pub open spec fn retained_on_subscribe(topic: Seq<char>, read: Option<SlotModel>, retain_handling: u8) -> Seq<
    PacketModel,
> {
    match read {
        Some((_, Some((ttl, data)))) => if retain_handling == 0 {
            seq![
                PacketModel::Publish {
                    topic,
                    message: data,
                    dup: false,
                    qos: 0,
                    retain: true,
                    message_expiry_interval: ttl_secs(ttl),
                },
            ]
        } else {
            Seq::empty()
        },
        _ => Seq::empty(),
    }
}

/// A subscription as created: its options, what it has seen, nothing ignored.
pub open spec fn sub_is(s: Subscription, no_local: bool, rap: bool, version: Option<Version>) -> bool {
    s.no_local == no_local && s.retain_as_published == rap && s.last == Some(Last { version })
        && s.ignore@.len() == 0
}

/// `after` is `before` with the subscription to `topic` made or replaced by
/// one that `sub_is` describes; the others stay.
pub open spec fn upserted(
    before: Seq<(String, Subscription)>,
    after: Seq<(String, Subscription)>,
    topic: Seq<char>,
    no_local: bool,
    rap: bool,
    version: Option<Version>,
) -> bool {
    match find_sub(before, topic) {
        Some(k) => after.len() == before.len() && after[k].0@ == topic && sub_is(
            after[k].1,
            no_local,
            rap,
            version,
        ) && forall|i: int| 0 <= i < before.len() && i != k ==> after[i] == before[i],
        None => after.len() == before.len() + 1 && after[before.len() as int].0@ == topic
            && sub_is(after[before.len() as int].1, no_local, rap, version) && forall|i: int|
            0 <= i < before.len() ==> after[i] == before[i],
    }
}

/// Whether the storage answer is one the handler treats as a failure.
pub open spec fn read_failed(read: Result<Option<RetainedSlot>, StorageError>) -> bool {
    match read {
        Err(StorageError::StoreNotFound) => false,
        Err(_) => true,
        Ok(_) => false,
    }
}

/// The slot read, as values; a missing store reads as no slot.
pub open spec fn read_model(read: Result<Option<RetainedSlot>, StorageError>) -> Option<SlotModel> {
    match read {
        Ok(Some(s)) => Some(slot_model(s)),
        _ => None,
    }
}

fn upsert(subs: &mut Vec<(String, Subscription)>, topic: String, sub: Subscription)
    requires
        topics_unique(old(subs)@),
    ensures
        topics_unique(final(subs)@),
        match find_sub(old(subs)@, topic@) {
            Some(k) => final(subs)@ == old(subs)@.update(k, (topic, sub)),
            None => final(subs)@ == old(subs)@.push((topic, sub)),
        },
{
    let ghost before = subs@;
    let ghost t = topic@;
    match find_sub_index(subs, topic.as_str()) {
        Some(k) => {
            proof {
                lemma_find_sub_some(before, t, 0);
            }
            subs.set(k, (topic, sub));
            assert forall|a: int, b: int|
                0 <= a < subs@.len() && 0 <= b < subs@.len() && a != b implies (
            #[trigger] subs@[a]).0@ != (#[trigger] subs@[b]).0@ by {
                if a != k && b != k {
                    assert(subs@[a] == before[a] && subs@[b] == before[b]);
                } else if a == k {
                    assert(subs@[b] == before[b]);
                    assert(before[k as int].0@ == t);
                } else {
                    assert(subs@[a] == before[a]);
                    assert(before[k as int].0@ == t);
                }
            }
        },
        None => {
            proof {
                lemma_find_sub_none(before, t, 0);
            }
            subs.push((topic, sub));
            assert forall|a: int, b: int|
                0 <= a < subs@.len() && 0 <= b < subs@.len() && a != b implies (
            #[trigger] subs@[a]).0@ != (#[trigger] subs@[b]).0@ by {
                if a < before.len() && b < before.len() {
                    assert(subs@[a] == before[a] && subs@[b] == before[b]);
                } else if a < before.len() {
                    assert(subs@[a] == before[a]);
                } else {
                    assert(subs@[b] == before[b]);
                }
            }
        },
    }
}

/// Finishes a SUBSCRIBE once the slot of its topic has been read: a storage
/// failure is acknowledged as an unspecified error; otherwise the
/// subscription is recorded with the version read (a missing store reads as
/// no slot), acknowledged with success, and followed by the retained message
/// when retain handling asks for it.
pub fn subscribe_with_retained(
    state: &mut State,
    p: Subscribe,
    read: Result<Option<RetainedSlot>, StorageError>,
) -> (r: Vec<Packet>)
    requires
        old(state).wf(),
    ensures
        subscribe_step(*old(state), p, read, models(r@), *final(state)),
{
    let slot = match read {
        Ok(Some(r)) => Some(r),
        Ok(None) => None,
        Err(StorageError::StoreNotFound) => None,
        Err(_) => {
            let mut v: Vec<Packet> = Vec::new();
            v.push(Packet::SubAck(SubAck { id: p.id, reason: Reason::UnspecifiedError }));
            assert(models(v@) =~= seq![
                PacketModel::SubAck { id: p.id, reason: Reason::UnspecifiedError },
            ]);
            return v;
        },
    };
    let version = match &slot {
        Some(r) => Some(Version { generation: r.version.generation, seq: r.version.seq }),
        None => None,
    };
    let sub = Subscription {
        no_local: p.no_local,
        retain_as_published: p.retain_as_published,
        last: Some(Last { version }),
        ignore: Vec::new(),
    };
    let ghost before = state.subs@;
    let topic = p.topic;
    upsert(&mut state.subs, topic.clone(), sub);
    proof {
        match find_sub(before, topic@) {
            Some(k) => {
                lemma_find_sub_some(before, topic@, 0);
            },
            None => {},
        }
    }
    let mut out: Vec<Packet> = Vec::new();
    out.push(Packet::SubAck(SubAck { id: p.id, reason: Reason::Success }));
    let ghost first = models(out@);
    // retain handling 0 sends the retained message upon a new subscription
    if p.retain_handling == 0 {
        if let Some(r) = slot {
            if let Some(message) = r.message {
                let expiry = ttl_secs_of(message.ttl);
                out.push(
                    Packet::Publish(
                        Publish {
                            topic,
                            message: message.data,
                            dup: false,
                            qos: 0,
                            retain: true,
                            message_expiry_interval: expiry,
                        },
                    ),
                );
            }
        }
    }
    assert(models(out@) =~= seq![PacketModel::SubAck { id: p.id, reason: Reason::Success }]
        + retained_on_subscribe(p.topic@, read_model(read), p.retain_handling));
    out
}

/// Whether the characters name a topic with a wildcard.
pub open spec fn has_wildcard(topic: Seq<char>) -> bool {
    topic.contains('#') || topic.contains('+')
}

/// Whether the session's token grants the topic: subscribing, or publishing
/// when `publish` is set. Never without a token.
fn token_allows<A: Authorizor>(
    auth: &A,
    config: &Config,
    token: &Option<String>,
    topic: &str,
    publish: bool,
) -> (r: bool)
    ensures
        r ==> token is Some,
        token is Some ==> exists|v: Result<Capabilities, AuthorizationError>|
            r == #[trigger] spec_grants(v, topic@, publish),
{
    match token {
        Some(s) => {
            let v = auth.validate_token(s.as_str(), Some(config.internal_key.as_slice()));
            let r = grants(&v, topic, publish);
            assert(r == spec_grants(v, topic@, publish));
            r
        },
        None => false,
    }
}

/// Handles a SUBSCRIBE: refuses an empty topic, a wildcard and a topic the
/// session's token does not grant; otherwise reads the topic's slot and
/// finishes as `subscribe_with_retained` says.
pub fn handle_subscribe<A: Authorizor, S: Storage>(
    ctx: &mut Context,
    config: &Config,
    auth: &A,
    storage: &S,
    p: Subscribe,
) -> (r: Vec<Packet>)
    requires
        old(ctx).state.wf(),
    ensures
        subscribe_done(*old(ctx), p, models(r@), *final(ctx)),
{
    if p.topic.as_str().unicode_len() == 0 {
        let mut v: Vec<Packet> = Vec::new();
        v.push(Packet::SubAck(SubAck { id: p.id, reason: Reason::UnspecifiedError }));
        assert(models(v@) =~= seq![
            PacketModel::SubAck { id: p.id, reason: Reason::UnspecifiedError },
        ]);
        return v;
    }
    // wildcards are not supported
    if contains_char(p.topic.as_str(), '#') || contains_char(p.topic.as_str(), '+') {
        let mut v: Vec<Packet> = Vec::new();
        v.push(
            Packet::SubAck(
                SubAck { id: p.id, reason: Reason::WildcardSubscriptionsNotSupported },
            ),
        );
        assert(models(v@) =~= seq![
            PacketModel::SubAck { id: p.id, reason: Reason::WildcardSubscriptionsNotSupported },
        ]);
        return v;
    }
    let allowed = token_allows(auth, config, &ctx.state.token, p.topic.as_str(), false);
    if !allowed {
        let mut v: Vec<Packet> = Vec::new();
        v.push(Packet::SubAck(SubAck { id: p.id, reason: Reason::NotAuthorized }));
        assert(models(v@) =~= seq![
            PacketModel::SubAck { id: p.id, reason: Reason::NotAuthorized },
        ]);
        return v;
    }
    let read = storage.read_retained(p.topic.as_str(), None);
    let ghost id = p.id;
    let ghost pv = p;
    let ghost rd = read;
    let r = subscribe_with_retained(&mut ctx.state, p, read);
    proof {
        assert(models(r@).len() == r@.len());
        if read_failed(rd) {
            assert(models(r@)[0] == PacketModel::SubAck { id, reason: Reason::UnspecifiedError });
        } else {
            let first = seq![PacketModel::SubAck { id, reason: Reason::Success }];
            assert(models(r@)[0] == (first + retained_on_subscribe(
                pv.topic@,
                read_model(rd),
                pv.retain_handling,
            ))[0]);
        }
    }
    r
}


/// Whether the session's own subscription to `topic` asks not to receive its
/// own messages.
pub open spec fn no_local_on(state: State, topic: Seq<char>) -> bool {
    match find_sub(state.subs@, topic) {
        Some(i) => state.subs@[i].1.no_local,
        None => false,
    }
}

/// A request to the publish client for a message on `topic` from `sender`,
/// with the sequencing of the version it was stored at, if it was.
pub open spec fn request_is(
    q: PublishRequest,
    topic: Seq<char>,
    message: Seq<u8>,
    written: Option<RetainedVersion>,
    sender: Seq<char>,
) -> bool {
    &&& q.topic@ == topic
    &&& q.message@ == message
    &&& q.sender matches Some(s) && s@ == sender
    &&& match written {
        Some(v) => q.sequencing matches Some(sq) && sq.id@ == ascii_chars(
            id_bytes(v.generation, v.seq),
        ) && sq.prev_id@ == prev_id_chars(v),
        None => q.sequencing is None,
    }
}

/// Whether no packet is a PUBLISH.
pub open spec fn no_publish(ps: Seq<PacketModel>) -> bool {
    forall|i: int| 0 <= i < ps.len() ==> !(ps[i] is Publish)
}

/// Finishes an accepted PUBLISH once it is stored (`written` is the version
/// it was stored at, if it was retained and stored): with a publish token it
/// goes to the publish client, marked with the sender's client id; without
/// one, a message that was not stored is echoed back, when the configuration
/// allows it and the sender's subscription to the topic is not `no_local`.
pub fn publish_after_write(
    ctx: &mut Context,
    config: &Config,
    p: Publish,
    written: Option<RetainedVersion>,
) -> (r: Vec<Packet>)
    requires
        p.message@.len() <= MESSAGE_SIZE_MAX,
    ensures
        publish_step(*old(ctx), *config, p, written, models(r@), *final(ctx)),
{
    let seq = match written {
        Some(v) => Some(sequencing_for(v)),
        None => None,
    };
    let ignore = match find_sub_index(&ctx.state.subs, p.topic.as_str()) {
        Some(i) => ctx.state.subs[i].1.no_local,
        None => false,
    };
    let mut out: Vec<Packet> = Vec::new();
    let ghost pv = p;
    let ghost o = *ctx;
    if config.publish_token.as_str().unicode_len() > 0 {
        let sender = ctx.state.client_id.clone();
        ctx.publishes.push(
            PublishRequest { topic: p.topic, message: p.message, sequencing: seq, sender: Some(sender) },
        );
    } else if config.local_echo && seq.is_none() && !ignore {
        // no publish client: echo back to the sender
        out.push(
            Packet::Publish(
                Publish {
                    topic: p.topic,
                    message: p.message,
                    dup: false,
                    qos: 0,
                    retain: false,
                    message_expiry_interval: None,
                },
            ),
        );
    }
    assert(models(out@).len() == out@.len());
    proof {
        if out@.len() == 0 {
            assert(models(out@) =~= Seq::<PacketModel>::empty());
        } else {
            assert(models(out@) =~= seq![
                PacketModel::Publish {
                    topic: pv.topic@,
                    message: pv.message@,
                    dup: false,
                    qos: 0,
                    retain: false,
                    message_expiry_interval: None,
                },
            ]);
        }
        if no_local_on(o.state, pv.topic@) {
            assert(out@.len() == 0);
        }
        assert(ctx.state == o.state);
        assert(ctx.disconnect == o.disconnect);
        assert(config.publish_token@.len() > 0 ==> models(out@).len() == 0);
        assert(config.publish_token@.len() > 0 ==> ctx.publishes@.len() == o.publishes@.len() + 1);
        assert(config.publish_token@.len() > 0 ==> ctx.publishes@.subrange(0, o.publishes@.len() as int) == o.publishes@);
        assert(config.publish_token@.len() > 0 ==> request_is(ctx.publishes@.last(), pv.topic@, pv.message@, written, o.state.client_id@));
        assert(config.publish_token@.len() == 0 ==> ctx.publishes == o.publishes);
    }
    out
}

/// Handles a PUBLISH: a topic starting with `$` is dropped; QoS above 0 closes
/// the connection with a DISCONNECT; a topic the session's token does not
/// grant, or a payload above `MESSAGE_SIZE_MAX`, is dropped; a retained
/// message is stored, a storage failure only losing its sequencing; then
/// `publish_after_write` finishes.
pub fn handle_publish<A: Authorizor, S: Storage>(
    ctx: &mut Context,
    config: &Config,
    auth: &A,
    storage: &S,
    p: Publish,
) -> (r: Vec<Packet>)
    ensures
        publish_done(*old(ctx), *config, p, models(r@), *final(ctx)),
{
    proof {
        reveal_strlit("$");
    }
    let ghost o = *ctx;
    let ghost pv = p;
    proof {
        assert(o.publishes@.subrange(0, o.publishes@.len() as int) =~= o.publishes@);
    }
    if starts_with_ascii(p.topic.as_str(), 36) {
        // topics beginning with $ take no publishes
        let v: Vec<Packet> = Vec::new();
        assert(models(v@) =~= Seq::<PacketModel>::empty());
        return v;
    }
    if p.qos > 0 {
        ctx.disconnect = true;
        let mut v: Vec<Packet> = Vec::new();
        v.push(Packet::Disconnect(Disconnect { reason: Reason::QoSNotSupported }));
        assert(models(v@) =~= seq![PacketModel::Disconnect { reason: Reason::QoSNotSupported }]);
        assert(no_publish(models(v@)));
        assert(ctx.publishes@.subrange(0, o.publishes@.len() as int) =~= o.publishes@);
        return v;
    }
    let allowed = token_allows(auth, config, &ctx.state.token, p.topic.as_str(), true);
    if !allowed || p.message.len() > MESSAGE_SIZE_MAX {
        let v: Vec<Packet> = Vec::new();
        assert(models(v@) =~= Seq::<PacketModel>::empty());
        return v;
    }
    let mut written: Option<RetainedVersion> = None;
    if p.retain {
        let ttl = retain_ttl(p.message_expiry_interval);
        match storage.write_retained(p.topic.as_str(), p.message.as_slice(), ttl) {
            Ok(v) => written = Some(v),
            Err(_) => {},
        }
    }
    let ghost before = ctx.publishes@;
    let r = publish_after_write(ctx, config, p, written);
    proof {
        assert forall|i: int| before.len() <= i < ctx.publishes@.len() implies (
        #[trigger] ctx.publishes@[i]).message@.len() <= MESSAGE_SIZE_MAX by {
            assert(i == before.len());
        }
        if config.publish_token@.len() == 0 {
            assert(ctx.publishes@.subrange(0, before.len() as int) =~= before);
        }
        assert(publish_step(o, *config, pv, written, models(r@), *ctx));
    }
    r
}

/// Handles one packet from the client, by its kind; PINGREQ is answered with
/// a PINGRESP, and kinds a client does not send are ignored.
pub fn handle_packet<A: Authorizor, S: Storage>(
    ctx: &mut Context,
    config: &Config,
    auth: &A,
    storage: &S,
    p: Packet,
) -> (r: Vec<Packet>)
    requires
        old(ctx).state.wf(),
    ensures
        old(ctx).disconnect ==> final(ctx).disconnect,
        p matches Packet::Connect(c) ==> connect_done(*old(ctx), c, models(r@), *final(ctx)),
        p matches Packet::Unsubscribe(u) ==> unsubscribe_done(*old(ctx), u, models(r@), *final(ctx)),
        p matches Packet::Subscribe(x) ==> subscribe_done(*old(ctx), x, models(r@), *final(ctx)),
        p matches Packet::Publish(x) ==> publish_done(*old(ctx), *config, x, models(r@), *final(ctx)),
        final(ctx).state.wf(),
        p is PingReq ==> models(r@) == seq![PacketModel::PingResp] && *final(ctx) == *old(ctx),
        !(p is Connect || p is Disconnect || p is PingReq || p is Subscribe || p is Unsubscribe
            || p is Publish) ==> r@.len() == 0 && *final(ctx) == *old(ctx),
        p is Disconnect ==> r@.len() == 0 && final(ctx).state.subs@.len() == 0
            && !final(ctx).state.connected,
        final(ctx).publishes@.len() >= old(ctx).publishes@.len(),
        final(ctx).publishes@.subrange(0, old(ctx).publishes@.len() as int) == old(
            ctx,
        ).publishes@,
        forall|i: int|
            old(ctx).publishes@.len() <= i < final(ctx).publishes@.len() ==> (
            #[trigger] final(ctx).publishes@[i]).message@.len() <= MESSAGE_SIZE_MAX,
{
    let ghost before = ctx.publishes@;
    let r = match p {
        Packet::Connect(p) => handle_connect(ctx, p),
        Packet::Disconnect(p) => handle_disconnect(ctx, p),
        Packet::PingReq(_) => handle_pingreq(),
        Packet::Subscribe(p) => handle_subscribe(ctx, config, auth, storage, p),
        Packet::Unsubscribe(p) => handle_unsubscribe(ctx, p),
        Packet::Publish(p) => handle_publish(ctx, config, auth, storage, p),
        _ => Vec::new(),
    };
    proof {
        if ctx.publishes@ == before {
            assert(ctx.publishes@.subrange(0, before.len() as int) =~= before);
        }
        assert(topics_unique(ctx.state.subs@)) by {
            if ctx.state.subs@.len() == 0 {
            }
        }
    }
    r
}

/// The ignored versions kept once `v` has been delivered: later ones of the
/// same generation.
pub open spec fn keep_later(ignore: Seq<Version>, v: Version) -> Seq<Version>
    decreases ignore.len(),
{
    if ignore.len() == 0 {
        Seq::empty()
    } else {
        let i = ignore.last();
        keep_later(ignore.drop_last(), v) + if i.generation == v.generation && i.seq > v.seq {
            seq![i]
        } else {
            Seq::empty()
        }
    }
}

/// What a sync pass sends for a subscription on `topic` given the slot read
/// after its last version: the payload, unless none was read, it has expired,
/// or the version read is one the session ignores.
pub open spec fn sync_publish(
    topic: Seq<char>,
    rap: bool,
    ignore: Seq<Version>,
    read: Option<SlotModel>,
) -> Option<PacketModel> {
    match read {
        Some((v, Some((ttl, data)))) => if ignore.contains(version_of(v)) {
            None
        } else {
            Some(
                PacketModel::Publish {
                    topic,
                    message: data,
                    dup: false,
                    qos: 0,
                    retain: rap,
                    message_expiry_interval: ttl_secs(ttl),
                },
            )
        },
        _ => None,
    }
}

/// Brings one subscription up to date with the slot read after its last
/// version: records the version read, drops the ignored versions it passes,
/// and returns what to send.
pub fn sync_subscription(topic: &String, sub: &mut Subscription, read: Option<RetainedSlot>) -> (r:
    Option<Packet>)
    ensures
        final(sub).no_local == old(sub).no_local,
        final(sub).retain_as_published == old(sub).retain_as_published,
        match read {
            None => *final(sub) == *old(sub) && r is None,
            Some(s) => final(sub).last == Some(Last { version: Some(version_of(s.version)) })
                && final(sub).ignore@ == keep_later(old(sub).ignore@, version_of(s.version)),
        },
        match sync_publish(topic@, old(sub).retain_as_published, old(sub).ignore@, match read {
            Some(s) => Some(slot_model(s)),
            None => None,
        }) {
            Some(m) => r matches Some(pk) && pk@ == m,
            None => r is None,
        },
{
    let s = match read {
        Some(s) => s,
        None => return None,
    };
    let v = Version { generation: s.version.generation, seq: s.version.seq };
    sub.last = Some(Last { version: Some(v) });
    let mut suppress = false;
    let mut kept: Vec<Version> = Vec::new();
    let mut i: usize = 0;
    let ghost ign = sub.ignore@;
    while i < sub.ignore.len()
        invariant
            i <= sub.ignore@.len(),
            ign == sub.ignore@,
            suppress == ign.subrange(0, i as int).contains(v),
            kept@ == keep_later(ign.subrange(0, i as int), v),
        decreases sub.ignore@.len() - i,
    {
        let x = sub.ignore[i];
        assert(ign.subrange(0, i + 1).drop_last() =~= ign.subrange(0, i as int));
        if x.generation == v.generation && x.seq == v.seq {
            suppress = true;
        }
        // later versions stay ignored
        if x.generation == v.generation && x.seq > v.seq {
            kept.push(x);
        }
        i = i + 1;
        assert(kept@ =~= keep_later(ign.subrange(0, i as int), v));
        assert(suppress == ign.subrange(0, i as int).contains(v)) by {
            if suppress && !ign.subrange(0, i - 1).contains(v) {
                assert(ign.subrange(0, i as int)[i - 1] == v);
            }
            if ign.subrange(0, i - 1).contains(v) {
                let k = choose|k: int| 0 <= k < i - 1 && #[trigger] ign.subrange(0, i - 1)[k] == v;
                assert(ign.subrange(0, i as int)[k] == v);
            }
        }
    }
    assert(ign.subrange(0, i as int) =~= ign);
    sub.ignore = kept;
    match s.message {
        Some(message) => if suppress {
            None
        } else {
            let expiry = ttl_secs_of(message.ttl);
            Some(
                Packet::Publish(
                    Publish {
                        topic: topic.clone(),
                        message: message.data,
                        dup: false,
                        qos: 0,
                        retain: sub.retain_as_published,
                        message_expiry_interval: expiry,
                    },
                ),
            )
        },
        None => None,
    }
}

/// One subscription's part of a sync pass, given what reading its slot after
/// its last version gave: a storage failure (other than a missing store)
/// gives a DISCONNECT with an unspecified error and ends the pass (`true`),
/// leaving the subscription as it was; a missing slot or store changes
/// nothing; a slot read is handled as `sync_subscription` says.
pub fn sync_read(
    topic: &String,
    sub: &mut Subscription,
    read: Result<Option<RetainedSlot>, StorageError>,
) -> (r: (Option<Packet>, bool))
    ensures
        read_failed(read) ==> (r.1 && *final(sub) == *old(sub) && (r.0 matches Some(pk) && pk@
            == (PacketModel::Disconnect { reason: Reason::UnspecifiedError }))),
        !read_failed(read) ==> !r.1,
        match read {
            Ok(Some(s)) => final(sub).last == Some(Last { version: Some(version_of(s.version)) })
                && final(sub).ignore@ == keep_later(old(sub).ignore@, version_of(s.version))
                && final(sub).no_local == old(sub).no_local && final(sub).retain_as_published
                == old(sub).retain_as_published && match sync_publish(
                topic@,
                old(sub).retain_as_published,
                old(sub).ignore@,
                Some(slot_model(s)),
            ) {
                Some(m) => r.0 matches Some(pk) && pk@ == m,
                None => r.0 is None,
            },
            Ok(None) | Err(StorageError::StoreNotFound) => r.0 is None && *final(sub) == *old(sub),
            _ => true,
        },
{
    match read {
        Ok(Some(slot)) => (sync_subscription(topic, sub, Some(slot)), false),
        Ok(None) => (None, false),
        Err(StorageError::StoreNotFound) => (None, false),
        Err(_) => (Some(Packet::Disconnect(Disconnect { reason: Reason::UnspecifiedError })), true),
    }
}

/// Whether a packet is a PUBLISH on one of the topics.
pub open spec fn publish_on(m: PacketModel, topics: Seq<Seq<char>>) -> bool {
    m matches PacketModel::Publish { topic, .. } && topics.contains(topic)
}

/// A subscription brought to version `v` by a sync pass: its cursor at `v`,
/// the ignored versions it passed dropped, its options kept.
pub open spec fn sub_moved(a: Subscription, b: Subscription, v: Version) -> bool {
    b.last == Some(Last { version: Some(v) }) && b.ignore@ == keep_later(a.ignore@, v)
        && b.no_local == a.no_local && b.retain_as_published == a.retain_as_published
}

/// What a sync pass may do to a subscription: nothing, or move it to a
/// version read.
pub open spec fn sub_synced(a: Subscription, b: Subscription) -> bool {
    b == a || exists|v: Version| #[trigger] sub_moved(a, b, v)
}

/// Whether a PUBLISH carries the retain-as-published option of a
/// subscription to its topic.
pub open spec fn rap_matches(m: PacketModel, subs: Seq<(String, Subscription)>) -> bool {
    m matches PacketModel::Publish { topic, retain, .. } ==> exists|k: int|
        0 <= k < subs.len() && (#[trigger] subs[k]).0@ == topic && subs[k].1.retain_as_published
            == retain
}

/// The sync pass: for each subscription that has recorded where it stands,
/// reads the slot after that version and brings the subscription up to date,
/// sending what `sync_subscription` says. A storage failure (other than a
/// missing store) sends a DISCONNECT with an unspecified error, closes the
/// connection and ends the pass.
pub fn handle_sync<S: Storage>(ctx: &mut Context, storage: &S) -> (r: Vec<Packet>)
    requires
        old(ctx).state.wf(),
    ensures
        final(ctx).state.wf(),
        sub_topics(final(ctx).state.subs@) == sub_topics(old(ctx).state.subs@),
        final(ctx).state.connected == old(ctx).state.connected,
        final(ctx).state.client_id == old(ctx).state.client_id,
        final(ctx).state.token == old(ctx).state.token,
        final(ctx).publishes == old(ctx).publishes,
        final(ctx).disconnect == (old(ctx).disconnect || (r@.len() > 0 && models(r@).last()
            == PacketModel::Disconnect { reason: Reason::UnspecifiedError })),
        forall|i: int|
            0 <= i < r@.len() - 1 ==> publish_on(
                #[trigger] models(r@)[i],
                sub_topics(old(ctx).state.subs@),
            ),
        r@.len() > 0 ==> publish_on(models(r@).last(), sub_topics(old(ctx).state.subs@)) || (
        models(r@).last() == PacketModel::Disconnect { reason: Reason::UnspecifiedError }
            && final(ctx).disconnect),
        final(ctx).state.subs@.len() == old(ctx).state.subs@.len(),
        forall|k: int|
            0 <= k < final(ctx).state.subs@.len() ==> sub_synced(
                old(ctx).state.subs@[k].1,
                #[trigger] final(ctx).state.subs@[k].1,
            ),
        forall|i: int| 0 <= i < r@.len() ==> rap_matches(#[trigger] models(r@)[i], old(ctx).state.subs@),
{
    let mut out: Vec<Packet> = Vec::new();
    let mut rest: Vec<(String, Subscription)> = Vec::new();
    std::mem::swap(&mut rest, &mut ctx.state.subs);
    let ghost all = rest@;
    let ghost topics = sub_topics(all);
    let mut done: Vec<(String, Subscription)> = Vec::new();
    let ghost old_disconnect = ctx.disconnect;
    let mut failed = false;
    while rest.len() > 0 && !failed
        invariant
            done@.len() + rest@.len() == all.len(),
            rest@ == all.subrange(done@.len() as int, all.len() as int),
            forall|k: int| 0 <= k < done@.len() ==> (#[trigger] done@[k]).0@ == all[k].0@,
            topics == sub_topics(all),
            topics_unique(all),
            ctx.state.subs@.len() == 0,
            ctx.state.connected == old(ctx).state.connected,
            ctx.state.client_id == old(ctx).state.client_id,
            ctx.state.token == old(ctx).state.token,
            ctx.publishes == old(ctx).publishes,
            old_disconnect == old(ctx).disconnect,
            ctx.disconnect == (old_disconnect || failed),
            failed ==> out@.len() > 0 && models(out@).last() == (PacketModel::Disconnect {
                reason: Reason::UnspecifiedError,
            }),
            forall|i: int|
                0 <= i < out@.len() && !(failed && i == out@.len() - 1) ==> publish_on(
                    #[trigger] models(out@)[i],
                    topics,
                ),
            forall|k: int| 0 <= k < done@.len() ==> sub_synced(all[k].1, #[trigger] done@[k].1),
            forall|i: int| 0 <= i < out@.len() ==> rap_matches(#[trigger] models(out@)[i], all),
        decreases rest@.len(),
    {
        let ghost n = done@.len();
        let ghost before_out = models(out@);
        let (topic, mut sub) = rest.remove(0);
        let ghost sub0 = sub;
        assert(sub0 == all[n as int].1);
        assert(topic@ == all[n as int].0@);
        assert(topics[n as int] == topic@);
        let after = match &sub.last {
            Some(last) => match last.version {
                Some(v) => Some(Some(RetainedVersion { generation: v.generation, seq: v.seq })),
                None => Some(None),
            },
            None => None,
        };
        if let Some(after) = after {
            let read = storage.read_retained(topic.as_str(), after);
            let ghost rd = read;
            let (pk, fail) = sync_read(&topic, &mut sub, read);
            proof {
                if let Ok(Some(s)) = rd {
                    assert(sub_moved(sub0, sub, version_of(s.version)));
                }
            }
            if let Some(pk) = pk {
                out.push(pk);
                assert(models(out@) =~= before_out.push(pk@));
                if !fail {
                    assert(publish_on(pk@, topics));
                }
                assert(rap_matches(pk@, all)) by {
                    if pk@ is Publish {
                        assert(all[n as int].0@ == topic@);
                    }
                }
                assert forall|i: int| 0 <= i < out@.len() implies rap_matches(
                    #[trigger] models(out@)[i],
                    all,
                ) by {
                    if i < before_out.len() {
                        assert(models(out@)[i] == before_out[i]);
                    }
                }
            }
            if fail {
                ctx.disconnect = true;
                failed = true;
            }
        }
        let ghost dbefore = done@;
        done.push((topic, sub));
        assert(sub_synced(all[n as int].1, done@[n as int].1));
        assert forall|k: int| 0 <= k < done@.len() implies sub_synced(all[k].1, #[trigger] done@[k].1) by {
            if k < n {
                assert(done@[k] == dbefore[k]);
            }
        }
    }
    let ghost n = done@.len();
    done.append(&mut rest);
    ctx.state.subs = done;
    proof {
        assert forall|k: int| 0 <= k < all.len() implies (#[trigger] ctx.state.subs@[k]).0@
            == all[k].0@ by {
            if k >= n {
                assert(ctx.state.subs@[k] == all[k]);
            }
        }
        assert(sub_topics(ctx.state.subs@) =~= sub_topics(all));
        assert forall|a: int, b: int|
            0 <= a < ctx.state.subs@.len() && 0 <= b < ctx.state.subs@.len() && a != b implies (
        #[trigger] ctx.state.subs@[a]).0@ != (#[trigger] ctx.state.subs@[b]).0@ by {
            assert(ctx.state.subs@[a].0@ == all[a].0@);
            assert(ctx.state.subs@[b].0@ == all[b].0@);
        }
        if out@.len() > 0 && !failed {
            assert(publish_on(models(out@)[out@.len() - 1], topics));
        }
        if failed {
            assert(out@.len() > 0);
        }
        assert forall|k: int| 0 <= k < ctx.state.subs@.len() implies sub_synced(
            all[k].1,
            #[trigger] ctx.state.subs@[k].1,
        ) by {
            if k >= n {
                assert(ctx.state.subs@[k] == all[k]);
            } else {
                assert(ctx.state.subs@[k] == done@[k]);
            }
        }
    }
    out
}


/// What a store holding a slot with metadata `meta` and payload `body` (no
/// slot when `meta` is `None`) hands a reader that has seen `after`.
pub open spec fn stored_read(
    meta: Option<Metadata>,
    after: Option<RetainedVersion>,
    now: i128,
    body: Seq<u8>,
) -> Option<SlotModel> {
    match meta {
        Some(m) => spec_read_slot(m, after, now, body),
        None => None,
    }
}

/// The version a sync pass reads after, from what a subscription recorded.
pub open spec fn after_of(v: Option<Version>) -> Option<RetainedVersion> {
    match v {
        Some(x) => Some(RetainedVersion { generation: x.generation, seq: x.seq }),
        None => None,
    }
}

/// With no write between a SUBSCRIBE and the next sync pass, the pass reads
/// nothing after the version the subscription recorded, and sends nothing on
/// the topic: the retained payload goes out only with the SUBACK, when
/// retain handling is 0.
pub proof fn lemma_subscribe_then_sync(
    meta: Option<Metadata>,
    topic: Seq<char>,
    rap: bool,
    now1: i128,
    now2: i128,
    body: Seq<u8>,
)
    ensures
        ({
            let v = subscribed_version(stored_read(meta, None, now1, body));
            let read = stored_read(meta, after_of(v), now2, body);
            read is None && sync_publish(topic, rap, Seq::empty(), read) is None
        }),
{
}

/// Through the handlers: once a SUBSCRIBE has recorded the slot it read
/// (`subscribe_with_retained`), the subscription's last version is one that a
/// sync pass with no write in between reads nothing after, so the pass
/// (`sync_read` on that empty read) sends nothing on the topic.
pub proof fn lemma_subscription_then_sync(
    o: State,
    p: Subscribe,
    read: Result<Option<RetainedSlot>, StorageError>,
    r: Seq<PacketModel>,
    f: State,
    meta: Option<Metadata>,
    now1: i128,
    now2: i128,
    body: Seq<u8>,
)
    requires
        subscribe_step(o, p, read, r, f),
        !read_failed(read),
        read_model(read) == stored_read(meta, None, now1, body),
    ensures
        exists|k: int|
            0 <= k < f.subs@.len() && (#[trigger] f.subs@[k]).0@ == p.topic@ && f.subs@[k].1.last
                == Some(Last { version: subscribed_version(read_model(read)) }),
        stored_read(meta, after_of(subscribed_version(read_model(read))), now2, body) is None,
{
    lemma_subscribe_then_sync(meta, p.topic@, p.retain_as_published, now1, now2, body);
    match find_sub(o.subs@, p.topic@) {
        Some(k) => {
            lemma_find_sub_some(o.subs@, p.topic@, 0);
            assert(f.subs@[k].0@ == p.topic@);
            assert(f.subs@[k].1.last == Some(Last { version: subscribed_version(read_model(read)) }));
        },
        None => {
            let k = o.subs@.len() as int;
            assert(f.subs@[k].0@ == p.topic@);
            assert(f.subs@[k].1.last == Some(Last { version: subscribed_version(read_model(read)) }));
        },
    }
}

} // verus!
