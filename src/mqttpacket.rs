//! MQTT v5 control packets: parsing of what clients send and serialization of
//! what the broker answers.

use vstd::prelude::*;
use vstd::slice::slice_subrange;
use vstd::utf8::*;
use crate::text::string_from_utf8;

verus! {

/// The data is not a well-formed packet.
#[derive(Debug, Clone, Copy, PartialEq, Eq, Structural)]
pub struct InvalidData;

/// Payload bits of one byte of a variable byte integer.
pub open spec fn low7(b: u8) -> nat {
    (b % 128) as nat
}

/// Weight of the byte at offset `k` of a variable byte integer.
pub open spec fn weight(k: nat) -> nat
    decreases k,
{
    if k == 0 {
        1
    } else {
        128 * weight((k - 1) as nat)
    }
}

/// Where a variable byte integer starting at `start` ends, looking from offset
/// `k` of it: `None` when `end` comes first, `Err` on a fifth byte.
pub open spec fn vbi_end(s: Seq<u8>, start: int, end: int, k: nat) -> Option<Result<nat, ()>>
    decreases 5 - k,
{
    if start + k >= end {
        None
    } else if k >= 4 {
        Some(Err(()))
    } else if s[start + k] < 128 {
        Some(Ok(k + 1))
    } else {
        vbi_end(s, start, end, k + 1)
    }
}

/// Value of the first `n` bytes of a variable byte integer at `start`.
pub open spec fn vbi_value(s: Seq<u8>, start: int, n: nat) -> nat
    decreases n,
{
    if n == 0 {
        0
    } else {
        vbi_value(s, start, (n - 1) as nat) + low7(s[start + n - 1]) * weight((n - 1) as nat)
    }
}

/// A variable byte integer read from `s[start..end]`: its value and its
/// length in bytes.
pub open spec fn spec_vbi(s: Seq<u8>, start: int, end: int) -> Option<Result<(nat, nat), ()>> {
    match vbi_end(s, start, end, 0) {
        None => None,
        Some(Err(())) => Some(Err(())),
        Some(Ok(n)) => Some(Ok((vbi_value(s, start, n), n))),
    }
}

/// The shortest variable byte integer encoding of `v`.
pub open spec fn vbi_encode(v: nat) -> Seq<u8>
    decreases v,
{
    if v < 128 {
        seq![v as u8]
    } else {
        seq![(v % 128 + 128) as u8] + vbi_encode(v / 128)
    }
}

proof fn lemma_vbi_value_bound(s: Seq<u8>, start: int, n: nat)
    ensures
        vbi_value(s, start, n) < weight(n),
    decreases n,
{
    if n > 0 {
        lemma_vbi_value_bound(s, start, (n - 1) as nat);
        let w = weight((n - 1) as nat);
        let b = low7(s[start + n - 1]);
        assert(b * w <= 127 * w) by (nonlinear_arith)
            requires
                b <= 127,
        ;
    }
}

proof fn lemma_weights()
    ensures
        weight(0) == 1,
        weight(1) == 128,
        weight(2) == 16384,
        weight(3) == 2097152,
{
    assert(weight(0) == 1);
    assert(weight(1) == 128);
    assert(weight(2) == 16384);
    assert(weight(3) == 2097152);
}

/// Reads a variable byte integer at `src[start..end]`: `None` when the data
/// ends first, `Some(Err)` on a fifth byte, else its value and length.
pub fn parse_int(src: &[u8], start: usize, end: usize) -> (r: Option<
    Result<(u32, usize), InvalidData>,
>)
    requires
        start <= end <= src@.len(),
    ensures
        r matches Some(Ok((v, n))) ==> spec_vbi(src@, start as int, end as int) == Some(
            Ok::<(nat, nat), ()>((v as nat, n as nat)),
        ),
        r matches Some(Err(_)) ==> spec_vbi(src@, start as int, end as int) == Some(
            Err::<(nat, nat), ()>(()),
        ),
        r is None ==> spec_vbi(src@, start as int, end as int) is None,
{
    let ghost s = src@;
    let mut pos: usize = 0;
    let mut value: u32 = 0;
    loop
        invariant
            start <= end <= src@.len(),
            s == src@,
            pos <= 4,
            value == vbi_value(s, start as int, pos as nat),
            vbi_end(s, start as int, end as int, 0) == vbi_end(s, start as int, end as int, pos as nat),
        decreases 5 - pos,
    {
        if pos >= end - start {
            return None;
        }
        if pos >= 4 {
            return Some(Err(InvalidData));
        }
        let b = src[start + pos];
        proof {
            lemma_vbi_value_bound(s, start as int, pos as nat);
            lemma_weights();
        }
        let low = (b & 0x7f) as u32;
        assert(b & 0x7f == b % 128) by (bit_vector);
        let w: u32 = if pos == 0 {
            1
        } else if pos == 1 {
            128
        } else if pos == 2 {
            16384
        } else {
            2097152
        };
        assert(low * w <= 127 * 2097152) by (nonlinear_arith)
            requires
                low <= 127,
                w <= 2097152,
        ;
        value = value + low * w;
        pos = pos + 1;
        if b & 0x80 == 0 {
            assert(b & 0x80 == 0 ==> b < 128) by (bit_vector);
            return Some(Ok((value, pos)));
        }
        assert(b & 0x80 != 0 ==> b >= 128) by (bit_vector);
    }
}

/// Appends the variable byte integer encoding of `value`.
pub fn write_int(dest: &mut Vec<u8>, value: u32)
    ensures
        final(dest)@ == old(dest)@ + vbi_encode(value as nat),
{
    let ghost start = dest@;
    let mut remaining = value;
    loop
        invariant
            start == old(dest)@,
            dest@ + vbi_encode(remaining as nat) == start + vbi_encode(value as nat),
        decreases remaining,
    {
        let ghost before = dest@;
        if remaining < 128 {
            dest.push(remaining as u8);
            assert(dest@ =~= before + vbi_encode(remaining as nat));
            return;
        }
        let b = (remaining % 128 + 128) as u8;
        dest.push(b);
        let ghost old_remaining = remaining;
        remaining = remaining / 128;
        assert(vbi_encode(old_remaining as nat) == seq![b] + vbi_encode(remaining as nat));
        assert(dest@ + vbi_encode(remaining as nat) =~= before + vbi_encode(old_remaining as nat));
    }
}

/// Big-endian 16-bit value at `s[pos..pos + 2]`.
pub open spec fn be16(s: Seq<u8>, pos: int) -> nat {
    s[pos] as nat * 256 + s[pos + 1] as nat
}

/// Big-endian 32-bit value at `s[pos..pos + 4]`.
pub open spec fn be32(s: Seq<u8>, pos: int) -> nat {
    s[pos] as nat * 16777216 + s[pos + 1] as nat * 65536 + s[pos + 2] as nat * 256 + s[pos
        + 3] as nat
}

/// A length-prefixed binary field at `s[pos..end]`: its bytes and the
/// position after it.
pub open spec fn spec_binary(s: Seq<u8>, pos: int, end: int) -> Option<(Seq<u8>, int)> {
    if pos + 2 > end {
        None
    } else {
        let n = be16(s, pos);
        if pos + 2 + n > end {
            None
        } else {
            Some((s.subrange(pos + 2, pos + 2 + n), pos + 2 + n))
        }
    }
}

/// A length-prefixed UTF-8 string field at `s[pos..end]`.
pub open spec fn spec_string(s: Seq<u8>, pos: int, end: int) -> Option<(Seq<char>, int)> {
    match spec_binary(s, pos, end) {
        Some((b, q)) => if valid_utf8(b) {
            Some((decode_utf8(b), q))
        } else {
            None
        },
        None => None,
    }
}

/// A complete variable byte integer at `s[pos..end]`, or `None` when it is
/// truncated or too long.
pub open spec fn spec_vbi_ok(s: Seq<u8>, pos: int, end: int) -> Option<(nat, nat)> {
    match spec_vbi(s, pos, end) {
        Some(Ok((v, n))) => if n >= 1 && pos + n <= end {
            Some((v, n))
        } else {
            None
        },
        _ => None,
    }
}

/// Skips a property block (its length, then that many bytes) at `s[pos..end]`.
pub open spec fn spec_skip_props(s: Seq<u8>, pos: int, end: int) -> Option<int> {
    match spec_vbi_ok(s, pos, end) {
        Some((n, k)) => if pos + k + n <= end {
            Some(pos + k + n)
        } else {
            None
        },
        None => None,
    }
}

/// Reads the properties of a PUBLISH in `s[pos..end]`, keeping the last
/// message expiry interval seen (`acc` so far). `None` when one is malformed
/// or unknown.
pub open spec fn spec_publish_props(s: Seq<u8>, pos: int, end: int, acc: Option<u32>) -> Option<
    Option<u32>,
>
    decreases end - pos,
{
    if pos >= end {
        Some(acc)
    } else {
        let id = s[pos];
        if id == 0x01 {
            if end - pos < 2 {
                None
            } else {
                spec_publish_props(s, pos + 2, end, acc)
            }
        } else if id == 0x02 {
            if end - pos < 5 {
                None
            } else {
                spec_publish_props(s, pos + 5, end, Some(be32(s, pos + 1) as u32))
            }
        } else if id == 0x23 {
            if end - pos < 3 {
                None
            } else {
                spec_publish_props(s, pos + 3, end, acc)
            }
        } else if id == 0x08 || id == 0x03 {
            match spec_string(s, pos + 1, end) {
                Some((_, q)) => spec_publish_props(s, q, end, acc),
                None => None,
            }
        } else if id == 0x09 {
            match spec_binary(s, pos + 1, end) {
                Some((_, q)) => spec_publish_props(s, q, end, acc),
                None => None,
            }
        } else if id == 0x26 {
            match spec_string(s, pos + 1, end) {
                Some((_, q)) => match spec_string(s, q, end) {
                    Some((_, q2)) => spec_publish_props(s, q2, end, acc),
                    None => None,
                },
                None => None,
            }
        } else if id == 0x0b {
            match spec_vbi_ok(s, pos + 1, end) {
                Some((_, k)) => spec_publish_props(s, pos + 1 + k, end, acc),
                None => None,
            }
        } else {
            None
        }
    }
}

/// Reason codes this broker reads and writes.
#[derive(Debug, Clone, Copy, PartialEq, Eq, Structural)]
pub enum Reason {
    Success,
    NoSubscriptionExisted,
    UnspecifiedError,
    ProtocolError,
    UnsupportedProtocolVersion,
    NotAuthorized,
    QoSNotSupported,
    WildcardSubscriptionsNotSupported,
}

impl Reason {
    /// The wire code of a reason.
    pub open spec fn spec_code(self) -> u8 {
        match self {
            Reason::Success => 0x00,
            Reason::NoSubscriptionExisted => 0x11,
            Reason::UnspecifiedError => 0x80,
            Reason::ProtocolError => 0x82,
            Reason::UnsupportedProtocolVersion => 0x84,
            Reason::NotAuthorized => 0x87,
            Reason::QoSNotSupported => 0x9b,
            Reason::WildcardSubscriptionsNotSupported => 0xa2,
        }
    }

    /// The reason whose wire code is `v`, if any.
    pub open spec fn spec_from_code(v: u8) -> Option<Reason> {
        if v == 0x00 {
            Some(Reason::Success)
        } else if v == 0x11 {
            Some(Reason::NoSubscriptionExisted)
        } else if v == 0x80 {
            Some(Reason::UnspecifiedError)
        } else if v == 0x82 {
            Some(Reason::ProtocolError)
        } else if v == 0x84 {
            Some(Reason::UnsupportedProtocolVersion)
        } else if v == 0x87 {
            Some(Reason::NotAuthorized)
        } else if v == 0x9b {
            Some(Reason::QoSNotSupported)
        } else if v == 0xa2 {
            Some(Reason::WildcardSubscriptionsNotSupported)
        } else {
            None
        }
    }

    pub fn code(self) -> (r: u8)
        ensures
            r == self.spec_code(),
    {
        match self {
            Reason::Success => 0x00,
            Reason::NoSubscriptionExisted => 0x11,
            Reason::UnspecifiedError => 0x80,
            Reason::ProtocolError => 0x82,
            Reason::UnsupportedProtocolVersion => 0x84,
            Reason::NotAuthorized => 0x87,
            Reason::QoSNotSupported => 0x9b,
            Reason::WildcardSubscriptionsNotSupported => 0xa2,
        }
    }

    /// The reason with wire code `v`, or `Err` for a code it does not know.
    pub fn try_from(v: u8) -> (r: Result<Reason, ()>)
        ensures
            match Reason::spec_from_code(v) {
                Some(x) => r == Ok::<Reason, ()>(x),
                None => r is Err,
            },
    {
        if v == 0x00 {
            Ok(Reason::Success)
        } else if v == 0x11 {
            Ok(Reason::NoSubscriptionExisted)
        } else if v == 0x80 {
            Ok(Reason::UnspecifiedError)
        } else if v == 0x82 {
            Ok(Reason::ProtocolError)
        } else if v == 0x84 {
            Ok(Reason::UnsupportedProtocolVersion)
        } else if v == 0x87 {
            Ok(Reason::NotAuthorized)
        } else if v == 0x9b {
            Ok(Reason::QoSNotSupported)
        } else if v == 0xa2 {
            Ok(Reason::WildcardSubscriptionsNotSupported)
        } else {
            Err(())
        }
    }
}

pub proof fn lemma_reason_code(r: Reason)
    ensures
        Reason::spec_from_code(r.spec_code()) == Some(r),
{
}

#[derive(Debug, Clone)]
pub struct Connect {
    pub version: u8,
    pub client_id: String,
    pub password: Option<String>,
}

#[derive(Debug, Clone, Copy)]
pub struct ConnAck {
    pub reason: Reason,
    pub maximum_packet_size: Option<u32>,
}

#[derive(Debug, Clone, Copy)]
pub struct ConnAckV4 {
    pub ret: u8,
}

#[derive(Debug, Clone, Copy)]
pub struct Disconnect {
    pub reason: Reason,
}

#[derive(Debug, Clone, Copy)]
pub struct PingReq;

#[derive(Debug, Clone, Copy)]
pub struct PingResp;

#[derive(Debug, Clone)]
pub struct Subscribe {
    pub id: u16,
    pub topic: String,
    pub maximum_qos: u8,
    pub no_local: bool,
    pub retain_as_published: bool,
    pub retain_handling: u8,
}

#[derive(Debug, Clone, Copy)]
pub struct SubAck {
    pub id: u16,
    pub reason: Reason,
}

#[derive(Debug, Clone)]
pub struct Unsubscribe {
    pub id: u16,
    pub topic: String,
}

#[derive(Debug, Clone, Copy)]
pub struct UnsubAck {
    pub id: u16,
    pub reason: Reason,
}

#[derive(Debug, Clone)]
pub struct Publish {
    pub topic: String,
    pub message: Vec<u8>,
    pub dup: bool,
    pub qos: u8,
    pub retain: bool,
    pub message_expiry_interval: Option<u32>,
}

#[derive(Debug, Clone)]
pub enum Packet {
    Connect(Connect),
    ConnAck(ConnAck),
    ConnAckV4(ConnAckV4),
    Disconnect(Disconnect),
    PingReq(PingReq),
    PingResp(PingResp),
    Subscribe(Subscribe),
    SubAck(SubAck),
    Unsubscribe(Unsubscribe),
    UnsubAck(UnsubAck),
    Publish(Publish),
    Unsupported(u8),
}

/// A packet as values: strings as characters, payloads as bytes.
pub enum PacketModel {
    Connect { version: u8, client_id: Seq<char>, password: Option<Seq<char>> },
    ConnAck { reason: Reason, maximum_packet_size: Option<u32> },
    ConnAckV4 { ret: u8 },
    Disconnect { reason: Reason },
    PingReq,
    PingResp,
    Subscribe {
        id: u16,
        topic: Seq<char>,
        maximum_qos: u8,
        no_local: bool,
        retain_as_published: bool,
        retain_handling: u8,
    },
    SubAck { id: u16, reason: Reason },
    Unsubscribe { id: u16, topic: Seq<char> },
    UnsubAck { id: u16, reason: Reason },
    Publish {
        topic: Seq<char>,
        message: Seq<u8>,
        dup: bool,
        qos: u8,
        retain: bool,
        message_expiry_interval: Option<u32>,
    },
    Unsupported { ptype: u8 },
}

pub open spec fn opt_view(o: Option<String>) -> Option<Seq<char>> {
    match o {
        Some(x) => Some(x@),
        None => None,
    }
}

impl View for Packet {
    type V = PacketModel;

    open spec fn view(&self) -> PacketModel {
        match self {
            Packet::Connect(p) => PacketModel::Connect {
                version: p.version,
                client_id: p.client_id@,
                password: opt_view(p.password),
            },
            Packet::ConnAck(p) => PacketModel::ConnAck {
                reason: p.reason,
                maximum_packet_size: p.maximum_packet_size,
            },
            Packet::ConnAckV4(p) => PacketModel::ConnAckV4 { ret: p.ret },
            Packet::Disconnect(p) => PacketModel::Disconnect { reason: p.reason },
            Packet::PingReq(_) => PacketModel::PingReq,
            Packet::PingResp(_) => PacketModel::PingResp,
            Packet::Subscribe(p) => PacketModel::Subscribe {
                id: p.id,
                topic: p.topic@,
                maximum_qos: p.maximum_qos,
                no_local: p.no_local,
                retain_as_published: p.retain_as_published,
                retain_handling: p.retain_handling,
            },
            Packet::SubAck(p) => PacketModel::SubAck { id: p.id, reason: p.reason },
            Packet::Unsubscribe(p) => PacketModel::Unsubscribe { id: p.id, topic: p.topic@ },
            Packet::UnsubAck(p) => PacketModel::UnsubAck { id: p.id, reason: p.reason },
            Packet::Publish(p) => PacketModel::Publish {
                topic: p.topic@,
                message: p.message@,
                dup: p.dup,
                qos: p.qos,
                retain: p.retain,
                message_expiry_interval: p.message_expiry_interval,
            },
            Packet::Unsupported(t) => PacketModel::Unsupported { ptype: *t },
        }
    }
}

/// The "MQTT" protocol name.
pub open spec fn mqtt_name() -> Seq<u8> {
    seq![0x4du8, 0x51u8, 0x54u8, 0x54u8]
}

/// Optional fields of a version 5 CONNECT after the client id at `pos`:
/// will, user name, then the password.
pub open spec fn spec_connect_tail(b: Seq<u8>, cflags: u8, pos: int) -> Option<Option<Seq<char>>> {
    let e = b.len() as int;
    let after_will = if cflags & 0x04 != 0 {
        match spec_skip_props(b, pos, e) {
            Some(q) => match spec_string(b, q, e) {
                Some((_, q2)) => match spec_binary(b, q2, e) {
                    Some((_, q3)) => Some(q3),
                    None => None,
                },
                None => None,
            },
            None => None,
        }
    } else {
        Some(pos)
    };
    match after_will {
        None => None,
        Some(q) => {
            let after_user = if cflags & 0x80 != 0 {
                match spec_string(b, q, e) {
                    Some((_, q2)) => Some(q2),
                    None => None,
                }
            } else {
                Some(q)
            };
            match after_user {
                None => None,
                Some(q2) => if cflags & 0x40 != 0 {
                    match spec_string(b, q2, e) {
                        Some((pw, _)) => Some(Some(pw)),
                        None => None,
                    }
                } else {
                    Some(None)
                },
            }
        },
    }
}

/// The body of a CONNECT. Another version than 5 gives a packet that holds
/// the version alone.
pub open spec fn spec_parse_connect(b: Seq<u8>) -> Option<PacketModel> {
    let e = b.len() as int;
    match spec_binary(b, 0, e) {
        None => None,
        Some((name, at1)) => if name != mqtt_name() || at1 >= e {
            None
        } else if b[at1] != 5 {
            Some(
                PacketModel::Connect { version: b[at1], client_id: Seq::empty(), password: None },
            )
        } else if at1 + 4 > e {
            None
        } else {
            let cflags = b[at1 + 1];
            match spec_skip_props(b, at1 + 4, e) {
                None => None,
                Some(at2) => match spec_string(b, at2, e) {
                    None => None,
                    Some((client_id, at3)) => match spec_connect_tail(b, cflags, at3) {
                        None => None,
                        Some(password) => Some(
                            PacketModel::Connect { version: 5, client_id, password },
                        ),
                    },
                },
            }
        },
    }
}

/// The body of a PUBLISH whose fixed header carried `flags`.
pub open spec fn spec_parse_publish(flags: u8, b: Seq<u8>) -> Option<PacketModel> {
    let e = b.len() as int;
    match spec_string(b, 0, e) {
        None => None,
        Some((topic, at1)) => match spec_vbi_ok(b, at1, e) {
            None => None,
            Some((n, k)) => if at1 + k + n > e {
                None
            } else {
                match spec_publish_props(b, at1 + k, at1 + k + n, None) {
                    None => None,
                    Some(expiry) => Some(
                        PacketModel::Publish {
                            topic,
                            message: b.subrange(at1 + k + n, e),
                            dup: flags & 0x08 > 0,
                            qos: (flags >> 1) & 0x03,
                            retain: flags & 0x01 > 0,
                            message_expiry_interval: expiry,
                        },
                    ),
                }
            },
        },
    }
}

/// The body of a SUBSCRIBE; its flags must be 2.
pub open spec fn spec_parse_subscribe(flags: u8, b: Seq<u8>) -> Option<PacketModel> {
    let e = b.len() as int;
    if flags != 0x02 || e < 2 {
        None
    } else {
        match spec_skip_props(b, 2, e) {
            None => None,
            Some(at1) => match spec_string(b, at1, e) {
                None => None,
                Some((topic, at2)) => if at2 >= e {
                    None
                } else {
                    let opts = b[at2];
                    Some(
                        PacketModel::Subscribe {
                            id: be16(b, 0) as u16,
                            topic,
                            maximum_qos: opts & 0x03,
                            no_local: opts & 0x04 != 0,
                            retain_as_published: opts & 0x08 != 0,
                            retain_handling: (opts >> 4) & 0x03,
                        },
                    )
                },
            },
        }
    }
}

/// The body of an UNSUBSCRIBE.
pub open spec fn spec_parse_unsubscribe(b: Seq<u8>) -> Option<PacketModel> {
    let e = b.len() as int;
    if e < 2 {
        None
    } else {
        match spec_skip_props(b, 2, e) {
            None => None,
            Some(at1) => match spec_string(b, at1, e) {
                None => None,
                Some((topic, _)) => Some(PacketModel::Unsubscribe { id: be16(b, 0) as u16, topic }),
            },
        }
    }
}

/// The body of a DISCONNECT: its reason byte, 0 when absent; a code this
/// broker does not know reads as an unspecified error.
pub open spec fn spec_parse_disconnect(b: Seq<u8>) -> PacketModel {
    let code: u8 = if b.len() > 0 {
        b[0]
    } else {
        0
    };
    PacketModel::Disconnect {
        reason: match Reason::spec_from_code(code) {
            Some(r) => r,
            None => Reason::UnspecifiedError,
        },
    }
}

/// The packet of type `ptype` with body `b`, or `None` when the body is
/// malformed. Types this broker does not read come back as `Unsupported`.
pub open spec fn spec_parse_body(ptype: u8, flags: u8, b: Seq<u8>) -> Option<PacketModel> {
    if ptype == 1 {
        spec_parse_connect(b)
    } else if ptype == 3 {
        spec_parse_publish(flags, b)
    } else if ptype == 8 {
        spec_parse_subscribe(flags, b)
    } else if ptype == 10 {
        spec_parse_unsubscribe(b)
    } else if ptype == 12 {
        Some(PacketModel::PingReq)
    } else if ptype == 14 {
        Some(spec_parse_disconnect(b))
    } else {
        Some(PacketModel::Unsupported { ptype })
    }
}

/// The first packet of `src`: `None` while it is incomplete, `Err` when it is
/// malformed, else the packet and its size in bytes.
#[verifier::opaque]
pub open spec fn spec_parse(src: Seq<u8>) -> Option<Result<(PacketModel, nat), ()>> {
    if src.len() < 2 {
        None
    } else {
        match spec_vbi(src, 1, src.len() as int) {
            None => None,
            Some(Err(())) => Some(Err(())),
            Some(Ok((len, n))) => if src.len() - 1 - n < len {
                None
            } else {
                let size = 1 + n + len;
                match spec_parse_body(
                    src[0] >> 4,
                    src[0] & 0x0f,
                    src.subrange(1 + n as int, size as int),
                ) {
                    None => Some(Err(())),
                    Some(p) => Some(Ok((p, size as nat))),
                }
            },
        }
    }
}

fn copy_range(src: &[u8], a: usize, b: usize) -> (r: Vec<u8>)
    requires
        a <= b <= src@.len(),
    ensures
        r@ == src@.subrange(a as int, b as int),
{
    vstd::slice::slice_to_vec(slice_subrange(src, a, b))
}

/// Reads a length-prefixed binary field at `src[pos..end]`; returns its
/// bytes and the position after it.
pub fn parse_binary(src: &[u8], pos: usize, end: usize) -> (r: Result<(Vec<u8>, usize), InvalidData>)
    requires
        pos <= end <= src@.len(),
    ensures
        match spec_binary(src@, pos as int, end as int) {
            None => r is Err,
            Some((b, q)) => r matches Ok((v, q2)) && v@ == b && q2 == q,
        },
{
    if end - pos < 2 {
        return Err(InvalidData);
    }
    let len = (src[pos] as usize) * 256 + (src[pos + 1] as usize);
    if end - pos - 2 < len {
        return Err(InvalidData);
    }
    let data = copy_range(src, pos + 2, pos + 2 + len);
    Ok((data, pos + 2 + len))
}

/// Reads a length-prefixed UTF-8 string at `src[pos..end]`.
pub fn parse_string(src: &[u8], pos: usize, end: usize) -> (r: Result<(String, usize), InvalidData>)
    requires
        pos <= end <= src@.len(),
    ensures
        match spec_string(src@, pos as int, end as int) {
            None => r is Err,
            Some((t, q)) => r matches Ok((v, q2)) && v@ == t && q2 == q,
        },
{
    let (data, next) = match parse_binary(src, pos, end) {
        Ok(x) => x,
        Err(e) => return Err(e),
    };
    match string_from_utf8(data) {
        Some(s) => Ok((s, next)),
        None => Err(InvalidData),
    }
}

fn parse_int_ok(src: &[u8], pos: usize, end: usize) -> (r: Option<(usize, usize)>)
    requires
        pos <= end <= src@.len(),
    ensures
        match spec_vbi_ok(src@, pos as int, end as int) {
            None => r is None,
            Some((v, n)) => r == Some((v as usize, n as usize)) && n <= 4 && v < 268435456,
        },
{
    match parse_int(src, pos, end) {
        Some(Ok((v, n))) => {
            proof {
                lemma_vbi_shape(src@, pos as int, end as int);
            }
            Some((v as usize, n))
        },
        _ => None,
    }
}

proof fn lemma_vbi_end_bound(s: Seq<u8>, start: int, end: int, k: nat)
    requires
        k <= 4,
    ensures
        vbi_end(s, start, end, k) matches Some(Ok(n)) ==> k < n <= 4 && start + n <= end,
    decreases 5 - k,
{
    if start + k < end && k < 4 && s[start + k] >= 128 {
        lemma_vbi_end_bound(s, start, end, k + 1);
    }
}

proof fn lemma_vbi_shape(s: Seq<u8>, start: int, end: int)
    ensures
        spec_vbi(s, start, end) matches Some(Ok((v, n))) ==> 1 <= n <= 4 && v < 268435456 && start
            + n <= end,
{
    lemma_vbi_end_bound(s, start, end, 0);
    if let Some(Ok((v, n))) = spec_vbi(s, start, end) {
        lemma_vbi_value_bound(s, start, n);
        lemma_weights();
        assert(weight(4) == 268435456);
        assert(weight(n) <= weight(4)) by {
            if n < 4 {
                assert(weight(n) <= 2097152);
            }
        }
    }
}

fn skip_props(src: &[u8], pos: usize, end: usize) -> (r: Option<usize>)
    requires
        pos <= end <= src@.len(),
    ensures
        match spec_skip_props(src@, pos as int, end as int) {
            None => r is None,
            Some(q) => r == Some(q as usize) && q <= end,
        },
{
    let (n, k) = match parse_int_ok(src, pos, end) {
        Some(x) => x,
        None => return None,
    };
    if end - pos < k || end - pos - k < n {
        return None;
    }
    Some(pos + k + n)
}

fn read_be32(src: &[u8], pos: usize) -> (r: u32)
    requires
        pos + 4 <= src@.len(),
    ensures
        r as nat == be32(src@, pos as int),
{
    (src[pos] as u32) * 16777216 + (src[pos + 1] as u32) * 65536 + (src[pos + 2] as u32) * 256 + (
    src[pos + 3] as u32)
}

fn parse_publish_props(src: &[u8], start: usize, end: usize) -> (r: Result<Option<u32>, InvalidData>)
    requires
        start <= end <= src@.len(),
    ensures
        match spec_publish_props(src@, start as int, end as int, None) {
            None => r is Err,
            Some(x) => r == Ok::<Option<u32>, InvalidData>(x),
        },
{
    let mut pos = start;
    let mut expiry: Option<u32> = None;
    while pos < end
        invariant
            start <= pos <= end <= src@.len(),
            spec_publish_props(src@, start as int, end as int, None) == spec_publish_props(
                src@,
                pos as int,
                end as int,
                expiry,
            ),
        decreases end - pos,
    {
        let id = src[pos];
        if id == 0x01 {
            if end - pos < 2 {
                return Err(InvalidData);
            }
            pos = pos + 2;
        } else if id == 0x02 {
            if end - pos < 5 {
                return Err(InvalidData);
            }
            expiry = Some(read_be32(src, pos + 1));
            pos = pos + 5;
        } else if id == 0x23 {
            if end - pos < 3 {
                return Err(InvalidData);
            }
            pos = pos + 3;
        } else if id == 0x08 || id == 0x03 {
            let (_, q) = parse_string(src, pos + 1, end)?;
            pos = q;
        } else if id == 0x09 {
            let (_, q) = parse_binary(src, pos + 1, end)?;
            pos = q;
        } else if id == 0x26 {
            let (_, q) = parse_string(src, pos + 1, end)?;
            let (_, q2) = parse_string(src, q, end)?;
            pos = q2;
        } else if id == 0x0b {
            let (_, k) = match parse_int_ok(src, pos + 1, end) {
                Some(x) => x,
                None => return Err(InvalidData),
            };
            pos = pos + 1 + k;
        } else {
            return Err(InvalidData);
        }
    }
    Ok(expiry)
}

fn parse_connect(b: &[u8]) -> (r: Option<Packet>)
    ensures
        match spec_parse_connect(b@) {
            None => r is None,
            Some(m) => r matches Some(p) && p@ == m,
        },
{
    let e = b.len();
    let (name, at1) = match parse_binary(b, 0, e) {
        Ok(x) => x,
        Err(_) => return None,
    };
    let is_mqtt = name.len() == 4 && name[0] == 0x4d && name[1] == 0x51 && name[2] == 0x54
        && name[3] == 0x54;
    assert(is_mqtt <==> name@ == mqtt_name()) by {
        if name@ == mqtt_name() {
            assert(name@[0] == 0x4d && name@[1] == 0x51 && name@[2] == 0x54 && name@[3] == 0x54);
        }
        if is_mqtt {
            assert(name@ =~= mqtt_name());
        }
    }
    if !is_mqtt || at1 >= e {
        return None;
    }
    let version = b[at1];
    if version != 5 {
        return Some(
            Packet::Connect(Connect { version, client_id: String::new(), password: None }),
        );
    }
    if e - at1 < 4 {
        return None;
    }
    let cflags = b[at1 + 1];
    let at2 = match skip_props(b, at1 + 4, e) {
        Some(q) => q,
        None => return None,
    };
    let (client_id, at3) = match parse_string(b, at2, e) {
        Ok(x) => x,
        Err(_) => return None,
    };
    let mut q = at3;
    if cflags & 0x04 != 0 {
        let q1 = match skip_props(b, q, e) {
            Some(x) => x,
            None => return None,
        };
        let (_, q2) = match parse_string(b, q1, e) {
            Ok(x) => x,
            Err(_) => return None,
        };
        let (_, q3) = match parse_binary(b, q2, e) {
            Ok(x) => x,
            Err(_) => return None,
        };
        q = q3;
    }
    if cflags & 0x80 != 0 {
        let (_, q2) = match parse_string(b, q, e) {
            Ok(x) => x,
            Err(_) => return None,
        };
        q = q2;
    }
    let mut password: Option<String> = None;
    if cflags & 0x40 != 0 {
        let (pw, _) = match parse_string(b, q, e) {
            Ok(x) => x,
            Err(_) => return None,
        };
        password = Some(pw);
    }
    Some(Packet::Connect(Connect { version, client_id, password }))
}

fn parse_publish(flags: u8, b: &[u8]) -> (r: Option<Packet>)
    ensures
        match spec_parse_publish(flags, b@) {
            None => r is None,
            Some(m) => r matches Some(p) && p@ == m,
        },
{
    let e = b.len();
    let retain = flags & 0x01 > 0;
    let qos = (flags >> 1) & 0x03;
    let dup = flags & 0x08 > 0;
    let (topic, at1) = match parse_string(b, 0, e) {
        Ok(x) => x,
        Err(_) => return None,
    };
    let (n, k) = match parse_int_ok(b, at1, e) {
        Some(x) => x,
        None => return None,
    };
    if e - at1 - k < n {
        return None;
    }
    let pend = at1 + k + n;
    let message_expiry_interval = match parse_publish_props(b, at1 + k, pend) {
        Ok(x) => x,
        Err(_) => return None,
    };
    let message = copy_range(b, pend, e);
    Some(Packet::Publish(Publish { topic, message, dup, qos, retain, message_expiry_interval }))
}

fn parse_subscribe(flags: u8, b: &[u8]) -> (r: Option<Packet>)
    ensures
        match spec_parse_subscribe(flags, b@) {
            None => r is None,
            Some(m) => r matches Some(p) && p@ == m,
        },
{
    let e = b.len();
    if flags != 0x02 || e < 2 {
        return None;
    }
    let id = (b[0] as u16) * 256 + (b[1] as u16);
    let at1 = match skip_props(b, 2, e) {
        Some(q) => q,
        None => return None,
    };
    let (topic, at2) = match parse_string(b, at1, e) {
        Ok(x) => x,
        Err(_) => return None,
    };
    if at2 >= e {
        return None;
    }
    let opts = b[at2];
    Some(
        Packet::Subscribe(
            Subscribe {
                id,
                topic,
                maximum_qos: opts & 0x03,
                no_local: opts & 0x04 != 0,
                retain_as_published: opts & 0x08 != 0,
                retain_handling: (opts >> 4) & 0x03,
            },
        ),
    )
}

fn parse_unsubscribe(b: &[u8]) -> (r: Option<Packet>)
    ensures
        match spec_parse_unsubscribe(b@) {
            None => r is None,
            Some(m) => r matches Some(p) && p@ == m,
        },
{
    let e = b.len();
    if e < 2 {
        return None;
    }
    let id = (b[0] as u16) * 256 + (b[1] as u16);
    let at1 = match skip_props(b, 2, e) {
        Some(q) => q,
        None => return None,
    };
    let (topic, _) = match parse_string(b, at1, e) {
        Ok(x) => x,
        Err(_) => return None,
    };
    Some(Packet::Unsubscribe(Unsubscribe { id, topic }))
}

fn parse_disconnect(b: &[u8]) -> (r: Packet)
    ensures
        r@ == spec_parse_disconnect(b@),
{
    let code: u8 = if b.len() > 0 {
        b[0]
    } else {
        0
    };
    let reason = match Reason::try_from(code) {
        Ok(r) => r,
        Err(_) => Reason::UnspecifiedError,
    };
    Packet::Disconnect(Disconnect { reason })
}

impl Packet {
    /// Parses the first packet of `src`. `None`: more bytes are needed;
    /// `Some(Err)`: the data is malformed; else the packet and how many bytes
    /// it took.
    pub fn parse(src: &[u8]) -> (r: Option<Result<(Packet, usize), InvalidData>>)
        ensures
            match spec_parse(src@) {
                None => r is None,
                Some(Err(())) => r matches Some(Err(_)),
                Some(Ok((m, n))) => r matches Some(Ok((p, k))) && p@ == m && k == n,
            },
            r matches Some(Ok((_, k))) ==> 2 <= k <= src@.len(),
    {
        reveal(spec_parse);
        if src.len() < 2 {
            return None;
        }
        let ptype = src[0] >> 4;
        let flags = src[0] & 0x0f;
        let (len, len_read) = match parse_int(src, 1, src.len()) {
            None => return None,
            Some(Err(e)) => return Some(Err(e)),
            Some(Ok(x)) => x,
        };
        proof {
            lemma_vbi_shape(src@, 1, src@.len() as int);
        }
        let len = len as usize;
        if src.len() - 1 - len_read < len {
            return None;
        }
        let packet_size = 1 + len_read + len;
        let body = slice_subrange(src, 1 + len_read, packet_size);
        let p = if ptype == 1 {
            parse_connect(body)
        } else if ptype == 3 {
            parse_publish(flags, body)
        } else if ptype == 8 {
            parse_subscribe(flags, body)
        } else if ptype == 10 {
            parse_unsubscribe(body)
        } else if ptype == 12 {
            Some(Packet::PingReq(PingReq))
        } else if ptype == 14 {
            Some(parse_disconnect(body))
        } else {
            Some(Packet::Unsupported(ptype))
        };
        match p {
            Some(p) => Some(Ok((p, packet_size))),
            None => Some(Err(InvalidData)),
        }
    }
}

/// Big-endian bytes of a 16-bit value.
pub open spec fn be16_bytes(v: u16) -> Seq<u8> {
    seq![(v / 256) as u8, (v % 256) as u8]
}

/// Big-endian bytes of a 32-bit value.
pub open spec fn be32_bytes(v: u32) -> Seq<u8> {
    seq![(v / 16777216) as u8, ((v / 65536) % 256) as u8, ((v / 256) % 256) as u8, (v % 256) as u8]
}

/// A packet: its first byte, the length of its body, then the body.
pub open spec fn frame(hdr: u8, body: Seq<u8>) -> Seq<u8> {
    seq![hdr] + vbi_encode(body.len()) + body
}

/// Properties of a CONNACK: no QoS above 0, retain available, the maximum
/// packet size when given, no wildcard and no shared subscriptions.
pub open spec fn connack_props(max: Option<u32>) -> Seq<u8> {
    seq![0x24u8, 0x00u8, 0x25u8, 0x01u8] + match max {
        Some(x) => seq![0x27u8] + be32_bytes(x),
        None => Seq::empty(),
    } + seq![0x28u8, 0x00u8, 0x2au8, 0x00u8]
}

/// Properties of a PUBLISH: the message expiry interval when given.
pub open spec fn publish_props(expiry: Option<u32>) -> Seq<u8> {
    match expiry {
        Some(x) => seq![0x02u8] + be32_bytes(x),
        None => Seq::empty(),
    }
}

/// The flag bits of a PUBLISH.
pub open spec fn publish_flags(retain: bool, qos: u8, dup: bool) -> u8 {
    ((if retain {
        1int
    } else {
        0int
    }) + (qos % 4) * 2 + (if dup {
        8int
    } else {
        0int
    })) as u8
}

/// The body of a PUBLISH.
pub open spec fn publish_body(topic: Seq<char>, message: Seq<u8>, expiry: Option<u32>) -> Seq<u8> {
    let t = encode_utf8(topic);
    be16_bytes(t.len() as u16) + t + vbi_encode(publish_props(expiry).len()) + publish_props(
        expiry,
    ) + message
}

/// The packets the broker writes, within the sizes the wire format allows.
pub open spec fn spec_serializable(m: PacketModel) -> bool {
    match m {
        PacketModel::ConnAck { .. } => true,
        PacketModel::ConnAckV4 { .. } => true,
        PacketModel::PingResp => true,
        PacketModel::SubAck { .. } => true,
        PacketModel::UnsubAck { .. } => true,
        PacketModel::Disconnect { .. } => true,
        PacketModel::Publish { topic, message, message_expiry_interval, .. } => encode_utf8(
            topic,
        ).len() <= 65535 && publish_body(topic, message, message_expiry_interval).len()
            < 268435456,
        _ => false,
    }
}

/// The bytes of a packet the broker writes.
pub open spec fn spec_serialize(m: PacketModel) -> Seq<u8> {
    match m {
        PacketModel::ConnAck { reason, maximum_packet_size } => frame(
            0x20,
            seq![0x00u8, reason.spec_code()] + vbi_encode(connack_props(maximum_packet_size).len())
                + connack_props(maximum_packet_size),
        ),
        PacketModel::ConnAckV4 { ret } => frame(0x20, seq![0x00u8, ret]),
        PacketModel::PingResp => frame(0xd0, Seq::empty()),
        PacketModel::SubAck { id, reason } => frame(
            0x90,
            be16_bytes(id) + seq![0x00u8, reason.spec_code()],
        ),
        PacketModel::UnsubAck { id, reason } => frame(
            0xb0,
            be16_bytes(id) + seq![0x00u8, reason.spec_code()],
        ),
        PacketModel::Publish { topic, message, dup, qos, retain, message_expiry_interval } => frame(
            (0x30 + publish_flags(retain, qos, dup)) as u8,
            publish_body(topic, message, message_expiry_interval),
        ),
        PacketModel::Disconnect { reason } => frame(0xe0, seq![reason.spec_code()]),
        _ => Seq::empty(),
    }
}

fn append_bytes(dest: &mut Vec<u8>, b: &[u8])
    ensures
        final(dest)@ == old(dest)@ + b@,
{
    let mut i: usize = 0;
    while i < b.len()
        invariant
            i <= b@.len(),
            dest@ == old(dest)@ + b@.subrange(0, i as int),
        decreases b@.len() - i,
    {
        dest.push(b[i]);
        i = i + 1;
        assert(dest@ =~= old(dest)@ + b@.subrange(0, i as int));
    }
    assert(b@.subrange(0, i as int) =~= b@);
}

fn push_be16(dest: &mut Vec<u8>, v: u16)
    ensures
        final(dest)@ == old(dest)@ + be16_bytes(v),
{
    dest.push((v / 256) as u8);
    dest.push((v % 256) as u8);
    assert(dest@ =~= old(dest)@ + be16_bytes(v));
}

fn push_be32(dest: &mut Vec<u8>, v: u32)
    ensures
        final(dest)@ == old(dest)@ + be32_bytes(v),
{
    dest.push((v / 16777216) as u8);
    dest.push(((v / 65536) % 256) as u8);
    dest.push(((v / 256) % 256) as u8);
    dest.push((v % 256) as u8);
    assert(dest@ =~= old(dest)@ + be32_bytes(v));
}

fn push_frame(dest: &mut Vec<u8>, hdr: u8, body: &Vec<u8>)
    requires
        body@.len() < 268435456,
    ensures
        final(dest)@ == old(dest)@ + frame(hdr, body@),
{
    dest.push(hdr);
    write_int(dest, body.len() as u32);
    append_bytes(dest, body.as_slice());
    assert(dest@ =~= old(dest)@ + frame(hdr, body@));
}

fn push_ack(id: u16, reason: Reason) -> (r: Vec<u8>)
    ensures
        r@ == be16_bytes(id) + seq![0x00u8, reason.spec_code()],
{
    let mut body: Vec<u8> = Vec::new();
    push_be16(&mut body, id);
    body.push(0x00);
    body.push(reason.code());
    assert(body@ =~= be16_bytes(id) + seq![0x00u8, reason.spec_code()]);
    body
}

impl Packet {
    /// Whether `serialize` takes this packet: one of the kinds the broker
    /// writes, with a topic and a size the wire format can carry.
    pub fn can_serialize(&self) -> (r: bool)
        ensures
            r == spec_serializable(self@),
    {
        match self {
            Packet::Publish(p) => {
                let tlen = p.topic.as_str().as_bytes().len();
                let plen: usize = match p.message_expiry_interval {
                    Some(_) => 5,
                    None => 0,
                };
                let ghost t = encode_utf8(p.topic@);
                assert(publish_props(p.message_expiry_interval).len() == plen);
                assert(vbi_encode(plen as nat).len() == 1);
                tlen <= 65535 && p.message.len() < 268435456 - 3 - tlen - plen
            },
            Packet::ConnAck(_) => true,
            Packet::ConnAckV4(_) => true,
            Packet::PingResp(_) => true,
            Packet::SubAck(_) => true,
            Packet::UnsubAck(_) => true,
            Packet::Disconnect(_) => true,
            _ => false,
        }
    }

    /// Appends the bytes of this packet to `dest`.
    pub fn serialize(&self, dest: &mut Vec<u8>)
        requires
            spec_serializable(self@),
        ensures
            final(dest)@ == old(dest)@ + spec_serialize(self@),
    {
        match self {
            Packet::ConnAck(p) => {
                let mut props: Vec<u8> = Vec::new();
                props.push(0x24);
                props.push(0x00);
                props.push(0x25);
                props.push(0x01);
                let ghost mid = props@;
                if let Some(x) = p.maximum_packet_size {
                    props.push(0x27);
                    push_be32(&mut props, x);
                }
                let ghost mid2 = props@;
                props.push(0x28);
                props.push(0x00);
                props.push(0x2a);
                props.push(0x00);
                assert(props@ =~= connack_props(p.maximum_packet_size));
                let mut body: Vec<u8> = Vec::new();
                body.push(0x00);
                body.push(p.reason.code());
                write_int(&mut body, props.len() as u32);
                append_bytes(&mut body, props.as_slice());
                assert(body@ =~= seq![0x00u8, p.reason.spec_code()] + vbi_encode(
                    connack_props(p.maximum_packet_size).len(),
                ) + connack_props(p.maximum_packet_size));
                push_frame(dest, 0x20, &body);
            },
            Packet::ConnAckV4(p) => {
                let mut body: Vec<u8> = Vec::new();
                body.push(0x00);
                body.push(p.ret);
                assert(body@ =~= seq![0x00u8, p.ret]);
                push_frame(dest, 0x20, &body);
            },
            Packet::PingResp(_) => {
                let body: Vec<u8> = Vec::new();
                assert(body@ =~= Seq::<u8>::empty());
                push_frame(dest, 0xd0, &body);
            },
            Packet::SubAck(p) => {
                let body = push_ack(p.id, p.reason);
                push_frame(dest, 0x90, &body);
            },
            Packet::UnsubAck(p) => {
                let body = push_ack(p.id, p.reason);
                push_frame(dest, 0xb0, &body);
            },
            Packet::Publish(p) => {
                let mut props: Vec<u8> = Vec::new();
                if let Some(x) = p.message_expiry_interval {
                    props.push(0x02);
                    push_be32(&mut props, x);
                }
                assert(props@ =~= publish_props(p.message_expiry_interval));
                let tb = p.topic.as_str().as_bytes();
                let mut body: Vec<u8> = Vec::new();
                push_be16(&mut body, tb.len() as u16);
                append_bytes(&mut body, tb);
                write_int(&mut body, props.len() as u32);
                append_bytes(&mut body, props.as_slice());
                append_bytes(&mut body, p.message.as_slice());
                assert(body@ =~= publish_body(p.topic@, p.message@, p.message_expiry_interval));
                let mut flags: u8 = 0;
                if p.retain {
                    flags = flags + 1;
                }
                flags = flags + (p.qos % 4) * 2;
                if p.dup {
                    flags = flags + 8;
                }
                push_frame(dest, 0x30 + flags, &body);
            },
            Packet::Disconnect(p) => {
                let mut body: Vec<u8> = Vec::new();
                body.push(p.reason.code());
                assert(body@ =~= seq![p.reason.spec_code()]);
                push_frame(dest, 0xe0, &body);
            },
            _ => {},
        }
    }
}

proof fn lemma_vbi_value_unfold(s: Seq<u8>, start: int)
    ensures
        vbi_value(s, start, 1) == low7(s[start]),
        vbi_value(s, start, 2) == low7(s[start]) + low7(s[start + 1]) * 128,
        vbi_value(s, start, 3) == vbi_value(s, start, 2) + low7(s[start + 2]) * 16384,
        vbi_value(s, start, 4) == vbi_value(s, start, 3) + low7(s[start + 3]) * 2097152,
{
    lemma_weights();
    assert(vbi_value(s, start, 0) == 0);
    assert(vbi_value(s, start, 1) == vbi_value(s, start, 0) + low7(s[start]) * weight(0));
    assert(vbi_value(s, start, 2) == vbi_value(s, start, 1) + low7(s[start + 1]) * weight(1));
    assert(vbi_value(s, start, 3) == vbi_value(s, start, 2) + low7(s[start + 2]) * weight(2));
    assert(vbi_value(s, start, 4) == vbi_value(s, start, 3) + low7(s[start + 3]) * weight(3));
}

proof fn lemma_vbi_roundtrip(v: u32, s: Seq<u8>, start: int, end: int)
    requires
        v < 268435456,
        0 <= start,
        start + vbi_encode(v as nat).len() <= end <= s.len(),
        s.subrange(start, start + vbi_encode(v as nat).len()) == vbi_encode(v as nat),
    ensures
        1 <= vbi_encode(v as nat).len() <= 4,
        spec_vbi(s, start, end) == Some(Ok::<(nat, nat), ()>((v as nat, vbi_encode(v as nat).len()))),
{
    let e = vbi_encode(v as nat);
    let n = v as nat;
    lemma_weights();
    let b0 = n % 128;
    let b1 = (n / 128) % 128;
    let b2 = (n / 16384) % 128;
    let b3 = n / 2097152;
    assert(v % 128 + 128 * ((v / 128) % 128) + 16384 * ((v / 16384) % 128) + 2097152 * (v
        / 2097152) == v) by (bit_vector)
        requires
            v < 268435456,
    ;
    assert(b0 + 128 * b1 + 16384 * b2 + 2097152 * b3 == n);
    assert(n / 128 / 128 == n / 16384);
    assert(n / 16384 / 128 == n / 2097152);
    assert(s[start] == e[0]);
    lemma_vbi_value_unfold(s, start);
    if n < 128 {
        assert(e =~= seq![n as u8]);
        assert(low7(s[start]) == n);
        assert(vbi_end(s, start, end, 0) == Some(Ok::<nat, ()>(1)));
    } else if n < 16384 {
        assert(vbi_encode(n / 128) =~= seq![(n / 128) as u8]);
        assert(e =~= seq![(n % 128 + 128) as u8, (n / 128) as u8]);
        assert(s[start + 1] == e[1]);
        assert(low7(s[start]) == b0);
        assert(low7(s[start + 1]) == b1);
        assert(b2 == 0 && b3 == 0);
        assert(vbi_end(s, start, end, 1) == Some(Ok::<nat, ()>(2)));
        assert(vbi_end(s, start, end, 0) == Some(Ok::<nat, ()>(2)));
    } else if n < 2097152 {
        assert(vbi_encode(n / 16384) =~= seq![(n / 16384) as u8]);
        assert(vbi_encode(n / 128) =~= seq![((n / 128) % 128 + 128) as u8, (n / 16384) as u8]);
        assert(e =~= seq![(n % 128 + 128) as u8, ((n / 128) % 128 + 128) as u8, (n / 16384) as u8]);
        assert(s[start + 1] == e[1]);
        assert(s[start + 2] == e[2]);
        assert(low7(s[start]) == b0);
        assert(low7(s[start + 1]) == b1);
        assert(low7(s[start + 2]) == b2);
        assert(b3 == 0);
        assert(vbi_end(s, start, end, 2) == Some(Ok::<nat, ()>(3)));
        assert(vbi_end(s, start, end, 1) == Some(Ok::<nat, ()>(3)));
        assert(vbi_end(s, start, end, 0) == Some(Ok::<nat, ()>(3)));
    } else {
        assert(vbi_encode(n / 2097152) =~= seq![(n / 2097152) as u8]);
        assert(vbi_encode(n / 16384) =~= seq![((n / 16384) % 128 + 128) as u8, (n / 2097152) as u8]);
        assert(vbi_encode(n / 128) =~= seq![
            ((n / 128) % 128 + 128) as u8,
            ((n / 16384) % 128 + 128) as u8,
            (n / 2097152) as u8,
        ]);
        assert(e =~= seq![
            (n % 128 + 128) as u8,
            ((n / 128) % 128 + 128) as u8,
            ((n / 16384) % 128 + 128) as u8,
            (n / 2097152) as u8,
        ]);
        assert(s[start + 1] == e[1]);
        assert(s[start + 2] == e[2]);
        assert(s[start + 3] == e[3]);
        assert(low7(s[start]) == b0);
        assert(low7(s[start + 1]) == b1);
        assert(low7(s[start + 2]) == b2);
        assert(low7(s[start + 3]) == b3);
        assert(vbi_end(s, start, end, 3) == Some(Ok::<nat, ()>(4)));
        assert(vbi_end(s, start, end, 2) == Some(Ok::<nat, ()>(4)));
        assert(vbi_end(s, start, end, 1) == Some(Ok::<nat, ()>(4)));
        assert(vbi_end(s, start, end, 0) == Some(Ok::<nat, ()>(4)));
    }
}

/// A PUBLISH the broker writes is under 2^28 + 5 bytes.
pub proof fn lemma_publish_size(m: PacketModel)
    requires
        spec_serializable(m),
        m is Publish,
    ensures
        spec_serialize(m).len() < 0x1000_0005,
{
    if let PacketModel::Publish { topic, message, dup, qos, retain, message_expiry_interval } = m {
        let b = publish_body(topic, message, message_expiry_interval);
        let e = vbi_encode(b.len());
        assert(e.subrange(0, e.len() as int) =~= e);
        lemma_vbi_roundtrip(b.len() as u32, e, 0, e.len() as int);
    }
}

proof fn lemma_frame(hdr: u8, body: Seq<u8>)
    requires
        body.len() < 268435456,
    ensures
        spec_parse(frame(hdr, body)) == match spec_parse_body(hdr >> 4, hdr & 0x0f, body) {
            None => Some(Err(())),
            Some(p) => Some(Ok::<(PacketModel, nat), ()>((p, frame(hdr, body).len()))),
        },
{
    reveal(spec_parse);
    let src = frame(hdr, body);
    let l = body.len() as u32;
    let e = vbi_encode(l as nat);
    assert(src.subrange(1, 1 + e.len() as int) =~= e);
    lemma_vbi_roundtrip(l, src, 1, src.len() as int);
    assert(src.subrange(1 + e.len() as int, src.len() as int) =~= body);
}

proof fn lemma_be16(v: u16, s: Seq<u8>, pos: int)
    requires
        0 <= pos,
        pos + 2 <= s.len(),
        s.subrange(pos, pos + 2) == be16_bytes(v),
    ensures
        be16(s, pos) == v,
{
    assert(s[pos] == be16_bytes(v)[0]);
    assert(s[pos + 1] == be16_bytes(v)[1]);
}

proof fn lemma_be32(v: u32, s: Seq<u8>, pos: int)
    requires
        0 <= pos,
        pos + 4 <= s.len(),
        s.subrange(pos, pos + 4) == be32_bytes(v),
    ensures
        be32(s, pos) == v,
{
    assert(s[pos] == be32_bytes(v)[0]);
    assert(s[pos + 1] == be32_bytes(v)[1]);
    assert(s[pos + 2] == be32_bytes(v)[2]);
    assert(s[pos + 3] == be32_bytes(v)[3]);
    assert((v / 16777216) * 16777216 + ((v / 65536) % 256) * 65536 + ((v / 256) % 256) * 256 + (v
        % 256) == v) by (bit_vector);
}

proof fn lemma_publish_flags(retain: bool, qos: u8, dup: bool)
    ensures
        ((0x30 + publish_flags(retain, qos, dup)) as u8) >> 4 == 3,
        ((((0x30 + publish_flags(retain, qos, dup)) as u8) & 0x0f) & 0x08 > 0) == dup,
        ((((0x30 + publish_flags(retain, qos, dup)) as u8) & 0x0f) & 0x01 > 0) == retain,
        ((((0x30 + publish_flags(retain, qos, dup)) as u8) & 0x0f) >> 1) & 0x03 == qos % 4,
{
    let r: u8 = if retain {
        1
    } else {
        0
    };
    let d: u8 = if dup {
        8
    } else {
        0
    };
    let q: u8 = qos % 4;
    let h: u8 = (0x30 + r + q * 2 + d) as u8;
    assert(h == (0x30 + publish_flags(retain, qos, dup)) as u8);
    assert(h >> 4 == 3 && (((h & 0x0f) & 0x08 > 0) == (d == 8)) && (((h & 0x0f) & 0x01 > 0) == (r
        == 1)) && ((h & 0x0f) >> 1) & 0x03 == q) by (bit_vector)
        requires
            r == 0 || r == 1,
            d == 0 || d == 8,
            q < 4,
            h == 0x30 + r + q * 2 + d,
    ;
}

/// What the decoder gives back of a packet that the broker writes: a PUBLISH
/// and a DISCONNECT whole (a PUBLISH's QoS as the two bits the wire holds);
/// of the acknowledgements, which it does not read, the packet type.
pub open spec fn decoded_form(m: PacketModel) -> PacketModel {
    match m {
        PacketModel::Publish { topic, message, dup, qos, retain, message_expiry_interval } =>
            PacketModel::Publish {
            topic,
            message,
            dup,
            qos: qos % 4,
            retain,
            message_expiry_interval,
        },
        PacketModel::ConnAck { .. } => PacketModel::Unsupported { ptype: 2 },
        PacketModel::ConnAckV4 { .. } => PacketModel::Unsupported { ptype: 2 },
        PacketModel::PingResp => PacketModel::Unsupported { ptype: 13 },
        PacketModel::SubAck { .. } => PacketModel::Unsupported { ptype: 9 },
        PacketModel::UnsubAck { .. } => PacketModel::Unsupported { ptype: 11 },
        _ => m,
    }
}

proof fn lemma_unread_frame(hdr: u8, body: Seq<u8>, ptype: u8)
    requires
        body.len() < 268435456,
        hdr >> 4 == ptype,
        ptype == 2 || ptype == 9 || ptype == 11 || ptype == 13,
    ensures
        spec_parse(frame(hdr, body)) == Some(
            Ok::<(PacketModel, nat), ()>((PacketModel::Unsupported { ptype }, frame(hdr, body).len())),
        ),
{
    lemma_frame(hdr, body);
}

proof fn lemma_publish_frame(
    topic: Seq<char>,
    message: Seq<u8>,
    dup: bool,
    qos: u8,
    retain: bool,
    expiry: Option<u32>,
)
    requires
        spec_serializable(
            PacketModel::Publish { topic, message, dup, qos, retain, message_expiry_interval: expiry },
        ),
    ensures
        ({
            let m = PacketModel::Publish {
                topic,
                message,
                dup,
                qos,
                retain,
                message_expiry_interval: expiry,
            };
            spec_parse(spec_serialize(m)) == Some(
                Ok::<(PacketModel, nat), ()>((decoded_form(m), spec_serialize(m).len())),
            )
        }),
{
    let hdr = (0x30 + publish_flags(retain, qos, dup)) as u8;
    let b = publish_body(topic, message, expiry);
    lemma_frame(hdr, b);
    lemma_publish_flags(retain, qos, dup);
    lemma_publish_body(topic, message, expiry, hdr & 0x0f);
}

proof fn lemma_disconnect_frame(reason: Reason)
    ensures
        spec_parse(frame(0xe0, seq![reason.spec_code()])) == Some(
            Ok::<(PacketModel, nat), ()>(
                (PacketModel::Disconnect { reason }, frame(0xe0, seq![reason.spec_code()]).len()),
            ),
        ),
{
    lemma_frame(0xe0, seq![reason.spec_code()]);
    assert((0xe0u8 >> 4u8) == 14u8) by (bit_vector);
    lemma_reason_code(reason);
}

/// Parsing what `serialize` writes takes the whole packet and gives back
/// every field the decoder reads.
pub proof fn lemma_serialize_parse(m: PacketModel)
    requires
        spec_serializable(m),
    ensures
        spec_parse(spec_serialize(m)) == Some(
            Ok::<(PacketModel, nat), ()>((decoded_form(m), spec_serialize(m).len())),
        ),
{
    match m {
        PacketModel::ConnAck { reason, maximum_packet_size } => {
            let props = connack_props(maximum_packet_size);
            assert(props.len() <= 13);
            let body = seq![0x00u8, reason.spec_code()] + vbi_encode(props.len()) + props;
            assert(vbi_encode(props.len()).len() == 1);
            assert((0x20u8 >> 4u8) == 2u8) by (bit_vector);
            lemma_unread_frame(0x20, body, 2);
        },
        PacketModel::ConnAckV4 { ret } => {
            assert((0x20u8 >> 4u8) == 2u8) by (bit_vector);
            lemma_unread_frame(0x20, seq![0x00u8, ret], 2);
        },
        PacketModel::PingResp => {
            assert((0xd0u8 >> 4u8) == 13u8) by (bit_vector);
            lemma_unread_frame(0xd0, Seq::empty(), 13);
        },
        PacketModel::SubAck { id, reason } => {
            assert((0x90u8 >> 4u8) == 9u8) by (bit_vector);
            lemma_unread_frame(0x90, be16_bytes(id) + seq![0x00u8, reason.spec_code()], 9);
        },
        PacketModel::UnsubAck { id, reason } => {
            assert((0xb0u8 >> 4u8) == 11u8) by (bit_vector);
            lemma_unread_frame(0xb0, be16_bytes(id) + seq![0x00u8, reason.spec_code()], 11);
        },
        PacketModel::Disconnect { reason } => {
            lemma_disconnect_frame(reason);
        },
        PacketModel::Publish { topic, message, dup, qos, retain, message_expiry_interval } => {
            lemma_publish_frame(topic, message, dup, qos, retain, message_expiry_interval);
        },
        _ => {},
    }
}

#[verifier::rlimit(60)]
proof fn lemma_publish_body(topic: Seq<char>, message: Seq<u8>, expiry: Option<u32>, flags: u8)
    requires
        encode_utf8(topic).len() <= 65535,
    ensures
        spec_parse_publish(flags, publish_body(topic, message, expiry)) == Some(
            PacketModel::Publish {
                topic,
                message,
                dup: flags & 0x08 > 0,
                qos: (flags >> 1) & 0x03,
                retain: flags & 0x01 > 0,
                message_expiry_interval: expiry,
            },
        ),
{
    let t = encode_utf8(topic);
    let props = publish_props(expiry);
    let b = publish_body(topic, message, expiry);
    let e = b.len() as int;
    let tl = t.len() as int;
    let pl = props.len() as int;
    assert(b.subrange(0, 2) =~= be16_bytes(tl as u16));
    lemma_be16(tl as u16, b, 0);
    assert(b.subrange(2, 2 + tl) =~= t);
    vstd::utf8::encode_utf8_valid_utf8(topic);
    vstd::utf8::encode_utf8_decode_utf8(topic);
    assert(spec_string(b, 0, e) == Some((topic, 2 + tl)));
    assert(vbi_encode(pl as nat) =~= seq![pl as u8]);
    assert(b.subrange(2 + tl, 3 + tl) =~= vbi_encode(pl as nat));
    lemma_vbi_roundtrip(pl as u32, b, 2 + tl, e);
    assert(spec_vbi_ok(b, 2 + tl, e) == Some((pl as nat, 1nat)));
    let ps = 3 + tl;
    match expiry {
        Some(x) => {
            assert(b[ps] == 0x02);
            assert(b.subrange(ps + 1, ps + 5) =~= be32_bytes(x));
            lemma_be32(x, b, ps + 1);
            assert(spec_publish_props(b, ps + 5, ps + 5, Some(x)) == Some(Some(x)));
        },
        None => {},
    }
    assert(spec_publish_props(b, ps, ps + pl, None) == Some(expiry));
    assert(b.subrange(ps + pl, e) =~= message);
}

} // verus!
