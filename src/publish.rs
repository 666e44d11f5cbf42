//! Publish fan-out: one item per message, carrying an SSE frame and a
//! websocket frame, handed to the outside publish client.

use vstd::prelude::*;
use crate::storage::RetainedVersion;
use crate::version::{Version, id_bytes};
use crate::text::{ascii_chars, push_char, string_from_utf8};
use crate::mqttpacket::{Packet, Publish, PacketModel, spec_serializable, spec_serialize};
use vstd::utf8::{decode_utf8, valid_utf8};
use base64::Engine;
use crate::events::{json_quote, json_quoted};

verus! {

/// The largest payload accepted: a packet's worth less 256 bytes of
/// protocol overhead.
pub const MESSAGE_SIZE_MAX: usize = 32512;

/// Where a durable message stands in its topic's sequence: its own id and the
/// id of the message before it (`none` for the first).
pub struct Sequencing {
    pub id: String,
    pub prev_id: String,
}

/// The id of the version before `v` in its generation, or `none` for the
/// first one.
pub open spec fn prev_id_chars(v: RetainedVersion) -> Seq<char> {
    if v.seq > 1 {
        ascii_chars(id_bytes(v.generation, (v.seq - 1) as u64))
    } else {
        seq!['n', 'o', 'n', 'e']
    }
}

/// The sequencing of a message written at version `v`.
pub fn sequencing_for(v: RetainedVersion) -> (r: Sequencing)
    ensures
        r.id@ == ascii_chars(id_bytes(v.generation, v.seq)),
        r.prev_id@ == prev_id_chars(v),
{
    let id = Version { generation: v.generation, seq: v.seq }.as_id();
    let prev_id = if v.seq > 1 {
        // a write at sequence 2 or later found the slot there, so the write
        // before it was of the same generation
        Version { generation: v.generation, seq: v.seq - 1 }.as_id()
    } else {
        let s = String::from_str("none");
        proof {
            reveal_strlit("none");
        }
        assert(s@ =~= seq!['n', 'o', 'n', 'e']);
        s
    };
    Sequencing { id, prev_id }
}

/// A message to hand to the publish client.
pub struct PublishRequest {
    pub topic: String,
    pub message: Vec<u8>,
    pub sequencing: Option<Sequencing>,
    pub sender: Option<String>,
}


/// The standard base64 alphabet.
pub open spec fn b64_alphabet() -> Seq<char> {
    seq![
        'A', 'B', 'C', 'D', 'E', 'F', 'G', 'H', 'I', 'J', 'K', 'L', 'M', 'N', 'O', 'P', 'Q', 'R',
        'S', 'T', 'U', 'V', 'W', 'X', 'Y', 'Z', 'a', 'b', 'c', 'd', 'e', 'f', 'g', 'h', 'i', 'j',
        'k', 'l', 'm', 'n', 'o', 'p', 'q', 'r', 's', 't', 'u', 'v', 'w', 'x', 'y', 'z', '0', '1',
        '2', '3', '4', '5', '6', '7', '8', '9', '+', '/',
    ]
}

pub open spec fn b64(v: int) -> char {
    b64_alphabet()[v]
}

/// The standard base64 encoding, with padding: four characters for each
/// three bytes, the last group padded with `=`.
pub open spec fn base64_of(b: Seq<u8>) -> Seq<char>
    decreases b.len(),
{
    if b.len() == 0 {
        Seq::empty()
    } else {
        let x = b[0] as int;
        let y = if b.len() > 1 {
            b[1] as int
        } else {
            0
        };
        let z = if b.len() > 2 {
            b[2] as int
        } else {
            0
        };
        if b.len() == 1 {
            seq![b64(x / 4), b64((x % 4) * 16), '=', '=']
        } else if b.len() == 2 {
            seq![b64(x / 4), b64((x % 4) * 16 + y / 16), b64((y % 16) * 4), '=']
        } else {
            seq![b64(x / 4), b64((x % 4) * 16 + y / 16), b64((y % 16) * 4 + z / 64), b64(z % 64)]
                + base64_of(b.subrange(3, b.len() as int))
        }
    }
}

/// Relies on `base64`'s `BASE64_STANDARD.encode`: the standard alphabet
/// with padding, as `base64_of` states it. It panics only when the output
/// length overflows, which the bound rules out.
#[verifier::external_body]
pub(crate) fn base64_encode(b: &[u8]) -> (r: String)
    requires
        b@.len() <= 0x3fff_ffff,
    ensures
        r@ == base64_of(b@),
        r@.len() == 4 * ((b@.len() + 2) / 3),
{
    base64::prelude::BASE64_STANDARD.encode(b)
}

/// The largest payload that is written as base64.
pub const BASE64_INPUT_MAX: usize = 0x3fff_ffff;

/// Text lines as SSE data: each line break starts a new `data: ` line.
pub open spec fn data_lines(text: Seq<char>) -> Seq<char>
    decreases text.len(),
{
    if text.len() == 0 {
        Seq::empty()
    } else {
        data_lines(text.drop_last()) + if text.last() == '\n' {
            seq!['\n', 'd', 'a', 't', 'a', ':', ' ']
        } else {
            seq![text.last()]
        }
    }
}

pub open spec fn event_message_chars() -> Seq<char> {
    seq!['e', 'v', 'e', 'n', 't', ':', ' ', 'm', 'e', 's', 's', 'a', 'g', 'e', '\n']
}

pub open spec fn event_message_base64_chars() -> Seq<char> {
    seq![
        'e', 'v', 'e', 'n', 't', ':', ' ', 'm', 'e', 's', 's', 'a', 'g', 'e', '-', 'b', 'a', 's',
        'e', '6', '4', '\n',
    ]
}

pub open spec fn data_prefix_chars() -> Seq<char> {
    seq!['d', 'a', 't', 'a', ':', ' ']
}

pub open spec fn id_line_chars(id: Seq<char>) -> Seq<char> {
    seq!['i', 'd', ':', ' '] + id + seq!['\n']
}

/// An SSE event carrying a message, with an `id:` line when given: as
/// `message` with a `data:` line per line of text when the payload is UTF-8,
/// else as `message-base64` with the payload in base64.
pub open spec fn sse_event(message: Seq<u8>, id: Option<Seq<char>>) -> Seq<char> {
    let id_line = match id {
        Some(i) => id_line_chars(i),
        None => Seq::empty(),
    };
    if valid_utf8(message) {
        event_message_chars() + id_line + data_prefix_chars() + data_lines(decode_utf8(message))
            + seq!['\n', '\n']
    } else {
        event_message_base64_chars() + id_line + data_prefix_chars() + base64_of(message) + seq![
            '\n',
            '\n',
        ]
    }
}

fn append_str(dest: &mut String, s: &str)
    ensures
        final(dest)@ == old(dest)@ + s@,
{
    dest.append(s);
}

/// Builds `sse_event`.
pub fn sse_event_text(message: &[u8], id: Option<&str>) -> (r: String)
    requires
        message@.len() <= BASE64_INPUT_MAX,
    ensures
        r@ == sse_event(
            message@,
            match id {
                Some(i) => Some(i@),
                None => None,
            },
        ),
{
    proof {
        reveal_strlit("event: message\n");
        reveal_strlit("event: message-base64\n");
        reveal_strlit("id: ");
        reveal_strlit("\n");
        reveal_strlit("data: ");
        reveal_strlit("\ndata: ");
        reveal_strlit("\n\n");
    }
    let ghost idv = match id {
        Some(i) => Some(i@),
        None => None::<Seq<char>>,
    };
    let ghost id_line = match idv {
        Some(i) => id_line_chars(i),
        None => Seq::<char>::empty(),
    };
    let text = string_from_utf8(vstd::slice::slice_to_vec(message));
    let mut out = String::new();
    match &text {
        Some(_) => append_str(&mut out, "event: message\n"),
        None => append_str(&mut out, "event: message-base64\n"),
    }
    let ghost head = out@;
    if let Some(i) = id {
        append_str(&mut out, "id: ");
        append_str(&mut out, i);
        append_str(&mut out, "\n");
    }
    assert(out@ =~= head + id_line);
    append_str(&mut out, "data: ");
    let ghost before = out@;
    match text {
        Some(t) => {
            let n = t.as_str().unicode_len();
            let mut k: usize = 0;
            while k < n
                invariant
                    n == t@.len(),
                    k <= n,
                    out@ == before + data_lines(t@.subrange(0, k as int)),
                decreases n - k,
            {
                let c = t.as_str().get_char(k);
                assert(t@.subrange(0, k + 1).drop_last() =~= t@.subrange(0, k as int));
                assert(t@.subrange(0, k + 1).last() == c);
                proof {
                    reveal_strlit("\ndata: ");
                }
                assert("\ndata: "@ =~= seq!['\n', 'd', 'a', 't', 'a', ':', ' ']);
                if c == '\n' {
                    append_str(&mut out, "\ndata: ");
                } else {
                    push_char(&mut out, c);
                }
                k = k + 1;
                assert(out@ =~= before + data_lines(t@.subrange(0, k as int)));
            }
            assert(t@.subrange(0, k as int) =~= t@);
        },
        None => {
            let encoded = base64_encode(message);
            append_str(&mut out, encoded.as_str());
        },
    }
    append_str(&mut out, "\n\n");
    assert(out@ =~= sse_event(message@, idv));
    out
}

/// The websocket frame of a message: a refresh for a durable message, which
/// subscribers then read over their sync pass; otherwise the MQTT PUBLISH
/// itself, in base64.
pub enum WsFormat {
    Refresh,
    ContentBin(String),
}

/// What the publish client sends for one message: on channel `s:<topic>`, an
/// SSE frame, a websocket frame, and the sender when known.
pub struct PublishItem {
    pub channel: String,
    pub sse_content: String,
    pub ws: WsFormat,
    pub sender: Option<String>,
}

/// The PUBLISH a non-durable message is sent as.
pub open spec fn plain_publish(topic: Seq<char>, message: Seq<u8>) -> PacketModel {
    PacketModel::Publish {
        topic,
        message,
        dup: false,
        qos: 0,
        retain: false,
        message_expiry_interval: None,
    }
}

/// Builds the item for a message: `None` when its PUBLISH cannot be written
/// (a topic or payload beyond what the wire format carries).
pub fn publish_item(req: PublishRequest) -> (r: Option<PublishItem>)
    requires
        req.message@.len() <= MESSAGE_SIZE_MAX,
    ensures
        r matches Some(item) ==> ({
            &&& item.channel@ == seq!['s', ':'] + req.topic@
            &&& item.sse_content@ == sse_event(req.message@, None)
            &&& match req.sequencing {
                Some(_) => item.ws is Refresh,
                None => item.ws matches WsFormat::ContentBin(b) && b@ == base64_of(
                    spec_serialize(plain_publish(req.topic@, req.message@)),
                ),
            }
            &&& item.sender == req.sender
        }),
        r is None ==> req.sequencing is None,
        req.sequencing is Some || spec_serializable(plain_publish(req.topic@, req.message@))
            ==> r is Some,
{
    proof {
        reveal_strlit("s:");
    }
    let sse_content = sse_event_text(req.message.as_slice(), None);
    let mut channel = String::from_str("s:");
    channel.append(req.topic.as_str());
    let ws = match req.sequencing {
        // a refresh is the one way to deliver reliably over websockets
        Some(_) => WsFormat::Refresh,
        None => {
            let p = Packet::Publish(
                Publish {
                    topic: req.topic,
                    message: req.message,
                    dup: false,
                    qos: 0,
                    retain: false,
                    message_expiry_interval: None,
                },
            );
            if !p.can_serialize() {
                return None;
            }
            let mut v: Vec<u8> = Vec::new();
            p.serialize(&mut v);
            assert(v@ == spec_serialize(p@));
            proof {
                crate::mqttpacket::lemma_publish_size(p@);
            }
            if v.len() > BASE64_INPUT_MAX {
                return None;
            }
            WsFormat::ContentBin(base64_encode(v.as_slice()))
        },
    };
    Some(PublishItem { channel, sse_content, ws, sender: req.sender })
}

/// The JSON of a websocket frame.
pub open spec fn ws_json(ws: WsFormat) -> Seq<char> {
    match ws {
        WsFormat::Refresh => "{\"action\":\"refresh\"}"@,
        WsFormat::ContentBin(b) => "{\"content-bin\":"@ + json_quoted(b@) + "}"@,
    }
}

/// The body handed to the publish API for one item:
/// `{"items":[{"channel":..,"formats":{"http-stream":{"content":..},"ws-message":..},"meta":{"sender":..}}]}`,
/// compact, keys in order, `meta` only with a sender.
pub open spec fn publish_json(item: PublishItem) -> Seq<char> {
    "{\"items\":[{\"channel\":"@ + json_quoted(item.channel@) + ",\"formats\":{\"http-stream\":{\"content\":"@
        + json_quoted(item.sse_content@) + "},\"ws-message\":"@ + ws_json(item.ws) + "}"@ + match item.sender {
        Some(s) => ",\"meta\":{\"sender\":"@ + json_quoted(s@) + "}"@,
        None => Seq::empty(),
    } + "}]}"@
}

/// Writes the body handed to the publish API for one item.
pub fn publish_body(item: &PublishItem) -> (r: String)
    ensures
        r@ == publish_json(*item),
{
    let mut out = String::from_str("{\"items\":[{\"channel\":");
    out.append(json_quote(item.channel.as_str()).as_str());
    out.append(",\"formats\":{\"http-stream\":{\"content\":");
    out.append(json_quote(item.sse_content.as_str()).as_str());
    out.append("},\"ws-message\":");
    match &item.ws {
        WsFormat::Refresh => out.append("{\"action\":\"refresh\"}"),
        WsFormat::ContentBin(b) => {
            out.append("{\"content-bin\":");
            out.append(json_quote(b.as_str()).as_str());
            out.append("}");
        },
    }
    out.append("}");
    let ghost mid = out@;
    match &item.sender {
        Some(s) => {
            out.append(",\"meta\":{\"sender\":");
            out.append(json_quote(s.as_str()).as_str());
            out.append("}");
        },
        None => {},
    }
    out.append("}]}");
    assert(out@ =~= publish_json(*item));
    out
}

} // verus!
