//! MQTT over the websocket-over-HTTP envelope: one request carries a batch of
//! events; their bytes feed the packet parser through a carry-over buffer,
//! and the response carries the answers, channel subscription changes and the
//! session state.

use vstd::prelude::*;
use vstd::slice::{slice_subrange, slice_to_vec};
use crate::auth::{Authorizor, contains_str};
use crate::config::Config;
use crate::grip::{
    ControlMessage, ControlModel, added_controls, control_models, dropped_controls,
    make_channel_controls, set_user_control, subscribed,
};
use crate::mqtthandler::{
    Context, State, Subscription, handle_packet, handle_sync, topics_unique,
};
use crate::mqttpacket::{Packet, PacketModel, spec_parse, spec_serializable, spec_serialize};
use crate::publish::PublishRequest;
use crate::storage::Storage;
use crate::text::{find_seq_from, seq_index, str_eq};
use crate::events::{split_chars, split_on};
use crate::websocket::{WsEvent, parse_websocket_event, spec_parse_ws, spec_ws_bytes, write_websocket_event};
use crate::grip::control_json;
use vstd::utf8::encode_utf8;

verus! {

/// What a request brings besides its body, read from its headers.
pub struct TransportRequest {
    pub grip_offered: bool,
    pub protocol_requested: bool,
    pub cid: String,
    pub state: Option<State>,
    pub replayed: usize,
}

/// What the response is made of. The body is `events`, then `controls` as
/// `TEXT` events of `c:` and their JSON, then `close` if any.
pub struct TransportResponse {
    pub events: Vec<WsEvent>,
    pub controls: Vec<ControlMessage>,
    pub close: Option<WsEvent>,
    pub grip_extension: bool,
    pub mqtt_protocol: bool,
    pub content_accepted: usize,
    pub state: State,
    pub publishes: Vec<PublishRequest>,
    /// The packets handled, in order.
    pub handled: Ghost<Seq<PacketModel>>,
    /// Whether the session ended the request set to disconnect.
    pub disconnect: bool,
}

/// The body or a header cannot be read.
#[derive(Debug, Clone, Copy)]
pub struct BadRequest;

/// A request being handled: the session, the bytes not yet parsed into a
/// packet, whether the connection is opening, and how many content bytes
/// are taken.
pub struct TransportContext {
    pub handler: Context,
    pub in_buf: Vec<u8>,
    pub opening: bool,
    pub content_accepted: usize,
    /// The packets handled so far, in order.
    pub handled: Ghost<Seq<PacketModel>>,
}

/// The whole packets at the front of `buf`, in order, how many bytes they
/// take, and whether what follows them is malformed (rather than incomplete).
pub open spec fn spec_packets(buf: Seq<u8>) -> (Seq<PacketModel>, nat, bool)
    decreases buf.len(),
{
    match spec_parse(buf) {
        None => (Seq::empty(), 0, false),
        Some(Err(())) => (Seq::empty(), 0, true),
        Some(Ok((p, n))) => if 1 <= n <= buf.len() {
            let (ps, k, f) = spec_packets(buf.subrange(n as int, buf.len() as int));
            (seq![p] + ps, n + k, f)
        } else {
            (Seq::empty(), 0, false)
        },
    }
}

/// Whether an event carries data: `TEXT` or `BINARY`.
pub open spec fn is_data(etype: Seq<char>) -> bool {
    etype == seq!['T', 'E', 'X', 'T'] || etype == seq!['B', 'I', 'N', 'A', 'R', 'Y']
}

/// Running events over the carry-over buffer `buf`: the content bytes
/// taken (all of a non-data event; of data, the bytes of the whole packets
/// parsed), the bytes left over, the packets handled in order, and whether a
/// malformed packet was met.
pub open spec fn spec_run(evs: Seq<(Seq<char>, Seq<u8>)>, buf: Seq<u8>) -> (
    nat,
    Seq<u8>,
    Seq<PacketModel>,
    bool,
)
    decreases evs.len(),
{
    if evs.len() == 0 {
        (0, buf, Seq::empty(), false)
    } else {
        let (et, c) = evs[0];
        if is_data(et) {
            let j = buf + c;
            let (ps, k, f) = spec_packets(j);
            let (a, l, h, f2) = spec_run(evs.drop_first(), j.subrange(k as int, j.len() as int));
            (k + a, l, ps + h, f || f2)
        } else {
            let (a, l, h, f2) = spec_run(evs.drop_first(), buf);
            (c.len() + a, l, h, f2)
        }
    }
}

/// The bytes of an outbound packet event: `m:` then the packet.
pub open spec fn packet_event_content(p: crate::mqttpacket::PacketModel) -> Seq<u8> {
    seq![109u8, 58u8] + spec_serialize(p)
}

fn packet_event(p: &Packet) -> (r: WsEvent)
    requires
        spec_serializable(p@),
    ensures
        r.etype@ == seq!['B', 'I', 'N', 'A', 'R', 'Y'],
        r.content@ == packet_event_content(p@),
{
    proof {
        reveal_strlit("BINARY");
    }
    let mut buf: Vec<u8> = Vec::new();
    // websocket-over-http messages carry a prefix
    buf.push(109);
    buf.push(58);
    p.serialize(&mut buf);
    assert(buf@ =~= packet_event_content(p@));
    let etype = String::from_str("BINARY");
    assert(etype@ =~= seq!['B', 'I', 'N', 'A', 'R', 'Y']);
    WsEvent { etype, content: buf }
}

/// Appends an event for each packet that can be written.
fn push_packet_events(out: &mut Vec<WsEvent>, ps: Vec<Packet>)
    ensures
        final(out)@.len() >= old(out)@.len(),
        final(out)@.subrange(0, old(out)@.len() as int) == old(out)@,
{
    let mut i: usize = 0;
    let ghost start = out@;
    while i < ps.len()
        invariant
            out@.len() >= start.len(),
            out@.subrange(0, start.len() as int) == start,
            start == old(out)@,
        decreases ps@.len() - i,
    {
        let p = &ps[i];
        if p.can_serialize() {
            let e = packet_event(p);
            let ghost before = out@;
            out.push(e);
            assert(out@.subrange(0, start.len() as int) =~= before.subrange(0, start.len() as int));
        }
        i = i + 1;
    }
}

/// Handles one event: `OPEN` and `CLOSE` are acknowledged (an `OPEN` marks
/// the connection opening); the content of `TEXT` and `BINARY` joins the
/// carry-over buffer, which yields packets while whole ones are there, each
/// handled and answered; a malformed packet closes the connection. Content is
/// counted as taken when it is not `TEXT` or `BINARY`, or once a packet has
/// consumed it: what stays in the buffer is not.
pub fn handle_websocket_event<A: Authorizor, S: Storage>(
    t: &mut TransportContext,
    config: &Config,
    auth: &A,
    storage: &S,
    e: WsEvent,
) -> (r: Vec<WsEvent>)
    requires
        old(t).handler.state.wf(),
        old(t).content_accepted + old(t).in_buf@.len() + e.content@.len() <= usize::MAX,
    ensures
        final(t).handler.state.wf(),
        final(t).content_accepted + final(t).in_buf@.len() == old(t).content_accepted + old(
            t,
        ).in_buf@.len() + e.content@.len(),
        e.etype@ == seq!['O', 'P', 'E', 'N'] ==> final(t).opening && r@.len() == 1 && r@[0].etype@
            == e.etype@ && r@[0].content@ == e.content@,
        e.etype@ == seq!['C', 'L', 'O', 'S', 'E'] ==> r@.len() == 1 && r@[0].etype@ == e.etype@
            && r@[0].content@ == e.content@,
        final(t).opening == (old(t).opening || e.etype@ == seq!['O', 'P', 'E', 'N']),
        is_data(e.etype@) ==> ({
            let j = old(t).in_buf@ + e.content@;
            let (ps, k, f) = spec_packets(j);
            &&& final(t).in_buf@ == j.subrange(k as int, j.len() as int)
            &&& final(t).content_accepted == old(t).content_accepted + k
            &&& final(t).handled@ == old(t).handled@ + ps
            &&& (f ==> final(t).handler.disconnect)
            &&& (spec_parse(final(t).in_buf@) is None || ((spec_parse(final(t).in_buf@) matches Some(Err(_))) && final(t).handler.disconnect))
        }),
        !is_data(e.etype@) ==> final(t).in_buf == old(t).in_buf && final(t).handled
            == old(t).handled && final(t).content_accepted == old(t).content_accepted
            + e.content@.len(),
        old(t).handler.disconnect ==> final(t).handler.disconnect,
        final(t).handler.publishes@.len() >= old(t).handler.publishes@.len(),
{
    proof {
        reveal_strlit("OPEN");
        reveal_strlit("CLOSE");
        reveal_strlit("TEXT");
        reveal_strlit("BINARY");
        assert("OPEN"@ =~= seq!['O', 'P', 'E', 'N']);
        assert("CLOSE"@ =~= seq!['C', 'L', 'O', 'S', 'E']);
        assert("TEXT"@ =~= seq!['T', 'E', 'X', 'T']);
        assert("BINARY"@ =~= seq!['B', 'I', 'N', 'A', 'R', 'Y']);
    }
    let mut out: Vec<WsEvent> = Vec::new();
    let is_open = str_eq(e.etype.as_str(), "OPEN");
    let is_close = str_eq(e.etype.as_str(), "CLOSE");
    let is_data = str_eq(e.etype.as_str(), "TEXT") || str_eq(e.etype.as_str(), "BINARY");
    if is_open || is_close {
        if is_open {
            t.opening = true;
        }
        t.content_accepted = t.content_accepted + e.content.len();
        out.push(e);
        return out;
    }
    if !is_data {
        // other event types are ignored
        t.content_accepted = t.content_accepted + e.content.len();
        return out;
    }
    let mut buf: Vec<u8> = Vec::new();
    std::mem::swap(&mut buf, &mut t.in_buf);
    let ghost joined = buf@ + e.content@;
    let mut j: usize = 0;
    while j < e.content.len()
        invariant
            j <= e.content@.len(),
            buf@ == old(t).in_buf@ + e.content@.subrange(0, j as int),
        decreases e.content@.len() - j,
    {
        buf.push(e.content[j]);
        j = j + 1;
        assert(buf@ =~= old(t).in_buf@ + e.content@.subrange(0, j as int));
    }
    assert(buf@ =~= joined);
    let mut start: usize = 0;
    let ghost accepted0 = t.content_accepted;
    let ghost h0 = t.handled@;
    let ghost total = spec_packets(joined);
    let mut stopped_bad = false;
    assert(joined.subrange(0, joined.len() as int) =~= joined);
    assert(t.handled@.subrange(h0.len() as int, t.handled@.len() as int) =~= Seq::<PacketModel>::empty());
    assert(t.handled@.subrange(0, h0.len() as int) =~= h0);
    let mut done = false;
    while start < buf.len() && !done
        invariant
            start <= buf@.len(),
            buf@ == joined,
            t.content_accepted == accepted0 + start,
            accepted0 == old(t).content_accepted,
            accepted0 + buf@.len() <= usize::MAX,
            h0 == old(t).handled@,
            total == spec_packets(joined),
            t.handled@.len() >= h0.len(),
            t.handled@.subrange(0, h0.len() as int) == h0,
            total.0 == t.handled@.subrange(h0.len() as int, t.handled@.len() as int) + spec_packets(
                joined.subrange(start as int, joined.len() as int),
            ).0,
            total.1 == start + spec_packets(joined.subrange(start as int, joined.len() as int)).1,
            total.2 == spec_packets(joined.subrange(start as int, joined.len() as int)).2,
            old(t).handler.disconnect ==> t.handler.disconnect,
            done ==> (spec_parse(joined.subrange(start as int, joined.len() as int)) is None || ((
            spec_parse(joined.subrange(start as int, joined.len() as int)) matches Some(Err(_)))
                && t.handler.disconnect)),
            t.handler.state.wf(),
            t.opening == old(t).opening,
            t.handler.publishes@.len() >= old(t).handler.publishes@.len(),
        decreases buf@.len() - start + (if done { 0int } else { 1int }),
    {
        let rest = slice_subrange(buf.as_slice(), start, buf.len());
        assert(rest@ == joined.subrange(start as int, joined.len() as int));
        match Packet::parse(rest) {
            None => {
                assert(spec_parse(rest@) is None);
                done = true;
            },
            Some(Err(_)) => {
                assert((spec_parse(rest@) matches Some(Err(_))));
                t.handler.disconnect = true;
                done = true;
            },
            Some(Ok((p, read))) => {
                let ghost pm = p@;
                let ghost hb = t.handled@;
                proof {
                    let rv = joined.subrange(start as int, joined.len() as int);
                    assert(rest@ == rv);
                    assert(rv.subrange(read as int, rv.len() as int) =~= joined.subrange(
                        start + read,
                        joined.len() as int,
                    ));
                }
                let answers = handle_packet(&mut t.handler, config, auth, storage, p);
                push_packet_events(&mut out, answers);
                proof {
                    t.handled = Ghost(t.handled@.push(pm));
                    assert(t.handled@.subrange(0, h0.len() as int) =~= hb.subrange(0, h0.len() as int));
                    assert(t.handled@.subrange(h0.len() as int, t.handled@.len() as int) =~= hb.subrange(
                        h0.len() as int,
                        hb.len() as int,
                    ).push(pm));
                }
                start = start + read;
                t.content_accepted = t.content_accepted + read;
            },
        }
    }
    t.in_buf = slice_to_vec(slice_subrange(buf.as_slice(), start, buf.len()));
    proof {
        if !done {
            assert(joined.subrange(start as int, joined.len() as int) =~= Seq::<u8>::empty());
            assert(spec_parse(Seq::<u8>::empty()) is None) by {
                reveal(spec_parse);
            }
        }
        assert(t.handled@ =~= h0 + total.0);
    }
    out
}

/// The events of a body as (type, content) values, `None` when one cannot be
/// read.
pub open spec fn spec_parse_events(body: Seq<u8>, pos: int) -> Option<Seq<(Seq<char>, Seq<u8>)>>
    decreases body.len() - pos,
{
    if pos < 0 || pos >= body.len() {
        Some(Seq::empty())
    } else {
        match spec_parse_ws(body.subrange(pos, body.len() as int)) {
            None => None,
            Some((et, c, n)) => if n >= 1 && pos + n <= body.len() {
                match spec_parse_events(body, pos + n) {
                    None => None,
                    Some(rest) => Some(seq![(et, c)] + rest),
                }
            } else {
                None
            },
        }
    }
}

/// Events as (type, content) values.
pub open spec fn event_models(evs: Seq<WsEvent>) -> Seq<(Seq<char>, Seq<u8>)> {
    evs.map_values(|e: WsEvent| (e.etype@, e.content@))
}

/// Whether one of the events opens the connection.
pub open spec fn has_open(evs: Seq<(Seq<char>, Seq<u8>)>) -> bool {
    exists|i: int| 0 <= i < evs.len() && (#[trigger] evs[i]).0 == seq!['O', 'P', 'E', 'N']
}

fn parse_events(body: &[u8]) -> (r: Result<(Vec<WsEvent>, usize), BadRequest>)
    ensures
        r is Err <==> spec_parse_events(body@, 0) is None,
        r matches Ok((evs, total)) ==> total <= body@.len() && total == content_total(evs@)
            && spec_parse_events(body@, 0) == Some(event_models(evs@)),
{
    let mut events: Vec<WsEvent> = Vec::new();
    let mut pos: usize = 0;
    let mut total: usize = 0;
    while pos < body.len()
        invariant
            pos <= body@.len(),
            total <= pos,
            total == content_total(events@),
            spec_parse_events(body@, 0) == match spec_parse_events(body@, pos as int) {
                Some(rest) => Some(event_models(events@) + rest),
                None => None,
            },
        decreases body@.len() - pos,
    {
        let rest = slice_subrange(body, pos, body.len());
        match parse_websocket_event(rest) {
            Ok((e, size)) => {
                proof {
                    lemma_ws_size(rest@);
                }
                let ghost before = events@;
                let ghost em = (e.etype@, e.content@);
                total = total + e.content.len();
                events.push(e);
                assert(events@.drop_last() =~= before);
                assert(event_models(events@) =~= event_models(before).push(em));
                let ghost old_pos = pos;
                pos = pos + size;
                proof {
                    match spec_parse_events(body@, pos as int) {
                        Some(r2) => {
                            assert(spec_parse_events(body@, old_pos as int) == Some(seq![em] + r2));
                            assert(event_models(before) + (seq![em] + r2) =~= event_models(events@) + r2);
                        },
                        None => {},
                    }
                }
            },
            Err(_) => return Err(BadRequest),
        }
    }
    assert(event_models(events@) + Seq::empty() =~= event_models(events@));
    Ok((events, total))
}

proof fn lemma_ws_size(src: Seq<u8>)
    ensures
        spec_parse_ws(src) matches Some((_, c, n)) ==> c.len() + 2 <= n <= src.len(),
{
    crate::text::lemma_find_first_bound(src, 13);
}

/// The total content length of events.
pub open spec fn content_total(evs: Seq<WsEvent>) -> nat
    decreases evs.len(),
{
    if evs.len() == 0 {
        0
    } else {
        content_total(evs.drop_last()) + evs.last().content@.len()
    }
}

fn subs_unique(subs: &Vec<(String, Subscription)>) -> (r: bool)
    ensures
        r == topics_unique(subs@),
{
    let mut i: usize = 0;
    while i < subs.len()
        invariant
            i <= subs@.len(),
            forall|a: int, b: int|
                0 <= a < i && 0 <= b < subs@.len() && a != b ==> (#[trigger] subs@[a]).0@ != (
                #[trigger] subs@[b]).0@,
        decreases subs@.len() - i,
    {
        let mut j: usize = 0;
        while j < subs.len()
            invariant
                i < subs@.len(),
                j <= subs@.len(),
                forall|a: int, b: int|
                    0 <= a < i && 0 <= b < subs@.len() && a != b ==> (#[trigger] subs@[a]).0@ != (
                    #[trigger] subs@[b]).0@,
                forall|b: int| 0 <= b < j && b != i ==> subs@[i as int].0@ != (#[trigger] subs@[b]).0@,
            decreases subs@.len() - j,
        {
            if j != i && str_eq(subs[i].0.as_str(), subs[j].0.as_str()) {
                return false;
            }
            j = j + 1;
        }
        i = i + 1;
    }
    true
}

/// The topics of the subscriptions.
fn sub_topic_list(subs: &Vec<(String, Subscription)>) -> (r: Vec<String>)
    ensures
        r@ == subs@.map_values(|e: (String, Subscription)| e.0),
{
    let mut r: Vec<String> = Vec::new();
    let mut i: usize = 0;
    while i < subs.len()
        invariant
            i <= subs@.len(),
            r@ == subs@.subrange(0, i as int).map_values(|e: (String, Subscription)| e.0),
        decreases subs@.len() - i,
    {
        r.push(subs[i].0.clone());
        i = i + 1;
        assert(r@ =~= subs@.subrange(0, i as int).map_values(|e: (String, Subscription)| e.0));
    }
    assert(subs@.subrange(0, i as int) =~= subs@);
    r
}

fn contains_string(list: &Vec<String>, s: &str) -> (r: bool)
    ensures
        r == contains_str(list@, s@),
{
    let mut i: usize = 0;
    while i < list.len()
        invariant
            i <= list@.len(),
            forall|j: int| 0 <= j < i ==> (#[trigger] list@[j])@ != s@,
        decreases list@.len() - i,
    {
        if str_eq(list[i].as_str(), s) {
            return true;
        }
        i = i + 1;
    }
    false
}

fn is_subscribed(subs: &Vec<(String, Subscription)>, s: &str) -> (r: bool)
    ensures
        r == subscribed(subs@, s@),
{
    let mut i: usize = 0;
    while i < subs.len()
        invariant
            i <= subs@.len(),
            forall|j: int| 0 <= j < i ==> (#[trigger] subs@[j]).0@ != s@,
        decreases subs@.len() - i,
    {
        if str_eq(subs[i].0.as_str(), s) {
            return true;
        }
        i = i + 1;
    }
    false
}

/// The control messages that bring the proxy's channels in line with the
/// session: `user` metadata when the client id changed, subscriptions for
/// new topics, unsubscriptions for topics dropped.
pub fn subscription_controls(orig_client_id: &str, orig: &Vec<String>, state: &State) -> (r: Vec<
    ControlMessage,
>)
    ensures
        control_models(r@) == (if state.client_id@ != orig_client_id@ {
            seq![
                (
                    seq!['s', 'e', 't', '-', 'm', 'e', 't', 'a'],
                    None::<Seq<char>>,
                    Seq::<Seq<char>>::empty(),
                    Some(seq!['u', 's', 'e', 'r']),
                    Some(state.client_id@),
                ),
            ]
        } else {
            Seq::<ControlModel>::empty()
        }) + added_controls(state.subs@, orig@) + dropped_controls(orig@, state.subs@),
{
    let mut r: Vec<ControlMessage> = Vec::new();
    if !str_eq(state.client_id.as_str(), orig_client_id) {
        r.push(set_user_control(state.client_id.as_str()));
    }
    let ghost head = control_models(r@);
    let mut i: usize = 0;
    while i < state.subs.len()
        invariant
            i <= state.subs@.len(),
            control_models(r@) == head + added_controls(state.subs@.subrange(0, i as int), orig@),
        decreases state.subs@.len() - i,
    {
        let ghost prev = r@;
        let topic = state.subs[i].0.as_str();
        assert(state.subs@.subrange(0, i + 1).drop_last() =~= state.subs@.subrange(0, i as int));
        assert(state.subs@.subrange(0, i + 1).last() == state.subs@[i as int]);
        if !contains_string(orig, topic) {
            let mut pair = make_channel_controls(true, topic, state.subs[i].1.no_local);
            let ghost pv = pair@;
            r.append(&mut pair);
            assert(control_models(r@) =~= control_models(prev) + control_models(pv));
        } else {
            assert(control_models(r@) =~= control_models(prev) + Seq::<ControlModel>::empty());
        }
        i = i + 1;
        assert(control_models(r@) =~= head + added_controls(state.subs@.subrange(0, i as int), orig@));
    }
    assert(state.subs@.subrange(0, i as int) =~= state.subs@);
    let ghost mid = control_models(r@);
    let mut k: usize = 0;
    while k < orig.len()
        invariant
            k <= orig@.len(),
            control_models(r@) == mid + dropped_controls(orig@.subrange(0, k as int), state.subs@),
        decreases orig@.len() - k,
    {
        let ghost prev = r@;
        let topic = orig[k].as_str();
        assert(orig@.subrange(0, k + 1).drop_last() =~= orig@.subrange(0, k as int));
        assert(orig@.subrange(0, k + 1).last() == orig@[k as int]);
        if !is_subscribed(&state.subs, topic) {
            let mut pair = make_channel_controls(false, topic, false);
            let ghost pv = pair@;
            r.append(&mut pair);
            assert(control_models(r@) =~= control_models(prev) + control_models(pv));
        } else {
            assert(control_models(r@) =~= control_models(prev) + Seq::<ControlModel>::empty());
        }
        k = k + 1;
        assert(control_models(r@) =~= mid + dropped_controls(orig@.subrange(0, k as int), state.subs@));
    }
    assert(orig@.subrange(0, k as int) =~= orig@);
    r
}

/// The `CLOSE` event with status 1000.
pub fn close_event() -> (r: WsEvent)
    ensures
        r.etype@ == seq!['C', 'L', 'O', 'S', 'E'],
        r.content@ == seq![0x03u8, 0xe8u8],
{
    proof {
        reveal_strlit("CLOSE");
    }
    let mut content: Vec<u8> = Vec::new();
    content.push(0x03);
    content.push(0xe8);
    assert(content@ =~= seq![0x03u8, 0xe8u8]);
    let etype = String::from_str("CLOSE");
    assert(etype@ =~= seq!['C', 'L', 'O', 'S', 'E']);
    WsEvent { etype, content }
}

/// Handles one request: reads the events of the body, runs the sync pass,
/// handles each event, then works out the channel changes. A body that is
/// not a run of events, or a session state with a topic twice, is a bad
/// request.
pub fn handle_websocket_events<A: Authorizor, S: Storage>(
    config: &Config,
    auth: &A,
    storage: &S,
    req: TransportRequest,
    body: &[u8],
) -> (r: Result<TransportResponse, BadRequest>)
    ensures
        spec_parse_events(body@, 0) is None ==> r is Err,
        spec_parse_events(body@, 0) is Some && (req.state matches Some(st) ==> topics_unique(
            st.subs@,
        )) ==> r is Ok,
        r matches Ok(resp) ==> ({
            &&& resp.content_accepted <= body@.len()
            &&& spec_parse_events(body@, 0) matches Some(evs) && resp.content_accepted
                == spec_run(evs, Seq::empty()).0 && resp.handled@ == spec_run(evs, Seq::empty()).2
                && (spec_run(evs, Seq::empty()).3 ==> resp.disconnect)
            &&& (resp.close is Some <==> resp.disconnect)
            &&& topics_unique(resp.state.subs@)
            &&& (resp.close matches Some(c) ==> c.etype@ == seq!['C', 'L', 'O', 'S', 'E']
                && c.content@ == seq![0x03u8, 0xe8u8])
            &&& spec_parse_events(body@, 0) matches Some(evs) && resp.grip_extension == (
            req.grip_offered && has_open(evs)) && resp.mqtt_protocol == (req.protocol_requested
                && has_open(evs))
        }),
        r matches Ok(resp) ==> match req.state {
            Some(st) => control_models(resp.controls@) == (if resp.state.client_id@
                != st.client_id@ {
                seq![
                    (
                        seq!['s', 'e', 't', '-', 'm', 'e', 't', 'a'],
                        None::<Seq<char>>,
                        Seq::<Seq<char>>::empty(),
                        Some(seq!['u', 's', 'e', 'r']),
                        Some(resp.state.client_id@),
                    ),
                ]
            } else {
                Seq::<ControlModel>::empty()
            }) + added_controls(resp.state.subs@, orig_topics(st)) + dropped_controls(
                orig_topics(st),
                resp.state.subs@,
            ),
            None => control_models(resp.controls@) == (if resp.state.client_id@.len() != 0 {
                seq![
                    (
                        seq!['s', 'e', 't', '-', 'm', 'e', 't', 'a'],
                        None::<Seq<char>>,
                        Seq::<Seq<char>>::empty(),
                        Some(seq!['u', 's', 'e', 'r']),
                        Some(resp.state.client_id@),
                    ),
                ]
            } else {
                Seq::<ControlModel>::empty()
            }) + added_controls(resp.state.subs@, Seq::empty()),
        },
{
    let (events, total) = parse_events(body)?;
    let ghost rs = req.state;
    let state = match req.state {
        Some(s) => s,
        None => State {
            connected: false,
            client_id: String::new(),
            token: None,
            subs: Vec::new(),
        },
    };
    if !subs_unique(&state.subs) {
        return Err(BadRequest);
    }
    let client_id = state.client_id.clone();
    let orig = sub_topic_list(&state.subs);
    let mut t = TransportContext {
        handler: Context { disconnect: false, state, publishes: Vec::new() },
        in_buf: Vec::new(),
        opening: false,
        content_accepted: 0,
        handled: Ghost(Seq::empty()),
    };
    let mut out: Vec<WsEvent> = Vec::new();
    let synced = handle_sync(&mut t.handler, storage);
    push_packet_events(&mut out, synced);
    let mut evs = events;
    let ghost all = event_models(evs@);
    let ghost mut k: int = 0;
    let ghost run_all = spec_run(all, Seq::empty());
    proof {
        assert(all.subrange(0, all.len() as int) =~= all);
        assert(t.handled@ + run_all.2 =~= run_all.2);
    }
    let mut seen: usize = 0;
    while evs.len() > 0
        invariant
            t.handler.state.wf(),
            t.content_accepted + t.in_buf@.len() == seen,
            seen + content_total(evs@) == total,
            total <= body@.len(),
            0 <= k <= all.len(),
            event_models(evs@) == all.subrange(k, all.len() as int),
            t.opening == has_open(all.subrange(0, k)),
            run_all == spec_run(all, Seq::empty()),
            run_all.0 == t.content_accepted + spec_run(all.subrange(k, all.len() as int), t.in_buf@).0,
            run_all.2 == t.handled@ + spec_run(all.subrange(k, all.len() as int), t.in_buf@).2,
            run_all.3 ==> t.handler.disconnect || spec_run(all.subrange(k, all.len() as int), t.in_buf@).3,
        decreases evs@.len(),
    {
        let ghost before = evs@;
        proof {
            assert(event_models(before).len() == before.len());
            assert(k < all.len());
            assert(event_models(before)[0] == all.subrange(k, all.len() as int)[0]);
            assert(all[k] == event_models(before)[0]);
            let p = all.subrange(0, k + 1);
            if has_open(p) {
                let i = choose|i: int| 0 <= i < p.len() && (#[trigger] p[i]).0 == seq!['O', 'P', 'E', 'N'];
                if i < k {
                    assert(all.subrange(0, k)[i] == p[i]);
                }
            }
            if has_open(all.subrange(0, k)) {
                let i = choose|i: int| 0 <= i < k && (#[trigger] all.subrange(0, k)[i]).0 == seq!['O', 'P', 'E', 'N'];
                assert(p[i] == all.subrange(0, k)[i]);
            }
            if all[k].0 == seq!['O', 'P', 'E', 'N'] {
                assert(p[k] == all[k]);
            }
        }
        let e = evs.remove(0);
        proof {
            lemma_content_total_first(before);
        }
        let n = e.content.len();
        let ghost em = (e.etype@, e.content@);
        let ghost rest_k = all.subrange(k, all.len() as int);
        proof {
            assert(em == all[k]);
            assert(rest_k[0] == all[k]);
            assert(rest_k.drop_first() =~= all.subrange(k + 1, all.len() as int));
        }
        let answers = handle_websocket_event(&mut t, config, auth, storage, e);
        seen = seen + n;
        let mut answers = answers;
        out.append(&mut answers);
        proof {
            assert(evs@ =~= before.drop_first());
            assert forall|j: int| 0 <= j < evs@.len() implies event_models(evs@)[j] == all.subrange(
                k + 1,
                all.len() as int,
            )[j] by {
                assert(evs@[j] == before[j + 1]);
                assert(event_models(before)[j + 1] == all.subrange(k, all.len() as int)[j + 1]);
            }
            assert(event_models(evs@) =~= all.subrange(k + 1, all.len() as int));
            k = k + 1;
        }
    }
    assert(k == all.len());
    assert(all.subrange(0, k) =~= all);
    assert(all.subrange(k, all.len() as int) =~= Seq::<(Seq<char>, Seq<u8>)>::empty());
    assert(t.handled@ + Seq::<PacketModel>::empty() =~= t.handled@);
    let controls = subscription_controls(client_id.as_str(), &orig, &t.handler.state);
    let close = if t.handler.disconnect {
        Some(close_event())
    } else {
        None
    };
    proof {
        match rs {
            Some(st) => {
                assert(orig@ == orig_topics(st));
            },
            None => {
                assert(orig@ =~= Seq::<String>::empty());
                assert(dropped_controls(orig@, t.handler.state.subs@) =~= Seq::<ControlModel>::empty());
                assert(client_id@ =~= Seq::<char>::empty());
                if t.handler.state.client_id@.len() == 0 {
                    assert(t.handler.state.client_id@ =~= client_id@);
                }
            },
        }
    }
    Ok(
        TransportResponse {
            events: out,
            controls,
            close,
            grip_extension: t.opening && req.grip_offered,
            mqtt_protocol: t.opening && req.protocol_requested,
            content_accepted: t.content_accepted,
            state: t.handler.state,
            publishes: t.handler.publishes,
            handled: t.handled,
            disconnect: t.handler.disconnect,
        },
    )
}

/// The topics of a session's subscriptions, as strings.
pub open spec fn orig_topics(st: State) -> Seq<String> {
    st.subs@.map_values(|e: (String, Subscription)| e.0)
}

proof fn lemma_content_total_first(evs: Seq<WsEvent>)
    requires
        evs.len() > 0,
    ensures
        content_total(evs) == evs[0].content@.len() + content_total(evs.drop_first()),
    decreases evs.len(),
{
    if evs.len() > 1 {
        lemma_content_total_first(evs.drop_last());
        assert(evs.drop_last().drop_first() =~= evs.drop_first().drop_last());
        assert(evs.drop_first().last() == evs.last());
        assert(evs.drop_last()[0] == evs[0]);
    } else {
        assert(evs.drop_first() =~= Seq::<WsEvent>::empty());
        assert(evs.drop_last() =~= Seq::<WsEvent>::empty());
    }
}

/// Whether a `Sec-WebSocket-Extensions` value offers `grip`.
pub fn offers_grip(exts: &str) -> (r: bool)
    ensures
        r == (find_seq_from(exts@, seq!['g', 'r', 'i', 'p'], 0) is Some),
{
    proof {
        reveal_strlit("grip");
        assert("grip"@ =~= seq!['g', 'r', 'i', 'p']);
    }
    seq_index(exts, "grip").is_some()
}

/// Whether a `Sec-WebSocket-Protocol` value, split at spaces, names `mqtt`.
pub fn requests_mqtt(protocols: &str) -> (r: bool)
    ensures
        r == split_on(protocols@, ' ').contains(seq!['m', 'q', 't', 't']),
{
    proof {
        reveal_strlit("mqtt");
        assert("mqtt"@ =~= seq!['m', 'q', 't', 't']);
    }
    let parts = split_chars(protocols, ' ');
    let ghost ps = split_on(protocols@, ' ');
    assert(parts@.map_values(|x: String| x@) == ps);
    let mut i: usize = 0;
    while i < parts.len()
        invariant
            i <= parts@.len(),
            parts@.map_values(|x: String| x@) == ps,
            ps == split_on(protocols@, ' '),
            forall|j: int| 0 <= j < i ==> ps[j] != seq!['m', 'q', 't', 't'],
        decreases parts@.len() - i,
    {
        proof {
            reveal_strlit("mqtt");
            assert("mqtt"@ =~= seq!['m', 'q', 't', 't']);
        }
        assert(parts@[i as int]@ == ps[i as int]);
        if str_eq(parts[i].as_str(), "mqtt") {
            assert(ps[i as int] == seq!['m', 'q', 't', 't']);
            assert(ps.contains(seq!['m', 'q', 't', 't']));
            return true;
        }
        i = i + 1;
    }
    assert(!ps.contains(seq!['m', 'q', 't', 't'])) by {
        if ps.contains(seq!['m', 'q', 't', 't']) {
            let j = choose|j: int| 0 <= j < ps.len() && ps[j] == seq!['m', 'q', 't', 't'];
            assert(ps.len() == parts@.len());
        }
    }
    false
}

/// The bytes of a run of events, one after another.
pub open spec fn events_bytes(evs: Seq<(Seq<char>, Seq<u8>)>) -> Seq<u8>
    decreases evs.len(),
{
    if evs.len() == 0 {
        Seq::empty()
    } else {
        events_bytes(evs.drop_last()) + spec_ws_bytes(evs.last().0, evs.last().1)
    }
}

/// A control message as a `TEXT` event: `c:` then its JSON.
pub open spec fn control_event(m: ControlModel) -> (Seq<char>, Seq<u8>) {
    (seq!['T', 'E', 'X', 'T'], seq![99u8, 58u8] + encode_utf8(control_json(m)))
}

/// The events of a response body, in order: the answers, the control
/// messages, then the close if any.
pub open spec fn response_events(resp: TransportResponse) -> Seq<(Seq<char>, Seq<u8>)> {
    event_models(resp.events@) + control_models(resp.controls@).map_values(
        |m: ControlModel| control_event(m),
    ) + match resp.close {
        Some(c) => seq![(c.etype@, c.content@)],
        None => Seq::empty(),
    }
}

fn push_event(body: &mut Vec<u8>, e: &WsEvent, evs: Ghost<Seq<(Seq<char>, Seq<u8>)>>)
    requires
        old(body)@ == events_bytes(evs@),
    ensures
        final(body)@ == events_bytes(evs@.push((e.etype@, e.content@))),
{
    write_websocket_event(body, e);
    assert(evs@.push((e.etype@, e.content@)).drop_last() =~= evs@);
}

/// Writes the body of a response.
pub fn response_body(resp: &TransportResponse) -> (r: Vec<u8>)
    ensures
        r@ == events_bytes(response_events(*resp)),
{
    proof {
        reveal_strlit("TEXT");
        reveal_strlit("c:");
        assert("TEXT"@ =~= seq!['T', 'E', 'X', 'T']);
    }
    let mut body: Vec<u8> = Vec::new();
    let ghost mut evs: Seq<(Seq<char>, Seq<u8>)> = Seq::empty();
    let mut i: usize = 0;
    while i < resp.events.len()
        invariant
            i <= resp.events@.len(),
            evs == event_models(resp.events@.subrange(0, i as int)),
            body@ == events_bytes(evs),
        decreases resp.events@.len() - i,
    {
        push_event(&mut body, &resp.events[i], Ghost(evs));
        proof {
            evs = evs.push((resp.events@[i as int].etype@, resp.events@[i as int].content@));
        }
        i = i + 1;
        assert(evs =~= event_models(resp.events@.subrange(0, i as int)));
    }
    assert(resp.events@.subrange(0, i as int) =~= resp.events@);
    let ghost base = evs;
    let ghost cm = control_models(resp.controls@).map_values(|m: ControlModel| control_event(m));
    let mut k: usize = 0;
    while k < resp.controls.len()
        invariant
            k <= resp.controls@.len(),
            cm == control_models(resp.controls@).map_values(|m: ControlModel| control_event(m)),
            evs == base + cm.subrange(0, k as int),
            body@ == events_bytes(evs),
        decreases resp.controls@.len() - k,
    {
        proof {
            reveal_strlit("TEXT");
            reveal_strlit("c:");
            assert("TEXT"@ =~= seq!['T', 'E', 'X', 'T']);
        }
        let json = crate::grip::control_message_json(&resp.controls[k]);
        let mut content: Vec<u8> = Vec::new();
        content.push(99);
        content.push(58);
        let jb = json.as_str().as_bytes();
        let mut j: usize = 0;
        while j < jb.len()
            invariant
                j <= jb@.len(),
                content@ == seq![99u8, 58u8] + jb@.subrange(0, j as int),
            decreases jb@.len() - j,
        {
            content.push(jb[j]);
            j = j + 1;
            assert(content@ =~= seq![99u8, 58u8] + jb@.subrange(0, j as int));
        }
        assert(jb@.subrange(0, j as int) =~= jb@);
        let e = WsEvent { etype: String::from_str("TEXT"), content };
        assert(e.etype@ =~= seq!['T', 'E', 'X', 'T']);
        push_event(&mut body, &e, Ghost(evs));
        proof {
            assert((e.etype@, e.content@) == cm[k as int]);
            evs = evs.push((e.etype@, e.content@));
        }
        k = k + 1;
        assert(evs =~= base + cm.subrange(0, k as int));
    }
    assert(cm.subrange(0, k as int) =~= cm);
    if let Some(c) = &resp.close {
        push_event(&mut body, c, Ghost(evs));
        proof {
            evs = evs.push((c.etype@, c.content@));
        }
    }
    assert(evs =~= response_events(*resp));
    body
}

} // verus!
