//! Control messages to the fronting proxy, sent inside the websocket-over-HTTP
//! body: subscribe to and unsubscribe from channels, set connection metadata.

use vstd::prelude::*;
use crate::auth::contains_str;
use crate::mqtthandler::Subscription;
use crate::text::str_eq;
use crate::events::{json_quote, json_quoted};

verus! {

/// One control message; the proxy reads it as JSON.
#[derive(Debug, Default, PartialEq)]
pub struct ControlMessage {
    pub ctype: String,
    pub channel: Option<String>,
    pub filters: Vec<String>,
    pub name: Option<String>,
    pub value: Option<String>,
}

/// A control message as values: type, channel, filters, name, value.
pub type ControlModel = (
    Seq<char>,
    Option<Seq<char>>,
    Seq<Seq<char>>,
    Option<Seq<char>>,
    Option<Seq<char>>,
);

pub open spec fn opt_chars(o: Option<String>) -> Option<Seq<char>> {
    match o {
        Some(s) => Some(s@),
        None => None,
    }
}

pub open spec fn control_model(c: ControlMessage) -> ControlModel {
    (
        c.ctype@,
        opt_chars(c.channel),
        c.filters@.map_values(|f: String| f@),
        opt_chars(c.name),
        opt_chars(c.value),
    )
}

pub open spec fn control_models(cs: Seq<ControlMessage>) -> Seq<ControlModel> {
    cs.map_values(|c: ControlMessage| control_model(c))
}

pub open spec fn subscribe_chars() -> Seq<char> {
    seq!['s', 'u', 'b', 's', 'c', 'r', 'i', 'b', 'e']
}

pub open spec fn unsubscribe_chars() -> Seq<char> {
    seq!['u', 'n', 's', 'u', 'b', 's', 'c', 'r', 'i', 'b', 'e']
}

pub open spec fn skip_self_chars() -> Seq<char> {
    seq!['s', 'k', 'i', 'p', '-', 's', 'e', 'l', 'f']
}

/// The two channels of a topic: `s:<topic>` for live messages and
/// `d:<topic>` for durable ones.
pub open spec fn live_channel(topic: Seq<char>) -> Seq<char> {
    seq!['s', ':'] + topic
}

pub open spec fn durable_channel(topic: Seq<char>) -> Seq<char> {
    seq!['d', ':'] + topic
}

/// The pair of messages that (un)subscribe the connection from both channels
/// of a topic; a subscription with `no_local` skips the connection's own
/// messages on the live channel.
pub open spec fn channel_controls(ctype: Seq<char>, topic: Seq<char>, no_local: bool) -> Seq<ControlModel> {
    seq![
        (
            ctype,
            Some(live_channel(topic)),
            if no_local {
                seq![skip_self_chars()]
            } else {
                Seq::empty()
            },
            None,
            None,
        ),
        (ctype, Some(durable_channel(topic)), Seq::empty(), None, None),
    ]
}

/// Subscribe messages for each subscription whose topic is not in `orig`,
/// in order.
pub open spec fn added_controls(subs: Seq<(String, Subscription)>, orig: Seq<String>) -> Seq<
    ControlModel,
>
    decreases subs.len(),
{
    if subs.len() == 0 {
        Seq::empty()
    } else {
        added_controls(subs.drop_last(), orig) + if contains_str(orig, subs.last().0@) {
            Seq::empty()
        } else {
            channel_controls(subscribe_chars(), subs.last().0@, subs.last().1.no_local)
        }
    }
}

/// Whether one of the subscriptions is on `topic`.
pub open spec fn subscribed(subs: Seq<(String, Subscription)>, topic: Seq<char>) -> bool {
    exists|i: int| 0 <= i < subs.len() && (#[trigger] subs[i]).0@ == topic
}

/// Unsubscribe messages for each topic of `orig` no longer subscribed, in
/// order.
pub open spec fn dropped_controls(orig: Seq<String>, subs: Seq<(String, Subscription)>) -> Seq<
    ControlModel,
>
    decreases orig.len(),
{
    if orig.len() == 0 {
        Seq::empty()
    } else {
        dropped_controls(orig.drop_last(), subs) + if subscribed(subs, orig.last()@) {
            Seq::empty()
        } else {
            channel_controls(unsubscribe_chars(), orig.last()@, false)
        }
    }
}

fn prefixed(prefix: &str, topic: &str) -> (r: String)
    ensures
        r@ == prefix@ + topic@,
{
    let mut s = String::from_str(prefix);
    s.append(topic);
    s
}

/// Builds the pair of messages of `channel_controls`.
pub fn make_channel_controls(subscribe: bool, topic: &str, no_local: bool) -> (r: Vec<ControlMessage>)
    ensures
        control_models(r@) == channel_controls(
            if subscribe {
                subscribe_chars()
            } else {
                unsubscribe_chars()
            },
            topic@,
            no_local,
        ),
{
    proof {
        reveal_strlit("subscribe");
        reveal_strlit("unsubscribe");
        reveal_strlit("skip-self");
        reveal_strlit("s:");
        reveal_strlit("d:");
    }
    let ctype: &str = if subscribe {
        "subscribe"
    } else {
        "unsubscribe"
    };
    assert(ctype@ == if subscribe {
        subscribe_chars()
    } else {
        unsubscribe_chars()
    });
    let mut filters: Vec<String> = Vec::new();
    if no_local {
        let f = String::from_str("skip-self");
        assert(f@ =~= skip_self_chars());
        filters.push(f);
        assert(filters@.map_values(|f: String| f@) =~= seq![skip_self_chars()]);
    }
    let live = prefixed("s:", topic);
    let durable = prefixed("d:", topic);
    assert(live@ =~= live_channel(topic@));
    assert(durable@ =~= durable_channel(topic@));
    let a = ControlMessage {
        ctype: String::from_str(ctype),
        channel: Some(live),
        filters,
        name: None,
        value: None,
    };
    let b = ControlMessage {
        ctype: String::from_str(ctype),
        channel: Some(durable),
        filters: Vec::new(),
        name: None,
        value: None,
    };
    let mut r: Vec<ControlMessage> = Vec::new();
    r.push(a);
    r.push(b);
    assert(a.filters@.map_values(|f: String| f@) =~= if no_local {
        seq![skip_self_chars()]
    } else {
        Seq::<Seq<char>>::empty()
    });
    assert(b.filters@.map_values(|f: String| f@) =~= Seq::<Seq<char>>::empty());
    assert(control_models(r@) =~= channel_controls(ctype@, topic@, no_local));
    r
}

/// The message that sets the `user` metadata of the connection.
pub fn set_user_control(client_id: &str) -> (r: ControlMessage)
    ensures
        control_model(r) == (
            seq!['s', 'e', 't', '-', 'm', 'e', 't', 'a'],
            None::<Seq<char>>,
            Seq::<Seq<char>>::empty(),
            Some(seq!['u', 's', 'e', 'r']),
            Some(client_id@),
        ),
{
    proof {
        reveal_strlit("set-meta");
        reveal_strlit("user");
    }
    let r = ControlMessage {
        ctype: String::from_str("set-meta"),
        channel: None,
        filters: Vec::new(),
        name: Some(String::from_str("user")),
        value: Some(String::from_str(client_id)),
    };
    assert(r.filters@.map_values(|f: String| f@) =~= Seq::<Seq<char>>::empty());
    assert(r.ctype@ =~= seq!['s', 'e', 't', '-', 'm', 'e', 't', 'a']);
    assert(opt_chars(r.name) == Some(seq!['u', 's', 'e', 'r'])) by {
        assert("user"@ =~= seq!['u', 's', 'e', 'r']);
    }
    r
}

/// Why a proxy signature's issuer is refused.
#[derive(Debug, Clone, PartialEq, Eq)]
pub enum IssuerError {
    NoIssuer,
    ServiceMismatch(String),
}

/// The issuer the proxy signs with for a service: `fastly:<service id>`.
pub open spec fn expected_issuer(service_id: Seq<char>) -> Seq<char> {
    seq!['f', 'a', 's', 't', 'l', 'y', ':'] + service_id
}

/// Checks the issuer of a verified proxy signature against the service.
pub fn check_issuer(issuer: Option<String>, service_id: &str) -> (r: Result<(), IssuerError>)
    ensures
        match issuer {
            None => r == Err::<(), IssuerError>(IssuerError::NoIssuer),
            Some(i) => if i@ == expected_issuer(service_id@) {
                r is Ok
            } else {
                r matches Err(IssuerError::ServiceMismatch(x)) && x == i
            },
        },
{
    proof {
        reveal_strlit("fastly:");
        assert("fastly:"@ =~= seq!['f', 'a', 's', 't', 'l', 'y', ':']);
    }
    let issuer = match issuer {
        Some(i) => i,
        None => return Err(IssuerError::NoIssuer),
    };
    let mut expected = String::from_str("fastly:");
    expected.append(service_id);
    if str_eq(issuer.as_str(), expected.as_str()) {
        Ok(())
    } else {
        Err(IssuerError::ServiceMismatch(issuer))
    }
}

/// The JSON array of some strings.
pub open spec fn json_list(items: Seq<Seq<char>>) -> Seq<char>
    decreases items.len(),
{
    if items.len() == 0 {
        Seq::empty()
    } else {
        json_list(items.drop_last()) + (if items.len() > 1 {
            seq![',']
        } else {
            Seq::empty()
        }) + json_quoted(items.last())
    }
}

/// The JSON of a control message, fields in order, each absent one left out:
/// `{"type":..,"channel":..,"filters":[..],"name":..,"value":..}`.
pub open spec fn control_json(m: ControlModel) -> Seq<char> {
    let (ctype, channel, filters, name, value) = m;
    "{\"type\":"@ + json_quoted(ctype) + match channel {
        Some(c) => ",\"channel\":"@ + json_quoted(c),
        None => Seq::empty(),
    } + (if filters.len() > 0 {
        ",\"filters\":["@ + json_list(filters) + "]"@
    } else {
        Seq::empty()
    }) + match name {
        Some(n) => ",\"name\":"@ + json_quoted(n),
        None => Seq::empty(),
    } + match value {
        Some(v) => ",\"value\":"@ + json_quoted(v),
        None => Seq::empty(),
    } + "}"@
}

/// Writes the JSON of a control message.
pub fn control_message_json(c: &ControlMessage) -> (r: String)
    ensures
        r@ == control_json(control_model(*c)),
{
    let mut out = String::from_str("{\"type\":");
    out.append(json_quote(c.ctype.as_str()).as_str());
    if let Some(ch) = &c.channel {
        out.append(",\"channel\":");
        out.append(json_quote(ch.as_str()).as_str());
    }
    let ghost fm = c.filters@.map_values(|f: String| f@);
    if c.filters.len() > 0 {
        out.append(",\"filters\":[");
        let ghost start = out@;
        let mut i: usize = 0;
        while i < c.filters.len()
            invariant
                i <= c.filters@.len(),
                fm == c.filters@.map_values(|f: String| f@),
                out@ == start + json_list(fm.subrange(0, i as int)),
            decreases c.filters@.len() - i,
        {
            proof {
                reveal_strlit(",");
                assert(","@ =~= seq![',']);
                assert(fm.subrange(0, i + 1).drop_last() =~= fm.subrange(0, i as int));
                assert(fm.subrange(0, i + 1).last() == c.filters@[i as int]@);
            }
            if i > 0 {
                out.append(",");
            }
            out.append(json_quote(c.filters[i].as_str()).as_str());
            i = i + 1;
            assert(out@ =~= start + json_list(fm.subrange(0, i as int)));
        }
        assert(fm.subrange(0, i as int) =~= fm);
        out.append("]");
    }
    if let Some(n) = &c.name {
        out.append(",\"name\":");
        out.append(json_quote(n.as_str()).as_str());
    }
    if let Some(v) = &c.value {
        out.append(",\"value\":");
        out.append(json_quote(v.as_str()).as_str());
    }
    out.append("}");
    assert(out@ =~= control_json(control_model(*c)));
    out
}

} // verus!
