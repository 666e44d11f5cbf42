//! The SSE interface: subscribing (held open by the fronting proxy, resumed
//! from `Grip-Last`) and publishing over HTTP.

use vstd::prelude::*;
use vstd::utf8::encode_utf8;
use crate::auth::{AuthorizationError, Authorizor, Capabilities};
use crate::config::Config;
use crate::publish::{
    prev_id_chars, sequencing_for, sse_event, sse_event_text, PublishRequest, BASE64_INPUT_MAX,
    MESSAGE_SIZE_MAX,
};
use crate::storage::{RetainedSlot, RetainedVersion, Storage, StorageError};
use crate::mqtthandler::{SlotModel, grants, read_failed, version_of};
use crate::storage::slot_model;
use crate::text::{
    char_index, find_char, find_seq_from, push_char, seq_index, spec_parse_uint, str_eq,
    substring, trim_str, trimmed,
};
use crate::text::ascii_chars;
use crate::version::{Version, id_bytes, spec_parse_version};

verus! {

/// At most this many topics per subscription request.
pub const TOPICS_PER_REQUEST_MAX: usize = 10;

/// How long the proxy waits on the next link of a durable stream, in seconds.
pub const NEXT_TIMEOUT_SECS: usize = 120;

/// A lower-case hexadecimal digit.
pub open spec fn hex_digit_char(v: int) -> char {
    seq!['0', '1', '2', '3', '4', '5', '6', '7', '8', '9', 'a', 'b', 'c', 'd', 'e', 'f'][v]
}

/// How a JSON string writes one character: `"` and `\` escaped, the control
/// characters as `\b \t \n \f \r` or `\u00XX`, anything else as it is.
pub open spec fn json_char(c: char) -> Seq<char> {
    if c == '"' {
        seq!['\\', '"']
    } else if c == '\\' {
        seq!['\\', '\\']
    } else if c == '\u{8}' {
        seq!['\\', 'b']
    } else if c == '\t' {
        seq!['\\', 't']
    } else if c == '\n' {
        seq!['\\', 'n']
    } else if c == '\u{c}' {
        seq!['\\', 'f']
    } else if c == '\r' {
        seq!['\\', 'r']
    } else if (c as u32) < 0x20 {
        seq!['\\', 'u', '0', '0', hex_digit_char((c as u32) as int / 16), hex_digit_char((c as u32) as int % 16)]
    } else {
        seq![c]
    }
}

pub open spec fn json_chars(s: Seq<char>) -> Seq<char>
    decreases s.len(),
{
    if s.len() == 0 {
        Seq::empty()
    } else {
        json_chars(s.drop_last()) + json_char(s.last())
    }
}

/// What `serde_json` writes for a string: the characters, escaped, between
/// double quotes.
pub open spec fn json_quoted(s: Seq<char>) -> Seq<char> {
    seq!['"'] + json_chars(s) + seq!['"']
}

/// Relies on `serde_json::to_string` of a `&str`: a JSON string literal
/// escaped as `json_quoted` states (serde_json's escape table). Serializing a
/// string does not fail.
#[verifier::external_body]
pub(crate) fn json_quote(s: &str) -> (r: String)
    ensures
        r@ == json_quoted(s@),
{
    serde_json::to_string(s).unwrap_or_default()
}

/// A response to a subscription request: its headers, in order, and body.
/// No header and an empty body tell the proxy to close the stream.
pub struct SseResponse {
    pub headers: Vec<(String, String)>,
    pub body: String,
    /// The condition and text of a stream error, when the response is one.
    pub error: Ghost<Option<(Seq<char>, Seq<char>)>>,
}

/// The pieces of `s` between the characters `c`, in order; at least one.
pub open spec fn split_on(s: Seq<char>, c: char) -> Seq<Seq<char>>
    decreases s.len(),
{
    if s.len() == 0 {
        seq![Seq::empty()]
    } else {
        let p = split_on(s.drop_last(), c);
        if s.last() == c {
            p.push(Seq::empty())
        } else {
            p.update(p.len() - 1, p.last().push(s.last()))
        }
    }
}

proof fn lemma_split_nonempty(s: Seq<char>, c: char)
    ensures
        split_on(s, c).len() >= 1,
    decreases s.len(),
{
    if s.len() > 0 {
        lemma_split_nonempty(s.drop_last(), c);
    }
}

pub(crate) fn split_chars(s: &str, c: char) -> (r: Vec<String>)
    ensures
        r@.map_values(|x: String| x@) == split_on(s@, c),
{
    let n = s.unicode_len();
    let mut parts: Vec<String> = Vec::new();
    let mut cur = String::new();
    let mut i: usize = 0;
    while i < n
        invariant
            n == s@.len(),
            i <= n,
            parts@.map_values(|x: String| x@).push(cur@) == split_on(s@.subrange(0, i as int), c),
        decreases n - i,
    {
        let ch = s.get_char(i);
        let ghost pre = s@.subrange(0, i as int);
        proof {
            lemma_split_nonempty(pre, c);
            assert(s@.subrange(0, i + 1).drop_last() =~= pre);
            assert(s@.subrange(0, i + 1).last() == ch);
        }
        if ch == c {
            let done = cur;
            parts.push(done);
            cur = String::new();
            assert(parts@.map_values(|x: String| x@).push(cur@) =~= split_on(
                s@.subrange(0, i + 1),
                c,
            ));
        } else {
            let ghost pv = parts@.map_values(|x: String| x@);
            push_char(&mut cur, ch);
            assert(parts@.map_values(|x: String| x@).push(cur@) =~= split_on(
                s@.subrange(0, i + 1),
                c,
            ));
        }
        i = i + 1;
    }
    assert(s@.subrange(0, i as int) =~= s@);
    parts.push(cur);
    assert(parts@.map_values(|x: String| x@) =~= split_on(s@, c));
    parts
}

pub open spec fn last_id_chars() -> Seq<char> {
    seq!['l', 'a', 's', 't', '-', 'i', 'd', '=']
}

/// One entry of a `Grip-Last` header, `<channel>; last-id=<id>[; ...]`: the
/// channel and the id, each trimmed; `None` when it lacks `;` or `last-id=`.
pub open spec fn grip_entry(part: Seq<char>) -> Option<(Seq<char>, Seq<char>)> {
    match find_char(part, ';') {
        None => None,
        Some(pos) => {
            let params = part.subrange(pos + 1, part.len() as int);
            match find_seq_from(params, last_id_chars(), 0) {
                None => None,
                Some(q) => {
                    let rem = params.subrange(q + 8, params.len() as int);
                    let end = match find_char(rem, ';') {
                        Some(e) => e,
                        None => rem.len() as int,
                    };
                    Some((trimmed(part.subrange(0, pos)), trimmed(rem.subrange(0, end))))
                },
            }
        },
    }
}

fn parse_grip_entry(part: &str) -> (r: Option<(String, String)>)
    ensures
        match grip_entry(part@) {
            None => r is None,
            Some((ch, id)) => r matches Some((a, b)) && a@ == ch && b@ == id,
        },
{
    proof {
        reveal_strlit("last-id=");
        assert("last-id="@ =~= last_id_chars());
    }
    let pos = match char_index(part, ';') {
        Some(p) => p,
        None => return None,
    };
    let n = part.unicode_len();
    let channel = trim_str(substring(part, 0, pos).as_str());
    let params = substring(part, pos + 1, n);
    let q = match seq_index(params.as_str(), "last-id=") {
        Some(q) => q,
        None => return None,
    };
    let pn = params.as_str().unicode_len();
    let rem = substring(params.as_str(), q + 8, pn);
    let end = match char_index(rem.as_str(), ';') {
        Some(e) => e,
        None => rem.as_str().unicode_len(),
    };
    let id = trim_str(substring(rem.as_str(), 0, end).as_str());
    Some((channel, id))
}

/// The entries of a run of `Grip-Last` header values, each split at commas;
/// `None` when one entry cannot be read.
pub open spec fn grip_entries(values: Seq<Seq<char>>) -> Option<Seq<(Seq<char>, Seq<char>)>>
    decreases values.len(),
{
    if values.len() == 0 {
        Some(Seq::empty())
    } else {
        match (grip_entries(values.drop_last()), entries_of(split_on(values.last(), ','))) {
            (Some(a), Some(b)) => Some(a + b),
            _ => None,
        }
    }
}

/// The entries of the pieces of one header value.
pub open spec fn entries_of(parts: Seq<Seq<char>>) -> Option<Seq<(Seq<char>, Seq<char>)>>
    decreases parts.len(),
{
    if parts.len() == 0 {
        Some(Seq::empty())
    } else {
        match (entries_of(parts.drop_last()), grip_entry(parts.last())) {
            (Some(a), Some(e)) => Some(a.push(e)),
            _ => None,
        }
    }
}

pub open spec fn pair_models(v: Seq<(String, String)>) -> Seq<(Seq<char>, Seq<char>)> {
    v.map_values(|p: (String, String)| (p.0@, p.1@))
}

pub open spec fn string_models(v: Seq<String>) -> Seq<Seq<char>> {
    v.map_values(|s: String| s@)
}

/// A `Grip-Last` header that cannot be read.
#[derive(Debug, Clone, Copy)]
pub struct GripLastError;

/// Reads the `Grip-Last` header values into (channel, last id) entries.
pub fn parse_grip_last(values: &Vec<String>) -> (r: Result<Vec<(String, String)>, GripLastError>)
    ensures
        match grip_entries(string_models(values@)) {
            None => r is Err,
            Some(es) => r matches Ok(v) && pair_models(v@) == es,
        },
{
    let mut out: Vec<(String, String)> = Vec::new();
    let mut i: usize = 0;
    while i < values.len()
        invariant
            i <= values@.len(),
            grip_entries(string_models(values@.subrange(0, i as int))) == Some(pair_models(out@)),
        decreases values@.len() - i,
    {
        let parts = split_chars(values[i].as_str(), ',');
        let ghost ps = string_models(parts@);
        assert(parts@.map_values(|x: String| x@) == ps);
        let ghost before = pair_models(out@);
        let mut j: usize = 0;
        while j < parts.len()
            invariant
                j <= parts@.len(),
                i < values@.len(),
                ps == string_models(parts@),
                ps == split_on(values@[i as int]@, ','),
                entries_of(ps.subrange(0, j as int)) matches Some(e) && before + e == pair_models(
                    out@,
                ),
            decreases parts@.len() - j,
        {
            assert(ps.subrange(0, j + 1).drop_last() =~= ps.subrange(0, j as int));
            assert(ps.subrange(0, j + 1).last() == parts@[j as int]@);
            match parse_grip_entry(parts[j].as_str()) {
                Some(e) => {
                    let ghost prev = pair_models(out@);
                    out.push(e);
                    assert(pair_models(out@) =~= prev.push((e.0@, e.1@)));
                },
                None => {
                    proof {
                        lemma_entries_none_grow(ps, j as int);
                        assert(ps.subrange(0, ps.len() as int) =~= ps);
                        lemma_grip_entries_none(string_models(values@), i as int);
                    }
                    return Err(GripLastError);
                },
            }
            j = j + 1;
        }
        proof {
            assert(ps.subrange(0, j as int) =~= ps);
            let vs = string_models(values@);
            assert(string_models(values@.subrange(0, i + 1)).drop_last() =~= string_models(
                values@.subrange(0, i as int),
            ));
            assert(string_models(values@.subrange(0, i + 1)).last() == values@[i as int]@);
        }
        i = i + 1;
    }
    assert(values@.subrange(0, i as int) =~= values@);
    Ok(out)
}

proof fn lemma_entries_none_grow(ps: Seq<Seq<char>>, j: int)
    requires
        0 <= j < ps.len(),
        grip_entry(ps[j]) is None,
    ensures
        entries_of(ps) is None,
    decreases ps.len(),
{
    if j < ps.len() - 1 {
        lemma_entries_none_grow(ps.drop_last(), j);
    }
}

proof fn lemma_grip_entries_none(vs: Seq<Seq<char>>, i: int)
    requires
        0 <= i < vs.len(),
        entries_of(split_on(vs[i], ',')) is None,
    ensures
        grip_entries(vs) is None,
    decreases vs.len(),
{
    if i < vs.len() - 1 {
        lemma_grip_entries_none(vs.drop_last(), i);
    }
}

/// The body of an SSE `stream-error` event.
pub open spec fn error_body(condition: Seq<char>, text: Seq<char>) -> Seq<char> {
    seq![
        'e', 'v', 'e', 'n', 't', ':', ' ', 's', 't', 'r', 'e', 'a', 'm', '-', 'e', 'r', 'r', 'o',
        'r', '\n', 'd', 'a', 't', 'a', ':', ' ', '{',
    ] + json_quoted(seq!['c', 'o', 'n', 'd', 'i', 't', 'i', 'o', 'n']) + seq![':']
        + json_quoted(condition) + seq![','] + json_quoted(seq!['t', 'e', 'x', 't']) + seq![':']
        + json_quoted(text) + seq!['}', '\n', '\n']
}

/// An SSE `stream-error` event: its condition and text as a JSON object.
pub fn sse_error(condition: &str, text: &str) -> (r: SseResponse)
    ensures
        r.error@ == Some((condition@, text@)),
        r.body@ == error_body(condition@, text@),
        r.headers@.len() == 1,
{
    proof {
        reveal_strlit("event: stream-error\ndata: {");
        reveal_strlit("condition");
        reveal_strlit("text");
        reveal_strlit(":");
        reveal_strlit(",");
        reveal_strlit("}\n\n");
    }
    let mut body = String::from_str("event: stream-error\ndata: {");
    body.append(json_quote("condition").as_str());
    body.append(":");
    body.append(json_quote(condition).as_str());
    body.append(",");
    body.append(json_quote("text").as_str());
    body.append(":");
    body.append(json_quote(text).as_str());
    body.append("}\n\n");
    assert("condition"@ =~= seq!['c', 'o', 'n', 'd', 'i', 't', 'i', 'o', 'n']);
    assert("text"@ =~= seq!['t', 'e', 'x', 't']);
    assert(body@ =~= error_body(condition@, text@));
    let mut headers: Vec<(String, String)> = Vec::new();
    headers.push((String::from_str("Content-Type"), String::from_str("text/event-stream")));
    SseResponse { headers, body, error: Ghost(Some((condition@, text@))) }
}

/// How a bearer credential is missing or malformed.
#[derive(Debug, Clone, Copy, PartialEq, Eq, Structural)]
pub enum BearerError {
    /// No space between scheme and value.
    Invalid,
    /// A scheme other than `Bearer`.
    Scheme,
}

pub open spec fn bearer_chars() -> Seq<char> {
    seq!['B', 'e', 'a', 'r', 'e', 'r']
}

/// The token of an `Authorization` header `Bearer <token>`.
pub open spec fn spec_bearer(h: Seq<char>) -> Result<Seq<char>, BearerError> {
    match find_char(h, ' ') {
        None => Err(BearerError::Invalid),
        Some(pos) => if h.subrange(0, pos) != bearer_chars() {
            Err(BearerError::Scheme)
        } else {
            Ok(h.subrange(pos + 1, h.len() as int))
        },
    }
}

pub fn bearer_token(h: &str) -> (r: Result<(String, String), BearerError>)
    ensures
        match spec_bearer(h@) {
            Ok(t) => r matches Ok((_, tok)) && tok@ == t,
            Err(e) => r matches Err(e2) && e2 == e,
        },
        r matches Err(BearerError::Scheme) ==> find_char(h@, ' ') is Some,
{
    proof {
        reveal_strlit("Bearer");
        assert("Bearer"@ =~= bearer_chars());
    }
    let pos = match char_index(h, ' ') {
        Some(p) => p,
        None => return Err(BearerError::Invalid),
    };
    let n = h.unicode_len();
    let scheme = substring(h, 0, pos);
    let value = substring(h, pos + 1, n);
    if !str_eq(scheme.as_str(), "Bearer") {
        return Err(BearerError::Scheme);
    }
    Ok((scheme, value))
}

/// A subscription request, as read from its query and headers.
pub struct GetRequest {
    /// The values of the `Grip-Last` headers.
    pub grip_last: Vec<String>,
    /// The `topic` parameters, in order.
    pub topics: Vec<String>,
    /// The `lastEventId` parameter, else the `Last-Event-ID` header.
    pub last_event_id: Option<String>,
    /// Whether `durable=true` was asked.
    pub durable: bool,
    /// The `auth` parameter.
    pub auth: Option<String>,
    /// The `Authorization` header.
    pub authorization: Option<String>,
}

fn empty_response() -> (r: SseResponse)
    ensures
        r.headers@.len() == 0,
        r.body@.len() == 0,
        r.error@ is None,
{
    SseResponse { headers: Vec::new(), body: String::new(), error: Ghost(None) }
}

fn topic_index(topics: &Vec<(String, Option<Version>)>, topic: &str) -> (r: Option<usize>)
    ensures
        r matches Some(i) ==> i < topics@.len() && topics@[i as int].0@ == topic@,
        r is None ==> forall|i: int| 0 <= i < topics@.len() ==> (#[trigger] topics@[i]).0@ != topic@,
        first_topic(topic_models(topics@), topic@) == match r {
            Some(i) => Some(i as int),
            None => None::<int>,
        },
{
    let mut i: usize = 0;
    while i < topics.len()
        invariant
            i <= topics@.len(),
            forall|k: int| 0 <= k < i ==> (#[trigger] topics@[k]).0@ != topic@,
            first_topic(topic_models(topics@), topic@) == first_topic_from(
                topic_models(topics@),
                topic@,
                i as int,
            ),
        decreases topics@.len() - i,
    {
        if str_eq(topics[i].0.as_str(), topic) {
            return Some(i);
        }
        i = i + 1;
    }
    None
}

/// The first index of the topic `t` in `ts`, looking from `i` on.
pub open spec fn first_topic_from(ts: Seq<TopicModel>, t: Seq<char>, i: int) -> Option<int>
    decreases ts.len() - i,
{
    if i < 0 || i >= ts.len() {
        None
    } else if ts[i].0 == t {
        Some(i)
    } else {
        first_topic_from(ts, t, i + 1)
    }
}

pub open spec fn first_topic(ts: Seq<TopicModel>, t: Seq<char>) -> Option<int> {
    first_topic_from(ts, t, 0)
}

/// `ts` with the version of `t` set to `v`, adding `t` at the end when it is
/// new.
pub open spec fn put_model(ts: Seq<TopicModel>, t: Seq<char>, v: Option<Version>) -> Seq<TopicModel> {
    match first_topic(ts, t) {
        Some(i) => ts.update(i, (t, v)),
        None => ts.push((t, v)),
    }
}

/// `ts` with the version of `t` set to `v` when `t` is there.
pub open spec fn set_model(ts: Seq<TopicModel>, t: Seq<char>, v: Version) -> Seq<TopicModel> {
    match first_topic(ts, t) {
        Some(i) => ts.update(i, (t, Some(v))),
        None => ts,
    }
}

/// The names of the topics.
pub open spec fn topic_names(ts: Seq<TopicModel>) -> Seq<Seq<char>> {
    ts.map_values(|t: TopicModel| t.0)
}

/// The names with `t` added at the end unless it is there.
pub open spec fn with_topic(names: Seq<Seq<char>>, t: Seq<char>) -> Seq<Seq<char>> {
    if names.contains(t) {
        names
    } else {
        names.push(t)
    }
}

/// The distinct topics of a request, in the order they first come.
pub open spec fn distinct_topics(topics: Seq<Seq<char>>) -> Seq<Seq<char>>
    decreases topics.len(),
{
    if topics.len() == 0 {
        Seq::empty()
    } else {
        with_topic(distinct_topics(topics.drop_last()), topics.last())
    }
}

/// Sets the version of `topic`, adding the topic when it is new.
fn put_topic(topics: &mut Vec<(String, Option<Version>)>, topic: String, v: Option<Version>)
    ensures
        final(topics)@.len() >= old(topics)@.len(),
        final(topics)@.len() <= old(topics)@.len() + 1,
        final(topics)@.len() >= 1,
        topic_names(topic_models(final(topics)@)) == with_topic(
            topic_names(topic_models(old(topics)@)),
            topic@,
        ),
        topic_models(final(topics)@) == put_model(topic_models(old(topics)@), topic@, v),
{
    let ghost names = topic_names(topic_models(topics@));
    let ghost t = topic@;
    match topic_index(topics, topic.as_str()) {
        Some(i) => {
            let ghost before = topic_models(topics@);
            topics.set(i, (topic, v));
            assert(names[i as int] == t);
            assert(names.contains(t));
            assert(topic_names(topic_models(topics@)) =~= names);
            assert(topic_models(topics@) =~= before.update(i as int, (t, v)));
        },
        None => {
            topics.push((topic, v));
            assert(!names.contains(t)) by {
                if names.contains(t) {
                    let k = choose|k: int| 0 <= k < names.len() && names[k] == t;
                    assert(old(topics)@[k].0@ == t);
                }
            }
            assert(topic_names(topic_models(topics@)) =~= names.push(t));
            assert(topic_models(topics@) =~= topic_models(old(topics)@).push((t, v)));
        },
    }
}

fn header(name: &str, value: String) -> (r: (String, String))
    ensures
        r.0@ == name@,
        r.1@ == value@,
{
    (String::from_str(name), value)
}

/// A topic of a stream and the version last seen on it, as values.
pub type TopicModel = (Seq<char>, Option<Version>);

pub open spec fn topic_models(t: Seq<(String, Option<Version>)>) -> Seq<TopicModel> {
    t.map_values(|e: (String, Option<Version>)| (e.0@, e.1))
}

pub open spec fn header_models(h: Seq<(String, String)>) -> Seq<(Seq<char>, Seq<char>)> {
    h.map_values(|e: (String, String)| (e.0@, e.1@))
}

/// The id a durable channel resumes from: the version's, or `none`.
pub open spec fn prev_id(v: Option<Version>) -> Seq<char> {
    match v {
        Some(x) => ascii_chars(id_bytes(x.generation, x.seq)),
        None => seq!['n', 'o', 'n', 'e'],
    }
}

pub open spec fn grip_channel_chars() -> Seq<char> {
    seq!['G', 'r', 'i', 'p', '-', 'C', 'h', 'a', 'n', 'n', 'e', 'l']
}

/// The channel headers of the topics: the live channel of each, and for a
/// durable stream its durable channel with the id to resume from.
pub open spec fn topic_headers(ts: Seq<TopicModel>, durable: bool) -> Seq<(Seq<char>, Seq<char>)>
    decreases ts.len(),
{
    if ts.len() == 0 {
        Seq::empty()
    } else {
        let (t, v) = ts.last();
        topic_headers(ts.drop_last(), durable) + seq![(grip_channel_chars(), seq!['s', ':'] + t)]
            + if durable {
            seq![
                (
                    grip_channel_chars(),
                    seq!['d', ':'] + t + seq![';', ' ', 'p', 'r', 'e', 'v', '-', 'i', 'd', '=']
                        + prev_id(v),
                ),
            ]
        } else {
            Seq::empty()
        }
    }
}

/// The fixed headers of a stream: content type, hold and keep-alive.
pub open spec fn fixed_headers() -> Seq<(Seq<char>, Seq<char>)> {
    seq![
        ("Content-Type"@, "text/event-stream"@),
        ("Grip-Hold"@, "stream"@),
        ("Grip-Keep-Alive"@, "event: keep-alive\\ndata: \\n\\n; format=cstring; timeout=55"@),
    ]
}

/// The link header of a durable stream.
pub open spec fn link_header() -> (Seq<char>, Seq<char>) {
    ("Grip-Link"@, "</events?durable=true>; rel=next; timeout=120"@)
}

/// The headers of an open stream.
pub open spec fn stream_header_models(ts: Seq<TopicModel>, durable: bool) -> Seq<
    (Seq<char>, Seq<char>),
> {
    fixed_headers() + topic_headers(ts, durable) + if durable {
        seq![link_header()]
    } else {
        Seq::empty()
    }
}

/// The headers of an open stream: its content type, the hold and keep-alive
/// directives, for each topic its live channel (and its durable channel with
/// the last id seen, `none` when none was), and for a durable stream the link
/// to the next request.
pub fn stream_headers(topics: &Vec<(String, Option<Version>)>, durable: bool) -> (r: Vec<
    (String, String),
>)
    ensures
        header_models(r@) == stream_header_models(topic_models(topics@), durable),
{
    proof {
        reveal_strlit("s:");
        reveal_strlit("d:");
        reveal_strlit("; prev-id=");
        reveal_strlit("none");
        reveal_strlit("Grip-Channel");
    }
    let mut h: Vec<(String, String)> = Vec::new();
    h.push(header("Content-Type", String::from_str("text/event-stream")));
    h.push(header("Grip-Hold", String::from_str("stream")));
    h.push(
        header(
            "Grip-Keep-Alive",
            String::from_str("event: keep-alive\\ndata: \\n\\n; format=cstring; timeout=55"),
        ),
    );
    assert(header_models(h@) =~= fixed_headers());
    let mut i: usize = 0;
    while i < topics.len()
        invariant
            i <= topics@.len(),
            header_models(h@) == fixed_headers() + topic_headers(
                topic_models(topics@.subrange(0, i as int)),
                durable,
            ),
        decreases topics@.len() - i,
    {
        proof {
            reveal_strlit("s:");
            reveal_strlit("d:");
            reveal_strlit("; prev-id=");
            reveal_strlit("none");
            reveal_strlit("Grip-Channel");
            assert("Grip-Channel"@ =~= grip_channel_chars());
            assert("none"@ =~= seq!['n', 'o', 'n', 'e']);
        }
        let ghost before = header_models(h@);
        let mut live = String::from_str("s:");
        live.append(topics[i].0.as_str());
        h.push(header("Grip-Channel", live));
        if durable {
            let prev = match &topics[i].1 {
                Some(v) => v.as_id(),
                None => String::from_str("none"),
            };
            let mut d = String::from_str("d:");
            d.append(topics[i].0.as_str());
            d.append("; prev-id=");
            d.append(prev.as_str());
            h.push(header("Grip-Channel", d));
        }
        proof {
            let tm = topic_models(topics@.subrange(0, i + 1));
            let t = topics@[i as int].0@;
            let v = topics@[i as int].1;
            assert(tm.drop_last() =~= topic_models(topics@.subrange(0, i as int)));
            assert(tm.last() == (t, v));
            assert("; prev-id="@ =~= seq![';', ' ', 'p', 'r', 'e', 'v', '-', 'i', 'd', '=']);
            assert("s:"@ =~= seq!['s', ':']);
            assert("d:"@ =~= seq!['d', ':']);
            let piece = seq![(grip_channel_chars(), seq!['s', ':'] + t)] + if durable {
                seq![
                    (
                        grip_channel_chars(),
                        seq!['d', ':'] + t + seq![';', ' ', 'p', 'r', 'e', 'v', '-', 'i', 'd', '=']
                            + prev_id(v),
                    ),
                ]
            } else {
                Seq::empty()
            };
            assert(topic_headers(tm, durable) == topic_headers(tm.drop_last(), durable) + piece);
            assert(header_models(h@) =~= before + piece);
            assert(header_models(h@) =~= fixed_headers() + topic_headers(tm, durable));
        }
        i = i + 1;
    }
    assert(topics@.subrange(0, i as int) =~= topics@);
    if durable {
        let ghost before = header_models(h@);
        h.push(header("Grip-Link", String::from_str("</events?durable=true>; rel=next; timeout=120")));
        assert(header_models(h@) =~= before.push(link_header()));
    }
    assert(header_models(h@) =~= stream_header_models(topic_models(topics@), durable));
    h
}


/// The id of an SSE event: `topic:id` for each topic whose version is known,
/// joined by commas.
pub open spec fn event_id_chars(ts: Seq<TopicModel>) -> Seq<char>
    decreases ts.len(),
{
    if ts.len() == 0 {
        Seq::empty()
    } else {
        let head = event_id_chars(ts.drop_last());
        match ts.last().1 {
            None => head,
            Some(v) => (if head.len() == 0 {
                head
            } else {
                head + seq![',']
            }) + ts.last().0 + seq![':'] + ascii_chars(id_bytes(v.generation, v.seq)),
        }
    }
}

fn event_id(topics: &Vec<(String, Option<Version>)>) -> (r: String)
    ensures
        r@ == event_id_chars(topic_models(topics@)),
{
    proof {
        reveal_strlit(",");
        reveal_strlit(":");
    }
    let mut out = String::new();
    let mut i: usize = 0;
    while i < topics.len()
        invariant
            i <= topics@.len(),
            out@ == event_id_chars(topic_models(topics@.subrange(0, i as int))),
        decreases topics@.len() - i,
    {
        proof {
            let tm = topic_models(topics@.subrange(0, i + 1));
            assert(tm.drop_last() =~= topic_models(topics@.subrange(0, i as int)));
            assert(tm.last() == (topics@[i as int].0@, topics@[i as int].1));
            reveal_strlit(",");
            reveal_strlit(":");
            assert(","@ =~= seq![',']);
            assert(":"@ =~= seq![':']);
        }
        if let Some(v) = &topics[i].1 {
            if out.as_str().unicode_len() > 0 {
                out.append(",");
            }
            out.append(topics[i].0.as_str());
            out.append(":");
            out.append(v.as_id().as_str());
        }
        i = i + 1;
        assert(out@ =~= event_id_chars(topic_models(topics@.subrange(0, i as int))));
    }
    assert(topics@.subrange(0, i as int) =~= topics@);
    out
}

/// One topic's part of a durable stream's backlog, given what reading its
/// slot after its resume point gave: a storage failure (other than a missing
/// store) is an `internal-server-error` stream error; a slot read moves the
/// topic's version to the slot's and, with a payload, gives an SSE message
/// whose id lists every known version; nothing read changes nothing.
pub fn backlog_step(
    topics: &mut Vec<(String, Option<Version>)>,
    i: usize,
    read: Result<Option<RetainedSlot>, StorageError>,
) -> (r: Result<Option<String>, SseResponse>)
    requires
        i < old(topics)@.len(),
    ensures
        match read_outcome(read) {
            None => r is Err && final(topics)@ == old(topics)@,
            Some(None) => r == Ok::<Option<String>, SseResponse>(None) && final(topics)@ == old(
                topics,
            )@,
            Some(Some((v, msg))) => topic_models(final(topics)@) == topic_models(old(topics)@).update(
                i as int,
                (old(topics)@[i as int].0@, Some(version_of(v))),
            ) && (r matches Ok(o) && (match o {
                Some(ev) => ev@,
                None => Seq::empty(),
            }) == backlog_event(msg, topic_models(final(topics)@))),
        },
        r matches Err(e) ==> e.error@ == Some(
            ("internal-server-error"@, "Failed to read message from storage"@),
        ),
        read_failed(read) ==> (r matches Err(e) && e.body@ == error_body(
            "internal-server-error"@,
            "Failed to read message from storage"@,
        ) && e.headers@.len() == 1) && final(topics)@ == old(topics)@,
        match read {
            Ok(Some(s)) => topic_models(final(topics)@) == topic_models(old(topics)@).update(
                i as int,
                (old(topics)@[i as int].0@, Some(Version { generation: s.version.generation, seq: s.version.seq })),
            ) && match s.message {
                Some(m) => if m.data@.len() <= BASE64_INPUT_MAX {
                    r matches Ok(Some(ev)) && ev@ == sse_event(
                        m.data@,
                        Some(event_id_chars(topic_models(final(topics)@))),
                    )
                } else {
                    r == Ok::<Option<String>, SseResponse>(None)
                },
                None => r == Ok::<Option<String>, SseResponse>(None),
            },
            Ok(None) | Err(StorageError::StoreNotFound) => r == Ok::<Option<String>, SseResponse>(
                None,
            ) && final(topics)@ == old(topics)@,
            _ => true,
        },
        topic_names(topic_models(final(topics)@)) == topic_names(topic_models(old(topics)@)),
        final(topics)@.len() == old(topics)@.len(),
{
    match read {
        Ok(Some(slot)) => {
            let v = Version { generation: slot.version.generation, seq: slot.version.seq };
            let topic = topics[i].0.clone();
            let ghost names = topic_names(topic_models(topics@));
            let ghost before = topic_models(topics@);
            topics.set(i, (topic, Some(v)));
            assert(topic_names(topic_models(topics@)) =~= names);
            assert(topic_models(topics@) =~= before.update(i as int, (before[i as int].0, Some(v))));
            match slot.message {
                Some(message) => if message.data.len() <= BASE64_INPUT_MAX {
                    let id = event_id(topics);
                    Ok(Some(sse_event_text(message.data.as_slice(), Some(id.as_str()))))
                } else {
                    Ok(None)
                },
                None => Ok(None),
            }
        },
        Ok(None) => Ok(None),
        Err(StorageError::StoreNotFound) => Ok(None),
        Err(_) => Err(sse_error("internal-server-error", "Failed to read message from storage")),
    }
}

/// Whether one part of a `Last-Event-ID` value reads: `topic:id` with a
/// version id after the first colon.
pub open spec fn leid_part_ok(part: Seq<char>) -> bool {
    find_char(part, ':') matches Some(pos) && spec_parse_version(
        encode_utf8(part.subrange(pos + 1, part.len() as int)),
    ) is Some
}

/// Whether a `Last-Event-ID` value reads: each comma-separated part does.
pub open spec fn leid_ok(value: Seq<char>) -> bool {
    forall|i: int| 0 <= i < split_on(value, ',').len() ==> leid_part_ok(
        #[trigger] split_on(value, ',')[i],
    )
}

/// The topic of a `Last-Event-ID` part: what comes before its first colon.
pub open spec fn leid_part_topic(part: Seq<char>) -> Seq<char> {
    match find_char(part, ':') {
        Some(pos) => part.subrange(0, pos),
        None => part,
    }
}

/// The version of a `Last-Event-ID` part that reads.
pub open spec fn leid_part_version(part: Seq<char>) -> Version {
    match find_char(part, ':') {
        Some(pos) => match spec_parse_version(encode_utf8(part.subrange(pos + 1, part.len() as int))) {
            Some(v) => v,
            None => Version { generation: 0, seq: 0 },
        },
        None => Version { generation: 0, seq: 0 },
    }
}

/// The topics with the resume points of `Last-Event-ID` parts applied in
/// order; a part whose topic is not listed is skipped.
pub open spec fn leid_topics(ts: Seq<TopicModel>, parts: Seq<Seq<char>>) -> Seq<TopicModel>
    decreases parts.len(),
{
    if parts.len() == 0 {
        ts
    } else {
        set_model(
            leid_topics(ts, parts.drop_last()),
            leid_part_topic(parts.last()),
            leid_part_version(parts.last()),
        )
    }
}

/// Reads the resume points of a `Last-Event-ID` value, `topic:id,...`, into
/// the topics listed; an unknown topic is skipped. `Err` holds the stream
/// error for a part without `:` or with an id that is not a version.
fn apply_last_event_id(topics: &mut Vec<(String, Option<Version>)>, value: &str) -> (r: Result<
    (),
    SseResponse,
>)
    ensures
        final(topics)@.len() == old(topics)@.len(),
        topic_names(topic_models(final(topics)@)) == topic_names(topic_models(old(topics)@)),
        r matches Err(e) ==> e.headers@.len() == 1 && exists|t: Seq<char>|
            e.body@ == #[trigger] error_body("bad-request"@, t),
        r is Err <==> !leid_ok(value@),
        r matches Err(e) ==> (e.error@ matches Some((c, t)) && c == "bad-request"@ && t.len() > 15),
        r is Ok ==> topic_models(final(topics)@) == leid_topics(
            topic_models(old(topics)@),
            split_on(value@, ','),
        ),
{
    proof {
        reveal_strlit("bad-request");
        reveal_strlit("Last-Event-ID part missing ':'\n");
        reveal_strlit("Last-Event-ID part not a valid version: [");
    }
    let parts = split_chars(value, ',');
    assert(split_on(value@, ',').subrange(0, 0) =~= Seq::<Seq<char>>::empty());
    let mut i: usize = 0;
    while i < parts.len()
        invariant
            i <= parts@.len(),
            topics@.len() == old(topics)@.len(),
            topic_names(topic_models(topics@)) == topic_names(topic_models(old(topics)@)),
            parts@.map_values(|x: String| x@) == split_on(value@, ','),
            forall|j: int| 0 <= j < i ==> leid_part_ok(#[trigger] split_on(value@, ',')[j]),
            topic_models(topics@) == leid_topics(
                topic_models(old(topics)@),
                split_on(value@, ',').subrange(0, i as int),
            ),
        decreases parts@.len() - i,
    {
        let ghost pm = split_on(value@, ',')[i as int];
        assert(parts@[i as int]@ == pm);
        let part = parts[i].as_str();
        let pos = match char_index(part, ':') {
            Some(p) => p,
            None => {
                assert(!leid_part_ok(pm));
                proof {
                    reveal_strlit("Last-Event-ID part missing ':'\n");
                }
                return Err(sse_error("bad-request", "Last-Event-ID part missing ':'\n"));
            },
        };
        let n = part.unicode_len();
        let topic = substring(part, 0, pos);
        let vtext = substring(part, pos + 1, n);
        let v = match Version::parse(vtext.as_str()) {
            Ok(v) => v,
            Err(_) => {
                assert(vtext@ == pm.subrange(pos + 1, pm.len() as int));
                assert(!leid_part_ok(pm));
                proof {
                    reveal_strlit("Last-Event-ID part not a valid version: [");
                }
                let mut text = String::from_str("Last-Event-ID part not a valid version: [");
                text.append(vtext.as_str());
                text.append("]\n");
                return Err(sse_error("bad-request", text.as_str()));
            },
        };
        let ghost tb = topic_models(topics@);
        proof {
            let sp = split_on(value@, ',');
            assert(sp.subrange(0, i + 1).drop_last() =~= sp.subrange(0, i as int));
            assert(sp.subrange(0, i + 1).last() == pm);
            assert(vtext@ == pm.subrange(pos + 1, pm.len() as int));
            assert(topic@ == leid_part_topic(pm));
            assert(v == leid_part_version(pm));
        }
        if let Some(k) = topic_index(topics, topic.as_str()) {
            let ghost names = topic_names(topic_models(topics@));
            topics.set(k, (topic, Some(v)));
            assert(topic_names(topic_models(topics@)) =~= names);
            assert(topic_models(topics@) =~= tb.update(k as int, (leid_part_topic(pm), Some(v))));
        }
        assert(leid_part_ok(pm)) by {
            assert(vtext@ == pm.subrange(pos + 1, pm.len() as int));
        }
        i = i + 1;
    }
    assert(split_on(value@, ',').subrange(0, i as int) =~= split_on(value@, ','));
    assert(leid_ok(value@)) by {
        assert(parts@.map_values(|x: String| x@).len() == parts@.len());
    }
    Ok(())
}

/// The body of an open stream before its backlog.
pub open spec fn stream_open_chars() -> Seq<char> {
    seq![
        'e', 'v', 'e', 'n', 't', ':', ' ', 's', 't', 'r', 'e', 'a', 'm', '-', 'o', 'p', 'e', 'n',
        '\n', 'd', 'a', 't', 'a', ':', ' ', '\n', '\n',
    ]
}

/// Whether `s` starts with `d:`.
fn durable_topic(channel: &str) -> (r: Option<String>)
    ensures
        r matches Some(t) ==> channel@.len() >= 2 && channel@[0] == 'd' && channel@[1] == ':'
            && t@ == channel@.subrange(2, channel@.len() as int),
        r is None ==> !(channel@.len() >= 2 && channel@[0] == 'd' && channel@[1] == ':'),
{
    let n = channel.unicode_len();
    if n >= 2 && channel.get_char(0) == 'd' && channel.get_char(1) == ':' {
        Some(substring(channel, 2, n))
    } else {
        None
    }
}

/// Whether a channel is a durable one, `d:<topic>`.
pub open spec fn durable_chan(c: Seq<char>) -> bool {
    c.len() >= 2 && c[0] == 'd' && c[1] == ':'
}

/// Whether a resume id reads: `none`, or a version id.
pub open spec fn resume_id_ok(id: Seq<char>) -> bool {
    id == seq!['n', 'o', 'n', 'e'] || spec_parse_version(encode_utf8(id)) is Some
}

/// Whether `Grip-Last` headers close the stream: they name no durable
/// channel, or a durable channel with an id that does not read.
pub open spec fn resume_closes(values: Seq<String>) -> bool {
    values.len() > 0 && (grip_entries(string_models(values)) matches Some(es) && ((forall|i: int|
        0 <= i < es.len() ==> !durable_chan(#[trigger] es[i].0)) || (exists|i: int|
        0 <= i < es.len() && durable_chan(#[trigger] es[i].0) && !resume_id_ok(es[i].1))))
}

/// Whether a new stream request fails one of the checks before its topics
/// are authorized: a `Last-Event-ID` that does not read, or a credential
/// that is missing or not a bearer token.
pub open spec fn open_checks_fail(req: GetRequest, admin: bool) -> bool {
    ||| (req.grip_last@.len() == 0 && 0 < distinct_topics(string_models(req.topics@)).len()
            <= TOPICS_PER_REQUEST_MAX && (req.last_event_id matches Some(x) && !leid_ok(x@)))
    ||| (req.grip_last@.len() == 0 && !admin && 0 < distinct_topics(
            string_models(req.topics@),
        ).len() <= TOPICS_PER_REQUEST_MAX && (req.last_event_id matches Some(x) ==> leid_ok(x@))
            && req.auth is None && (req.authorization matches Some(h) && spec_bearer(h@) is Err))
    ||| (req.grip_last@.len() == 0 && !admin && 0 < distinct_topics(
            string_models(req.topics@),
        ).len() <= TOPICS_PER_REQUEST_MAX && (req.last_event_id matches Some(x) ==> leid_ok(x@))
            && req.auth is None && req.authorization is None)
}

/// The topics of a new stream, distinct, in the order they first come, none
/// with a version yet.
pub open spec fn open_topics(names: Seq<Seq<char>>) -> Seq<TopicModel>
    decreases names.len(),
{
    if names.len() == 0 {
        Seq::empty()
    } else {
        put_model(open_topics(names.drop_last()), names.last(), None)
    }
}

/// The version a resume id names: none for `none`.
pub open spec fn resume_version(id: Seq<char>) -> Option<Version> {
    if id == seq!['n', 'o', 'n', 'e'] {
        None
    } else {
        spec_parse_version(encode_utf8(id))
    }
}

/// The topics of a resumed stream: one for each durable channel, with the
/// version of its last id (a later entry for a topic replaces an earlier).
pub open spec fn resume_topics(es: Seq<(Seq<char>, Seq<char>)>) -> Seq<TopicModel>
    decreases es.len(),
{
    if es.len() == 0 {
        Seq::empty()
    } else {
        let ts = resume_topics(es.drop_last());
        let c = es.last().0;
        if durable_chan(c) {
            put_model(ts, c.subrange(2, c.len() as int), resume_version(es.last().1))
        } else {
            ts
        }
    }
}

/// The topics a request names, before `Last-Event-ID` is applied.
pub open spec fn start_topics(req: GetRequest) -> Seq<TopicModel> {
    if req.grip_last@.len() > 0 {
        match grip_entries(string_models(req.grip_last@)) {
            Some(es) => resume_topics(es),
            None => Seq::empty(),
        }
    } else {
        open_topics(string_models(req.topics@))
    }
}

/// The topics of a stream with their resume points.
pub open spec fn initial_topics(req: GetRequest) -> Seq<TopicModel> {
    if req.grip_last@.len() == 0 && req.last_event_id is Some {
        leid_topics(start_topics(req), split_on(req.last_event_id.unwrap()@, ','))
    } else {
        start_topics(req)
    }
}

/// What reading a slot gave, as values: `None` for a storage failure (a
/// missing store reads as no slot).
pub type ReadModel = Option<Option<SlotModel>>;

pub open spec fn read_outcome(read: Result<Option<RetainedSlot>, StorageError>) -> ReadModel {
    match read {
        Ok(Some(s)) => Some(Some(slot_model(s))),
        Ok(None) => Some(None),
        Err(StorageError::StoreNotFound) => Some(None),
        Err(_) => None,
    }
}

/// The SSE message of a retained payload read, its id listing the versions
/// of `ts`; nothing without a payload (or with one too large to encode).
pub open spec fn backlog_event(msg: Option<(Option<u64>, Seq<u8>)>, ts: Seq<TopicModel>) -> Seq<char> {
    match msg {
        Some((_, data)) => if data.len() <= BASE64_INPUT_MAX {
            sse_event(data, Some(event_id_chars(ts)))
        } else {
            Seq::empty()
        },
        None => Seq::empty(),
    }
}

/// The topics and messages of a durable stream after the first `n` reads,
/// one per topic in order, or `None` once one failed: a slot read moves its
/// topic's version to the slot's and adds its message.
pub open spec fn backlog_upto(init: Seq<TopicModel>, reads: Seq<ReadModel>, n: nat) -> Option<
    (Seq<TopicModel>, Seq<char>),
>
    decreases n,
{
    if n == 0 {
        Some((init, Seq::empty()))
    } else {
        match backlog_upto(init, reads, (n - 1) as nat) {
            None => None,
            Some((ts, ev)) => match reads[n - 1] {
                None => None,
                Some(None) => Some((ts, ev)),
                Some(Some((v, msg))) => {
                    let ts2 = ts.update(n - 1, (ts[n - 1].0, Some(version_of(v))));
                    Some((ts2, ev + backlog_event(msg, ts2)))
                },
            },
        }
    }
}

/// What reading one slot adds to the backlog, as `backlog_upto` counts it.
pub open spec fn backlog_event_of(ro: ReadModel, ts: Seq<TopicModel>) -> Seq<char> {
    match ro {
        Some(Some((_, msg))) => backlog_event(msg, ts),
        _ => Seq::empty(),
    }
}

proof fn lemma_backlog_prefix(init: Seq<TopicModel>, a: Seq<ReadModel>, b: Seq<ReadModel>, n: nat)
    requires
        n <= a.len(),
        n <= b.len(),
        a.subrange(0, n as int) == b.subrange(0, n as int),
    ensures
        backlog_upto(init, a, n) == backlog_upto(init, b, n),
    decreases n,
{
    if n > 0 {
        assert(a.subrange(0, n - 1) =~= b.subrange(0, n - 1)) by {
            assert forall|k: int| 0 <= k < n - 1 implies a[k] == b[k] by {
                assert(a.subrange(0, n as int)[k] == b.subrange(0, n as int)[k]);
            }
        }
        lemma_backlog_prefix(init, a, b, (n - 1) as nat);
        assert(a[n - 1] == a.subrange(0, n as int)[n - 1]);
        assert(b[n - 1] == b.subrange(0, n as int)[n - 1]);
    }
}

/// A stream response: its headers from the final topics and its body, the
/// stream-open event (for a new stream) then the backlog, as the reads give
/// them; for a stream that is not durable, no reads.
pub open spec fn stream_from(
    init: Seq<TopicModel>,
    reads: Seq<ReadModel>,
    req: GetRequest,
    headers: Seq<(Seq<char>, Seq<char>)>,
    body: Seq<char>,
) -> bool {
    &&& reads.len() == (if req.durable {
        init.len()
    } else {
        0
    })
    &&& backlog_upto(init, reads, reads.len()) matches Some((tf, evs))
    &&& headers == stream_header_models(tf, req.durable)
    &&& body == (if req.grip_last@.len() == 0 {
        stream_open_chars()
    } else {
        Seq::<char>::empty()
    }) + evs
}

/// Handles a subscription request. A `Grip-Last` header that cannot be read,
/// a resume with no durable channel or with an id that is not a version,
/// closes the stream. A new stream without topic, or with too many, gets a
/// `bad-request` stream error; so do a malformed `Last-Event-ID` and a
/// credential of another scheme. Resumes and admin requests may read every
/// topic; others need a token that grants each. A durable stream replays the
/// retained message of each topic newer than its resume point.
#[verifier::rlimit(100)]
#[verifier::spinoff_prover]
pub fn get<A: Authorizor, S: Storage>(
    admin: bool,
    config: &Config,
    auth: &A,
    storage: &S,
    req: GetRequest,
) -> (r: SseResponse)
    ensures
        grip_entries(string_models(req.grip_last@)) is None ==> r.headers@.len() == 0
            && r.body@.len() == 0,
        resume_closes(req.grip_last@) ==> r.headers@.len() == 0 && r.body@.len() == 0,
        req.grip_last@.len() == 0 && req.topics@.len() == 0 ==> r.body@ == error_body(
            seq!['b', 'a', 'd', '-', 'r', 'e', 'q', 'u', 'e', 's', 't'],
            seq![
                'M', 'i', 's', 's', 'i', 'n', 'g', ' ', '\'', 't', 'o', 'p', 'i', 'c', '\'', ' ',
                'p', 'a', 'r', 'a', 'm', 'e', 't', 'e', 'r',
            ],
        ),
        r.headers@.len() > 1 ==> exists|ts: Seq<TopicModel>|
            0 < ts.len() <= TOPICS_PER_REQUEST_MAX && header_models(r.headers@)
                == #[trigger] stream_header_models(ts, req.durable) && (req.grip_last@.len() == 0
                ==> topic_names(ts) == distinct_topics(string_models(req.topics@))),
        r.headers@.len() > 1 && req.grip_last@.len() == 0 ==> r.body@.len() >= 27
            && r.body@.subrange(0, 27) == stream_open_chars(),
        admin && req.grip_last@.len() == 0 && 0 < distinct_topics(string_models(req.topics@)).len()
            <= TOPICS_PER_REQUEST_MAX && req.last_event_id is None && !req.durable
            ==> r.headers@.len() > 1,
        admin && req.grip_last@.len() == 0 && 0 < distinct_topics(string_models(req.topics@)).len()
            <= TOPICS_PER_REQUEST_MAX && req.last_event_id is None && req.durable
            ==> r.headers@.len() > 1 || r.body@ == error_body(
            "internal-server-error"@,
            "Failed to read message from storage"@,
        ),
        req.grip_last@.len() == 0 && distinct_topics(string_models(req.topics@)).len()
            > TOPICS_PER_REQUEST_MAX ==> r.body@ == error_body("bad-request"@, "Too many topics"@),
        req.grip_last@.len() > 0 && r.headers@.len() == 1 ==> r.body@ == error_body(
            "bad-request"@,
            "Too many topics"@,
        ) || r.body@ == error_body(
            "internal-server-error"@,
            "Failed to read message from storage"@,
        ),
        req.grip_last@.len() == 0 && 0 < distinct_topics(string_models(req.topics@)).len()
            <= TOPICS_PER_REQUEST_MAX && (req.last_event_id matches Some(x) && !leid_ok(x@))
            ==> r.headers@.len() == 1 && exists|t: Seq<char>|
            r.body@ == #[trigger] error_body("bad-request"@, t),
        req.grip_last@.len() == 0 && !admin && 0 < distinct_topics(
            string_models(req.topics@),
        ).len() <= TOPICS_PER_REQUEST_MAX && (req.last_event_id matches Some(x) ==> leid_ok(x@))
            && req.auth is None && (req.authorization matches Some(h) && spec_bearer(h@) is Err)
            ==> r.headers@.len() == 1 && exists|t: Seq<char>|
            r.body@ == #[trigger] error_body("bad-request"@, t),
        req.grip_last@.len() == 0 && !admin && 0 < distinct_topics(
            string_models(req.topics@),
        ).len() <= TOPICS_PER_REQUEST_MAX && (req.last_event_id matches Some(x) ==> leid_ok(x@))
            && req.auth is None && req.authorization is None ==> r.body@ == error_body(
            "bad-request"@,
            "Missing 'Authorization' header or 'auth' parameter"@,
        ),
        r.headers@.len() > 1 ==> exists|reads: Seq<ReadModel>|
            #[trigger] stream_from(
                initial_topics(req),
                reads,
                req,
                header_models(r.headers@),
                r.body@,
            ),
        r.error@ == Some(("bad-request"@, "Too many topics"@)) ==> start_topics(req).len()
            > TOPICS_PER_REQUEST_MAX,
        grip_entries(string_models(req.grip_last@)) is Some && !resume_closes(req.grip_last@)
            && start_topics(req).len() > TOPICS_PER_REQUEST_MAX ==> r.error@ == Some(
            ("bad-request"@, "Too many topics"@),
        ),
        r.error@ == Some(("internal-server-error"@, "Failed to read message from storage"@))
            ==> req.durable && exists|reads: Seq<ReadModel>|
            #[trigger] backlog_upto(initial_topics(req), reads, reads.len()) is None,
        !req.durable && r.headers@.len() > 1 ==> r.body@ == if req.grip_last@.len() == 0 {
            stream_open_chars()
        } else {
            Seq::<char>::empty()
        },
{
    proof {
        reveal_strlit("internal-server-error");
        reveal_strlit("Too many topics");
        reveal_strlit("Auth process failed");
        reveal_strlit("Failed to read message from storage");
        reveal_strlit("Invalid token");
    }
    proof {
        reveal_strlit("none");
        reveal_strlit("bad-request");
        reveal_strlit("Missing 'topic' parameter");
        assert("bad-request"@ =~= seq!['b', 'a', 'd', '-', 'r', 'e', 'q', 'u', 'e', 's', 't']);
        assert("Missing 'topic' parameter"@ =~= seq![
            'M', 'i', 's', 's', 'i', 'n', 'g', ' ', '\'', 't', 'o', 'p', 'i', 'c', '\'', ' ',
            'p', 'a', 'r', 'a', 'm', 'e', 't', 'e', 'r',
        ]);
    }
    let grip_last = match parse_grip_last(&req.grip_last) {
        Ok(v) => v,
        // a response without instructions closes an open stream
        Err(_) => return empty_response(),
    };
    let is_next = req.grip_last.len() > 0;
    let ghost grip_ok = grip_entries(string_models(req.grip_last@)) is Some;
    assert(grip_ok);
    let mut topics: Vec<(String, Option<Version>)> = Vec::new();
    if is_next {
        let mut i: usize = 0;
        while i < grip_last.len()
            invariant
                i <= grip_last@.len(),
                grip_ok,
                grip_ok == (grip_entries(string_models(req.grip_last@)) is Some),
                req.grip_last@.len() > 0,
                grip_entries(string_models(req.grip_last@)) == Some(pair_models(grip_last@)),
                (topics@.len() == 0) == (forall|j: int|
                    0 <= j < i ==> !durable_chan(#[trigger] pair_models(grip_last@)[j].0)),
                forall|j: int|
                    0 <= j < i && durable_chan(#[trigger] pair_models(grip_last@)[j].0)
                        ==> resume_id_ok(pair_models(grip_last@)[j].1),
                topic_models(topics@) == resume_topics(pair_models(grip_last@).subrange(0, i as int)),
            decreases grip_last@.len() - i,
        {
            proof {
                reveal_strlit("none");
                assert("none"@ =~= seq!['n', 'o', 'n', 'e']);
            }
            let channel = grip_last[i].0.as_str();
            let last_id = grip_last[i].1.as_str();
            let ghost em = pair_models(grip_last@)[i as int];
            assert(em.0 == channel@ && em.1 == last_id@);
            proof {
                let es = pair_models(grip_last@);
                assert(es.subrange(0, i + 1).drop_last() =~= es.subrange(0, i as int));
                assert(es.subrange(0, i + 1).last() == em);
            }
            if let Some(topic) = durable_topic(channel) {
                let version = if str_eq(last_id, "none") {
                    assert(resume_version(em.1) is None);
                    None
                } else {
                    match Version::parse(last_id) {
                        Ok(v) => {
                            assert(resume_version(em.1) == Some(v));
                            Some(v)
                        },
                        Err(_) => {
                            assert(!resume_id_ok(em.1));
                            assert(resume_closes(req.grip_last@));
                            return empty_response();
                        },
                    }
                };
                put_topic(&mut topics, topic, version);
            }
            proof {
                assert forall|j: int| 0 <= j < i + 1 && durable_chan(
                    #[trigger] pair_models(grip_last@)[j].0,
                ) implies resume_id_ok(pair_models(grip_last@)[j].1) by {}
                if topics@.len() == 0 {
                    assert(!durable_chan(em.0));
                }
                if topics@.len() != 0 && !durable_chan(em.0) {
                    let j0 = choose|j: int| 0 <= j < i && durable_chan(#[trigger] pair_models(grip_last@)[j].0);
                    assert(0 <= j0 < i + 1);
                }
            }
            i = i + 1;
        }
        assert(pair_models(grip_last@).subrange(0, i as int) =~= pair_models(grip_last@));
        if topics.len() == 0 {
            proof {
                assert forall|j: int| 0 <= j < pair_models(grip_last@).len() implies !durable_chan(
                    #[trigger] pair_models(grip_last@)[j].0,
                ) by {}
            }
            return empty_response();
        }
        proof {
            let es = pair_models(grip_last@);
            if resume_closes(req.grip_last@) {
                if forall|j: int| 0 <= j < es.len() ==> !durable_chan(#[trigger] es[j].0) {
                    assert(topics@.len() == 0);
                } else {
                    let j0 = choose|j: int| 0 <= j < es.len() && durable_chan(#[trigger] es[j].0) && !resume_id_ok(es[j].1);
                    assert(resume_id_ok(es[j0].1));
                }
            }
        }
    } else {
        let mut i: usize = 0;
        while i < req.topics.len()
            invariant
                i <= req.topics@.len(),
                topics@.len() <= i,
                topic_names(topic_models(topics@)) == distinct_topics(
                    string_models(req.topics@.subrange(0, i as int)),
                ),
                topic_models(topics@) == open_topics(string_models(req.topics@.subrange(0, i as int))),
                grip_ok,
                grip_ok == (grip_entries(string_models(req.grip_last@)) is Some),
            decreases req.topics@.len() - i,
        {
            put_topic(&mut topics, req.topics[i].clone(), None);
            proof {
                let q = string_models(req.topics@.subrange(0, i + 1));
                assert(q.drop_last() =~= string_models(req.topics@.subrange(0, i as int)));
                assert(q.last() == req.topics@[i as int]@);
            }
            i = i + 1;
        }
        assert(req.topics@.subrange(0, i as int) =~= req.topics@);
        if topics.len() == 0 {
            return sse_error("bad-request", "Missing 'topic' parameter");
        }
    }
    assert(!resume_closes(req.grip_last@));
    assert(topic_models(topics@) == start_topics(req));
    let ghost names0 = topic_names(topic_models(topics@));
    assert(req.grip_last@.len() == 0 ==> names0 == distinct_topics(string_models(req.topics@)));
    let ghost some_topic = !(req.grip_last@.len() == 0 && req.topics@.len() == 0);
    assert(some_topic);
    proof {
        reveal_strlit("Too many topics");
        reveal_strlit("bad-request");
        reveal_strlit("forbidden");
        reveal_strlit("internal-server-error");
        reveal_strlit("Invalid 'Authorization' header");
        reveal_strlit("Missing 'Authorization' header or 'auth' parameter");
        reveal_strlit("Unsupported authorization scheme: ");
    }
    if topics.len() > TOPICS_PER_REQUEST_MAX {
        return sse_error("bad-request", "Too many topics");
    }
    if !is_next {
        if let Some(id) = &req.last_event_id {
            match apply_last_event_id(&mut topics, id.as_str()) {
                Ok(()) => {},
                Err(resp) => return resp,
            }
        }
    }
    assert(topic_models(topics@) == initial_topics(req));
    let caps: Result<Capabilities, AuthorizationError> = if is_next || admin {
        Ok(Capabilities::new_admin())
    } else {
        let token = match &req.auth {
            Some(v) => v.clone(),
            None => match &req.authorization {
                Some(h) => match bearer_token(h.as_str()) {
                    Ok((_, t)) => t,
                    Err(BearerError::Invalid) => return sse_error(
                        "bad-request",
                        "Invalid 'Authorization' header",
                    ),
                    Err(BearerError::Scheme) => {
                        let pos = match char_index(h.as_str(), ' ') {
                            Some(p) => p,
                            None => 0,
                        };
                        let scheme = substring(h.as_str(), 0, pos);
                        let mut text = String::from_str("Unsupported authorization scheme: ");
                        text.append(scheme.as_str());
                        return sse_error("bad-request", text.as_str());
                    },
                },
                None => return sse_error(
                    "bad-request",
                    "Missing 'Authorization' header or 'auth' parameter",
                ),
            },
        };
        let v = auth.validate_token(token.as_str(), Some(config.internal_key.as_slice()));
        match v {
            Ok(_) => {},
            Err(AuthorizationError::Token(_)) => return sse_error("forbidden", "Invalid token"),
            Err(_) => return sse_error("internal-server-error", "Auth process failed"),
        }
        v
    };
    assert(!open_checks_fail(req, admin));
    let mut i: usize = 0;
    while i < topics.len()
        invariant
            i <= topics@.len(),
            !open_checks_fail(req, admin),
            grip_ok,
            some_topic,
            grip_ok == (grip_entries(string_models(req.grip_last@)) is Some),
            some_topic == !(req.grip_last@.len() == 0 && req.topics@.len() == 0),
            0 < topics@.len() <= TOPICS_PER_REQUEST_MAX,
            topic_names(topic_models(topics@)) == names0,
            req.grip_last@.len() == 0 ==> names0 == distinct_topics(string_models(req.topics@)),
            admin ==> (caps matches Ok(c) && c.admin),
            req.grip_last@.len() > 0 ==> (caps matches Ok(c) && c.admin),
            !resume_closes(req.grip_last@),
            topic_models(topics@) == initial_topics(req),
            topics@.len() == initial_topics(req).len(),
            start_topics(req).len() <= TOPICS_PER_REQUEST_MAX,
        decreases topics@.len() - i,
    {
        if !grants(&caps, topics[i].0.as_str(), false) {
            proof {
                reveal_strlit("forbidden");
                reveal_strlit("bad-request");
                reveal_strlit("internal-server-error");
            }
            let mut text = String::from_str("Cannot subscribe to topic: ");
            text.append(topics[i].0.as_str());
            return sse_error("forbidden", text.as_str());
        }
        i = i + 1;
    }
    let mut backlog = String::new();
    let ghost mut reads: Seq<ReadModel> = Seq::empty();
    let ghost init = initial_topics(req);
    if req.durable {
        let mut i: usize = 0;
        while i < topics.len()
            invariant
                i <= topics@.len(),
                grip_ok,
                some_topic,
                grip_ok == (grip_entries(string_models(req.grip_last@)) is Some),
                some_topic == !(req.grip_last@.len() == 0 && req.topics@.len() == 0),
                0 < topics@.len() <= TOPICS_PER_REQUEST_MAX,
                topic_names(topic_models(topics@)) == names0,
                req.grip_last@.len() == 0 ==> names0 == distinct_topics(string_models(req.topics@)),
                req.durable,
                !resume_closes(req.grip_last@),
                !open_checks_fail(req, admin),
                init == initial_topics(req),
                topics@.len() == init.len(),
                reads.len() == i,
                backlog_upto(init, reads, i as nat) == Some((topic_models(topics@), backlog@)),
                start_topics(req).len() <= TOPICS_PER_REQUEST_MAX,
            decreases topics@.len() - i,
        {
            proof {
                reveal_strlit("internal-server-error");
                reveal_strlit("bad-request");
            }
            let after = match &topics[i].1 {
                Some(v) => Some(RetainedVersion { generation: v.generation, seq: v.seq }),
                None => None,
            };
            let read = storage.read_retained(topics[i].0.as_str(), after);
            let ghost ro = read_outcome(read);
            let ghost tb = topic_models(topics@);
            let ghost bb = backlog@;
            let ghost reads2 = reads.push(ro);
            proof {
                assert(reads2.subrange(0, i as int) =~= reads.subrange(0, i as int));
                lemma_backlog_prefix(init, reads, reads2, i as nat);
            }
            match backlog_step(&mut topics, i, read) {
                Ok(Some(ev)) => backlog.append(ev.as_str()),
                Ok(None) => {},
                Err(resp) => {
                    proof {
                        reads = reads2;
                        assert(backlog_upto(init, reads, (i + 1) as nat) is None);
                        assert(reads.len() == i + 1);
                        assert(backlog_upto(initial_topics(req), reads, reads.len()) is None);
                    }
                    return resp;
                },
            }
            proof {
                reads = reads2;
                assert(tb[i as int].0 == topic_models(topics@)[i as int].0);
                assert(backlog@ == bb + backlog_event_of(ro, topic_models(topics@)));
            }
            i = i + 1;
        }
    }
    let headers = stream_headers(&topics, req.durable);
    assert(headers@.len() == header_models(headers@).len());
    assert(stream_header_models(topic_models(topics@), req.durable).len() >= 3);
    proof {
        reveal_strlit("event: stream-open\ndata: \n\n");
        assert("event: stream-open\ndata: \n\n"@ =~= stream_open_chars());
    }
    let mut body = String::new();
    if !is_next {
        body.append("event: stream-open\ndata: \n\n");
    }
    let ghost opening = !is_next;
    let ghost prefix = body@;
    body.append(backlog.as_str());
    assert(prefix == if opening {
        stream_open_chars()
    } else {
        Seq::<char>::empty()
    });
    assert(opening ==> body@.subrange(0, 27) =~= prefix);
    assert(!req.durable ==> backlog@ =~= Seq::<char>::empty());
    assert(topic_models(topics@).len() == topics@.len());
    assert(stream_header_models(topic_models(topics@), req.durable) == stream_header_models(
        topic_models(topics@),
        req.durable,
    ));
    assert(stream_from(initial_topics(req), reads, req, header_models(headers@), body@));
    let resp = SseResponse { headers, body, error: Ghost(None) };
    assert(stream_from(initial_topics(req), reads, req, header_models(resp.headers@), resp.body@));
    resp
}

/// A publish request over HTTP, as read from its query and headers.
pub struct PostRequest {
    pub topic: Option<String>,
    pub retain: bool,
    /// The `ttl` parameter, in seconds.
    pub ttl: Option<String>,
    pub authorization: Option<String>,
    pub body: Vec<u8>,
}

/// A plain-text HTTP response.
pub struct TextResponse {
    pub status: u16,
    pub text: String,
}

fn text_response(status: u16, text: &str) -> (r: TextResponse)
    ensures
        r.status == status,
        r.text@ == text@ + seq!['\n'],
{
    proof {
        reveal_strlit("\n");
    }
    let mut t = String::from_str(text);
    t.append("\n");
    TextResponse { status, text: t }
}

/// The ttl parameter as read: `None` when it is not a `u32` in decimal
/// (an optional `+`, then digits); `Some(None)` when absent.
pub open spec fn spec_ttl(ttl: Option<String>) -> Option<Option<u64>> {
    match ttl {
        None => Some(None),
        Some(x) => if x@.len() == 0 {
            None
        } else {
            match spec_parse_uint(encode_utf8(x@), 10) {
                Some(v) => if v <= 0xffff_ffff {
                    Some(Some(v as u64))
                } else {
                    None
                },
                None => None,
            }
        },
    }
}

/// What a publish request ends as once it is past its checks: not retained
/// (`written` is `None`), a message with no sequencing; stored at version
/// `v`, a message with `v`'s sequencing; a storage failure, a 500.
pub open spec fn post_step(
    topic: Seq<char>,
    body: Seq<u8>,
    retain: bool,
    written: Option<Result<RetainedVersion, StorageError>>,
    r: Result<PublishRequest, TextResponse>,
) -> bool {
    match written {
        None => !retain && (r matches Ok(q) && q.topic@ == topic && q.message@ == body
            && q.sender is None && q.sequencing is None),
        Some(Ok(v)) => retain && (r matches Ok(q) && q.topic@ == topic && q.message@ == body
            && q.sender is None && (q.sequencing matches Some(sq) && sq.id@ == ascii_chars(
            id_bytes(v.generation, v.seq),
        ) && sq.prev_id@ == prev_id_chars(v))),
        Some(Err(_)) => retain && (r matches Err(t) && t.status == 500 && t.text@
            == "Failed to write message to storage\n"@),
    }
}

/// Finishes a publish request past its checks, given the outcome of storing
/// it (`None` when it is not retained).
pub fn post_after_write(
    topic: String,
    body: Vec<u8>,
    retain: bool,
    written: Option<Result<RetainedVersion, StorageError>>,
) -> (r: Result<PublishRequest, TextResponse>)
    requires
        written is None <==> !retain,
    ensures
        post_step(topic@, body@, retain, written, r),
{
    proof {
        reveal_strlit("Failed to write message to storage");
        reveal_strlit("Failed to write message to storage\n");
        assert("Failed to write message to storage"@ + seq!['\n']
            =~= "Failed to write message to storage\n"@);
    }
    let sequencing = match written {
        None => None,
        Some(Ok(v)) => Some(sequencing_for(v)),
        Some(Err(_)) => return Err(text_response(500, "Failed to write message to storage")),
    };
    Ok(PublishRequest { topic, message: body, sequencing, sender: None })
}

/// Handles a publish request up to the hand-off to the publish client:
/// `Err` is the response when the request is refused (400 for a missing
/// topic, a malformed ttl or credential, a payload above `MESSAGE_SIZE_MAX`;
/// 403 for a token that is invalid or does not grant the topic; 500 when the
/// token or the store cannot be checked or written), else the message to
/// publish. A retained message is stored first, and carries its sequencing.
pub fn post<A: Authorizor, S: Storage>(
    admin: bool,
    config: &Config,
    auth: &A,
    storage: &S,
    req: PostRequest,
) -> (r: Result<PublishRequest, TextResponse>)
    ensures
        req.topic is None ==> (r matches Err(t) && t.status == 400 && t.text@
            == "Missing 'topic' param\n"@),
        req.topic is Some && spec_ttl(req.ttl) is None ==> (r matches Err(t) && t.status == 400),
        req.topic is Some && spec_ttl(req.ttl) is Some && !admin && req.authorization is None ==> (
        r matches Err(t) && t.status == 400 && t.text@ == "Missing 'Authorization' header\n"@),
        req.topic is Some && spec_ttl(req.ttl) is Some && !admin && (req.authorization matches Some(
            h) && spec_bearer(h@) is Err) ==> (r matches Err(t) && t.status == 400),
        req.topic is Some && spec_ttl(req.ttl) is Some && admin && req.body@.len()
            > MESSAGE_SIZE_MAX ==> (r matches Err(t) && t.status == 400 && t.text@
            == "Message size exceeds 32512 bytes maximum\n"@),
        req.body@.len() > MESSAGE_SIZE_MAX ==> r is Err,
        req.topic is Some && spec_ttl(req.ttl) is Some && !admin && (req.authorization matches Some(
            h) && spec_bearer(h@) is Ok) && req.body@.len() > MESSAGE_SIZE_MAX ==> (r matches Err(t)
            && ((t.status == 400 && t.text@ == "Message size exceeds 32512 bytes maximum\n"@)
            || t.status == 403 || t.status == 500)),
        r matches Err(t) ==> t.status == 400 || t.status == 403 || t.status == 500,
        r is Ok ==> (req.topic matches Some(t) && exists|
            w: Option<Result<RetainedVersion, StorageError>>,
        | #[trigger] post_step(t@, req.body@, req.retain, w, r)),
        admin && spec_ttl(req.ttl) is Some && req.body@.len() <= MESSAGE_SIZE_MAX && req.topic is Some
            ==> (req.topic matches Some(t) && exists|w: Option<Result<RetainedVersion, StorageError>>|
            #[trigger] post_step(t@, req.body@, req.retain, w, r)),
        admin && req.topic is Some && spec_ttl(req.ttl) is Some && !req.retain && req.body@.len()
            <= MESSAGE_SIZE_MAX ==> r is Ok,
{
    proof {
        reveal_strlit("Missing 'topic' param");
        reveal_strlit("Missing 'topic' param\n");
        assert("Missing 'topic' param"@ + seq!['\n'] =~= "Missing 'topic' param\n"@);
        reveal_strlit("Missing 'Authorization' header");
        reveal_strlit("Missing 'Authorization' header\n");
        assert("Missing 'Authorization' header"@ + seq!['\n'] =~= "Missing 'Authorization' header\n"@);
        reveal_strlit("Message size exceeds 32512 bytes maximum");
        reveal_strlit("Message size exceeds 32512 bytes maximum\n");
        assert("Message size exceeds 32512 bytes maximum"@ + seq!['\n'] =~= "Message size exceeds 32512 bytes maximum\n"@);
    }
    let topic = match req.topic {
        Some(t) => t,
        None => return Err(text_response(400, "Missing 'topic' param")),
    };
    let ttl: Option<u64> = match &req.ttl {
        Some(x) if x.as_str().unicode_len() == 0 => {
            return Err(text_response(400, "Invalid 'ttl' param: cannot parse integer from empty string"));
        },
        Some(x) => match crate::text::parse_uint(x.as_str().as_bytes(), 10) {
            Some(v) => if v > 0xffff_ffff {
                return Err(text_response(400, "Invalid 'ttl' param: number too large to fit in target type"));
            } else {
                Some(v)
            },
            None => return Err(text_response(400, "Invalid 'ttl' param: invalid digit found in string")),
        },
        None => None,
    };
    let caps: Result<Capabilities, AuthorizationError> = if admin {
        Ok(Capabilities::new_admin())
    } else {
        let token = match &req.authorization {
            Some(h) => match bearer_token(h.as_str()) {
                Ok((_, t)) => t,
                Err(BearerError::Invalid) => return Err(
                    text_response(400, "Invalid 'Authorization' header"),
                ),
                Err(BearerError::Scheme) => {
                    let pos = match char_index(h.as_str(), ' ') {
                        Some(p) => p,
                        None => 0,
                    };
                    let scheme = substring(h.as_str(), 0, pos);
                    let mut text = String::from_str("Unsupported authorization scheme: ");
                    text.append(scheme.as_str());
                    return Err(text_response(400, text.as_str()));
                },
            },
            None => return Err(text_response(400, "Missing 'Authorization' header")),
        };
        let v = auth.validate_token(token.as_str(), Some(config.internal_key.as_slice()));
        match v {
            Ok(_) => {},
            Err(AuthorizationError::Token(_)) => return Err(text_response(403, "Invalid token")),
            Err(_) => return Err(text_response(500, "Auth process failed")),
        }
        v
    };
    if !grants(&caps, topic.as_str(), true) {
        let mut text = String::from_str("Cannot publish to topic: ");
        text.append(topic.as_str());
        return Err(text_response(403, text.as_str()));
    }
    if req.body.len() > MESSAGE_SIZE_MAX {
        return Err(text_response(400, "Message size exceeds 32512 bytes maximum"));
    }
    let written = if req.retain {
        Some(storage.write_retained(topic.as_str(), req.body.as_slice(), ttl))
    } else {
        None
    };
    let ghost tv = topic@;
    let ghost bv = req.body@;
    let ghost wv = written;
    let r = post_after_write(topic, req.body, req.retain, written);
    assert(post_step(tv, bv, req.retain, wv, r));
    r
}

} // verus!
