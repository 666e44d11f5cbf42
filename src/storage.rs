//! Retained messages: one slot per topic, versioned by a generation and a
//! sequence number, with an expiry after which the slot lingers without its
//! payload so that a later write continues the same sequence.

use vstd::prelude::*;

verus! {

/// How long a slot outlives the expiry of its payload, in seconds.
pub const LINGER_SECS: u64 = 86400;

/// How many times a write is tried against concurrent writers.
pub const WRITE_TRIES_MAX: usize = 5;

#[derive(Debug, Clone)]
pub enum StorageError {
    StoreNotFound,
    TooManyRequests,
    InvalidMetadata,
    KVStore(String),
}

#[derive(Debug, Clone, Copy, PartialEq, Eq, Structural)]
pub struct RetainedVersion {
    pub generation: u64,
    pub seq: u64,
}

/// A retained payload and the time it has left, in nanoseconds.
#[derive(Debug, Clone)]
pub struct RetainedMessage {
    pub ttl: Option<u64>,
    pub data: Vec<u8>,
}

/// A slot as read: its version, and its payload unless that has expired.
#[derive(Debug, Clone)]
pub struct RetainedSlot {
    pub version: RetainedVersion,
    pub message: Option<RetainedMessage>,
}

/// What the store keeps beside a slot's payload. `expires_at` is in
/// nanoseconds since the Unix epoch.
#[derive(Debug, Clone, Copy, PartialEq, Eq, Structural, Default)]
pub struct Metadata {
    pub generation: u64,
    pub seq: u64,
    pub expires_at: Option<i128>,
}

/// Reads and writes of retained slots, by topic.
pub trait Storage {
    fn write_retained(&self, topic: &str, message: &[u8], ttl_secs: Option<u64>) -> Result<
        RetainedVersion,
        StorageError,
    >;

    fn read_retained(&self, topic: &str, after: Option<RetainedVersion>) -> Result<
        Option<RetainedSlot>,
        StorageError,
    >;
}

/// Retained slots kept in a named key-value store.
pub struct KVStoreStorage {
    pub store_name: String,
}

impl KVStoreStorage {
    pub fn new(store_name: &str) -> (r: Self)
        ensures
            r.store_name@ == store_name@,
    {
        KVStoreStorage { store_name: store_name.to_owned() }
    }

    pub fn store_name(&self) -> (r: &str)
        ensures
            r@ == self.store_name@,
    {
        self.store_name.as_str()
    }
}

/// The key of the slot of a topic.
pub open spec fn key_name(topic: Seq<char>) -> Seq<char> {
    seq!['r', ':'] + topic
}

/// The key of the slot of a topic: `r:` then the topic.
pub fn key_name_of(topic: &str) -> (r: String)
    ensures
        r@ == key_name(topic@),
{
    let mut k = String::from_str("r:");
    proof {
        reveal_strlit("r:");
    }
    k.append(topic);
    assert(k@ =~= key_name(topic@));
    k
}

/// Whether a slot at `v` is no news to a reader that has seen `after`.
pub open spec fn seen(v: RetainedVersion, after: Option<RetainedVersion>) -> bool {
    match after {
        Some(a) => a.generation == v.generation && v.seq <= a.seq,
        None => false,
    }
}

/// Time a payload has left at `now`: none without an expiry, zero once it
/// has passed (capped at `u64::MAX` nanoseconds).
pub open spec fn ttl_at(expires_at: Option<i128>, now: i128) -> Option<u64> {
    match expires_at {
        None => None,
        Some(e) => if now < e {
            if e - now > u64::MAX {
                Some(u64::MAX)
            } else {
                Some((e - now) as u64)
            }
        } else {
            Some(0)
        },
    }
}

/// The slot a reader that has seen `after` gets from a stored slot with
/// metadata `meta` and payload `body`, at time `now`.
pub open spec fn spec_read_slot(
    meta: Metadata,
    after: Option<RetainedVersion>,
    now: i128,
    body: Seq<u8>,
) -> Option<(RetainedVersion, Option<(Option<u64>, Seq<u8>)>)> {
    let v = RetainedVersion { generation: meta.generation, seq: meta.seq };
    if seen(v, after) {
        None
    } else {
        let ttl = ttl_at(meta.expires_at, now);
        Some(
            (
                v,
                if ttl == Some(0u64) {
                    None
                } else {
                    Some((ttl, body))
                },
            ),
        )
    }
}

/// The model of a slot as read.
pub open spec fn slot_model(s: RetainedSlot) -> (RetainedVersion, Option<(Option<u64>, Seq<u8>)>) {
    (
        s.version,
        match s.message {
            Some(m) => Some((m.ttl, m.data@)),
            None => None,
        },
    )
}

/// Decides what a reader that has seen `after` gets from a stored slot, at
/// time `now` (nanoseconds since the Unix epoch).
pub fn read_slot(meta: &Metadata, after: Option<RetainedVersion>, now: i128, body: Vec<u8>) -> (r:
    Option<RetainedSlot>)
    ensures
        match spec_read_slot(*meta, after, now, body@) {
            None => r is None,
            Some(m) => r matches Some(s) && slot_model(s) == m,
        },
{
    if let Some(a) = after {
        if meta.generation == a.generation && meta.seq <= a.seq {
            return None;
        }
    }
    let version = RetainedVersion { generation: meta.generation, seq: meta.seq };
    let ttl: Option<u64> = match meta.expires_at {
        None => None,
        Some(e) => if now < e {
            match e.checked_sub(now) {
                Some(left) => if left > u64::MAX as i128 {
                    Some(u64::MAX)
                } else {
                    Some(left as u64)
                },
                None => Some(u64::MAX),
            }
        } else {
            Some(0)
        },
    };
    let message = if ttl == Some(0u64) {
        None
    } else {
        Some(RetainedMessage { ttl, data: body })
    };
    Some(RetainedSlot { version, message })
}

/// Relies on `time::UtcDateTime::now` and `unix_timestamp_nanos`: the current
/// time in nanoseconds since the Unix epoch. Nothing is known of its value.
#[verifier::external_body]
fn now_nanos() -> (r: i128) {
    time::UtcDateTime::now().unix_timestamp_nanos()
}

/// Relies on `rand::random`: a random `u64`. Nothing is known of its value.
#[verifier::external_body]
fn random_generation() -> (r: u64) {
    rand::random::<u64>()
}

/// Reads a stored slot as a reader that has seen `after`, now.
pub fn read_slot_now(meta: &Metadata, after: Option<RetainedVersion>, body: Vec<u8>) -> (r: Option<
    RetainedSlot,
>)
    ensures
        exists|now: i128|
            match #[trigger] spec_read_slot(*meta, after, now, body@) {
                None => r is None,
                Some(m) => r matches Some(s) && slot_model(s) == m,
            },
{
    let now = now_nanos();
    read_slot(meta, after, now, body)
}

/// The metadata a write stores: the next sequence number of the current
/// slot, or sequence 1 of a slot with the generation `fresh`; the payload
/// expires `ttl_secs` seconds after `now`. `Err` when the sequence is
/// exhausted.
pub open spec fn spec_next_metadata(
    current: Option<Metadata>,
    fresh: u64,
    ttl_secs: Option<u64>,
    now: i128,
) -> Result<Metadata, ()> {
    let expires_at = match ttl_secs {
        Some(t) => Some((now + t * 1_000_000_000) as i128),
        None => None,
    };
    match current {
        Some(m) => if m.seq == u64::MAX {
            Err(())
        } else {
            Ok(Metadata { generation: m.generation, seq: (m.seq + 1) as u64, expires_at })
        },
        None => Ok(Metadata { generation: fresh, seq: 1, expires_at }),
    }
}

/// Decides the metadata of a write over `current` (none when the slot does
/// not exist), given a fresh generation and the time.
pub fn next_metadata(current: Option<Metadata>, fresh: u64, ttl_secs: Option<u64>, now: i128) -> (r:
    Result<Metadata, StorageError>)
    requires
        -0x1_0000_0000_0000_0000_0000_0000_0000 < now < 0x1_0000_0000_0000_0000_0000_0000_0000,
    ensures
        match spec_next_metadata(current, fresh, ttl_secs, now) {
            Ok(m) => r == Ok::<Metadata, StorageError>(m),
            Err(_) => r matches Err(StorageError::InvalidMetadata),
        },
{
    let expires_at: Option<i128> = match ttl_secs {
        Some(t) => Some(now + (t as i128) * 1_000_000_000),
        None => None,
    };
    match current {
        Some(m) => if m.seq == u64::MAX {
            Err(StorageError::InvalidMetadata)
        } else {
            Ok(Metadata { generation: m.generation, seq: m.seq + 1, expires_at })
        },
        None => Ok(Metadata { generation: fresh, seq: 1, expires_at }),
    }
}

/// The metadata of a write over `current`, now, with a random generation when
/// the slot is new.
pub fn plan_write(current: Option<Metadata>, ttl_secs: Option<u64>) -> (r: Result<
    Metadata,
    StorageError,
>)
    ensures
        current matches Some(m) ==> (m.seq < u64::MAX ==> (r matches Ok(n) && n.generation
            == m.generation && n.seq == m.seq + 1)),
        current is None ==> (r matches Ok(n) && n.seq == 1),
        r matches Ok(n) ==> (n.expires_at is None <==> ttl_secs is None),
{
    let fresh = if current.is_none() {
        random_generation()
    } else {
        0
    };
    let now = now_nanos();
    let now = if now > 0x1_0000_0000_0000_0000_0000_0000 {
        0x1_0000_0000_0000_0000_0000_0000
    } else if now < -0x1_0000_0000_0000_0000_0000_0000 {
        -0x1_0000_0000_0000_0000_0000_0000
    } else {
        now
    };
    next_metadata(current, fresh, ttl_secs, now)
}

/// The lifetime of the stored object of a write: the payload's time to live
/// and the linger period, in seconds.
pub fn object_ttl_secs(ttl_secs: Option<u64>) -> (r: Option<u64>)
    ensures
        r == match ttl_secs {
            Some(t) => Some(
                if t + LINGER_SECS > u64::MAX {
                    u64::MAX
                } else {
                    (t + LINGER_SECS) as u64
                },
            ),
            None => None::<u64>,
        },
{
    match ttl_secs {
        Some(t) => Some(t.saturating_add(LINGER_SECS)),
        None => None,
    }
}

/// How an attempt to store a slot ended.
#[derive(Debug, Clone)]
pub enum InsertOutcome {
    Stored,
    Conflict,
    Throttled,
    Failed(String),
}

/// What to do after an attempt of a write.
#[derive(Debug, Clone)]
pub enum WriteStep {
    Done(RetainedVersion),
    Retry,
    Fail(StorageError),
}

/// Decides what follows attempt number `tries` (counting from 1) of a write
/// of `meta`: done when stored; another try after a conflict or throttling,
/// unless `WRITE_TRIES_MAX` tries were made; a failure otherwise.
pub fn after_attempt(meta: &Metadata, outcome: InsertOutcome, tries: usize) -> (r: WriteStep)
    ensures
        match outcome {
            InsertOutcome::Stored => r == WriteStep::Done(
                RetainedVersion { generation: meta.generation, seq: meta.seq },
            ),
            InsertOutcome::Conflict | InsertOutcome::Throttled => if tries >= WRITE_TRIES_MAX {
                r matches WriteStep::Fail(StorageError::TooManyRequests)
            } else {
                r is Retry
            },
            InsertOutcome::Failed(e) => r == WriteStep::Fail(StorageError::KVStore(e)),
        },
{
    match outcome {
        InsertOutcome::Stored => WriteStep::Done(
            RetainedVersion { generation: meta.generation, seq: meta.seq },
        ),
        InsertOutcome::Conflict | InsertOutcome::Throttled => if tries >= WRITE_TRIES_MAX {
            WriteStep::Fail(StorageError::TooManyRequests)
        } else {
            WriteStep::Retry
        },
        InsertOutcome::Failed(e) => WriteStep::Fail(StorageError::KVStore(e)),
    }
}

/// Lexicographic order of versions.
pub open spec fn version_gt(a: RetainedVersion, b: RetainedVersion) -> bool {
    a.generation > b.generation || (a.generation == b.generation && a.seq > b.seq)
}

/// A reader that has seen `after` is handed only a later version: a strictly
/// greater sequence number in the same generation, and a greater version in
/// lexicographic order wherever the stored generation is not below the one
/// seen (a slot created anew gets a random generation, which may be lower).
pub proof fn lemma_reader_versions_increase(
    meta: Metadata,
    after: RetainedVersion,
    now: i128,
    body: Seq<u8>,
)
    ensures
        spec_read_slot(meta, Some(after), now, body) matches Some((v, _)) ==> (v.generation
            == after.generation ==> v.seq > after.seq),
        spec_read_slot(meta, Some(after), now, body) matches Some((v, _)) ==> (meta.generation
            >= after.generation ==> version_gt(v, after)),
{
}

/// A write over an existing slot keeps its generation and raises its sequence
/// number by one, so a reader that saw the slot before is handed the new
/// version.
pub proof fn lemma_write_is_news(
    current: Metadata,
    fresh: u64,
    ttl_secs: Option<u64>,
    now: i128,
    reader_now: i128,
    body: Seq<u8>,
)
    requires
        current.seq < u64::MAX,
    ensures
        spec_next_metadata(Some(current), fresh, ttl_secs, now) matches Ok(n) && spec_read_slot(
            n,
            Some(RetainedVersion { generation: current.generation, seq: current.seq }),
            reader_now,
            body,
        ) matches Some((v, _)) && version_gt(
            v,
            RetainedVersion { generation: current.generation, seq: current.seq },
        ),
{
}

/// The versions a reader observes reading the stored slot in the states
/// `metas`, one after another, each time after the last version it observed
/// (starting after `after`).
pub open spec fn observed(metas: Seq<Metadata>, after: Option<RetainedVersion>) -> Seq<
    RetainedVersion,
>
    decreases metas.len(),
{
    if metas.len() == 0 {
        Seq::empty()
    } else {
        let v = RetainedVersion { generation: metas[0].generation, seq: metas[0].seq };
        if seen(v, after) {
            observed(metas.drop_first(), after)
        } else {
            seq![v] + observed(metas.drop_first(), Some(v))
        }
    }
}

/// Whether generations never go down along the states.
pub open spec fn generations_rise(metas: Seq<Metadata>) -> bool {
    forall|i: int, j: int|
        0 <= i <= j < metas.len() ==> (#[trigger] metas[i]).generation <= (
        #[trigger] metas[j]).generation
}

/// Whether `after` comes before every version observed.
pub open spec fn all_after(obs: Seq<RetainedVersion>, after: Option<RetainedVersion>) -> bool {
    match after {
        Some(a) => forall|k: int| 0 <= k < obs.len() ==> version_gt(#[trigger] obs[k], a),
        None => true,
    }
}

/// Whatever the writes between its reads, a reader that reads after the last
/// version it observed observes strictly increasing versions, in
/// lexicographic order; this holds wherever generations do not go down
/// (a slot created anew gets a random generation, which may be lower).
pub proof fn lemma_observed_increasing(metas: Seq<Metadata>, after: Option<RetainedVersion>)
    requires
        generations_rise(metas),
        after matches Some(a) ==> (metas.len() > 0 ==> a.generation <= metas[0].generation),
    ensures
        forall|i: int, j: int|
            0 <= i < j < observed(metas, after).len() ==> version_gt(
                #[trigger] observed(metas, after)[j],
                #[trigger] observed(metas, after)[i],
            ),
        all_after(observed(metas, after), after),
    decreases metas.len(),
{
    if metas.len() > 0 {
        let v = RetainedVersion { generation: metas[0].generation, seq: metas[0].seq };
        let rest = metas.drop_first();
        assert(generations_rise(rest)) by {
            assert forall|i: int, j: int| 0 <= i <= j < rest.len() implies (
            #[trigger] rest[i]).generation <= (#[trigger] rest[j]).generation by {
                assert(rest[i] == metas[i + 1] && rest[j] == metas[j + 1]);
            }
        }
        if rest.len() > 0 {
            assert(rest[0] == metas[1]);
        }
        if seen(v, after) {
            lemma_observed_increasing(rest, after);
        } else {
            lemma_observed_increasing(rest, Some(v));
            let o = observed(metas, after);
            let tail = observed(rest, Some(v));
            assert(o == seq![v] + tail);
            assert forall|i: int, j: int| 0 <= i < j < o.len() implies version_gt(
                #[trigger] o[j],
                #[trigger] o[i],
            ) by {
                if i == 0 {
                    assert(o[j] == tail[j - 1]);
                } else {
                    assert(o[j] == tail[j - 1] && o[i] == tail[i - 1]);
                }
            }
            if let Some(a) = after {
                assert forall|k: int| 0 <= k < o.len() implies version_gt(#[trigger] o[k], a) by {
                    if k > 0 {
                        assert(o[k] == tail[k - 1]);
                    }
                }
            }
        }
    }
}

} // verus!
