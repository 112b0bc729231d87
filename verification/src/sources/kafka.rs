//! The Kafka source: its configuration, the client settings it derives, and the
//! log event it makes of each consumed message.
use vstd::prelude::*;
use vstd::utf8::*;
use chrono::TimeZone;
use rdkafka::config::ClientConfig;
use crate::event::{
    assoc_insert, entries_model, field_at, lemma_split_dots_len, law_path_get_after_insert,
    law_path_insert_frame, path_insert, paths_diverge, set_field, split_dots, str_bytes, Instant, LogEvent, LogSchema, LogValue, ValueModel,
};
use crate::kafka::KafkaAuthConfig;
use crate::sources::kafka_client::{client_config_entries, client_config_new, client_config_set, no_settings};
use crate::sources::kafka_committer::CommitterEntry;

verus! {

broadcast use vstd::utf8::group_utf8_lib;

/// The kind of events a source emits.
#[derive(Debug, Clone, Copy, PartialEq, Eq, Structural)]
pub enum DataType {
    Any,
    Log,
    Metric,
}

/// Configuration of the Kafka source.
#[derive(Debug, Clone)]
pub struct KafkaSourceConfig {
    pub bootstrap_servers: String,
    pub topics: Vec<String>,
    pub group_id: String,
    pub auto_offset_reset: String,
    pub session_timeout_ms: u64,
    pub socket_timeout_ms: u64,
    pub fetch_wait_max_ms: u64,
    pub commit_interval_ms: u64,
    pub key_field: String,
    pub topic_key: String,
    pub partition_key: String,
    pub offset_key: String,
    pub headers_key: String,
    pub librdkafka_options: Option<Vec<(String, String)>>,
    pub auth: KafkaAuthConfig,
}

/// librdkafka's default session timeout.
pub fn default_session_timeout_ms() -> (r: u64)
    ensures
        r == 10000,
{
    10000
}

/// librdkafka's default socket timeout.
pub fn default_socket_timeout_ms() -> (r: u64)
    ensures
        r == 60000,
{
    60000
}

/// librdkafka's default maximum fetch wait.
pub fn default_fetch_wait_max_ms() -> (r: u64)
    ensures
        r == 100,
{
    100
}

/// librdkafka's default auto commit interval.
pub fn default_commit_interval_ms() -> (r: u64)
    ensures
        r == 5000,
{
    5000
}

/// librdkafka's default offset reset policy.
pub fn default_auto_offset_reset() -> (r: String)
    ensures
        r@ == "largest"@,
{
    String::from_str("largest")
}

pub fn default_key_field() -> (r: String)
    ensures
        r@ == "message_key"@,
{
    String::from_str("message_key")
}

pub fn default_topic_key() -> (r: String)
    ensures
        r@ == "topic"@,
{
    String::from_str("topic")
}

pub fn default_partition_key() -> (r: String)
    ensures
        r@ == "partition"@,
{
    String::from_str("partition")
}

pub fn default_offset_key() -> (r: String)
    ensures
        r@ == "offset"@,
{
    String::from_str("offset")
}

pub fn default_headers_key() -> (r: String)
    ensures
        r@ == "headers"@,
{
    String::from_str("headers")
}

impl KafkaSourceConfig {
    /// All strings empty, no topics, all durations zero, no extra options, no authentication.
    pub open spec fn is_empty_config(&self) -> bool {
        &&& self.bootstrap_servers@.len() == 0
        &&& self.topics@.len() == 0
        &&& self.group_id@.len() == 0
        &&& self.auto_offset_reset@.len() == 0
        &&& self.session_timeout_ms == 0
        &&& self.socket_timeout_ms == 0
        &&& self.fetch_wait_max_ms == 0
        &&& self.commit_interval_ms == 0
        &&& self.key_field@.len() == 0
        &&& self.topic_key@.len() == 0
        &&& self.partition_key@.len() == 0
        &&& self.offset_key@.len() == 0
        &&& self.headers_key@.len() == 0
        &&& self.librdkafka_options is None
        &&& self.auth.sasl is None
        &&& self.auth.tls is None
    }

    /// The configuration the source's example configuration is generated from: the empty one.
    pub fn generate_config() -> (r: KafkaSourceConfig)
        ensures
            r.is_empty_config(),
    {
        KafkaSourceConfig::default()
    }

    /// The source emits log events.
    pub fn output_type(&self) -> (r: DataType)
        ensures
            r == DataType::Log,
    {
        DataType::Log
    }

    /// The source's type name.
    pub fn source_type(&self) -> (r: &'static str)
        ensures
            r@ == "kafka"@,
    {
        "kafka"
    }
}

impl Default for KafkaSourceConfig {
    fn default() -> (r: KafkaSourceConfig)
        ensures
            r.is_empty_config(),
    {
        KafkaSourceConfig {
            bootstrap_servers: String::new(),
            topics: Vec::new(),
            group_id: String::new(),
            auto_offset_reset: String::new(),
            session_timeout_ms: 0,
            socket_timeout_ms: 0,
            fetch_wait_max_ms: 0,
            commit_interval_ms: 0,
            key_field: String::new(),
            topic_key: String::new(),
            partition_key: String::new(),
            offset_key: String::new(),
            headers_key: String::new(),
            librdkafka_options: None,
            auth: KafkaAuthConfig::new(),
        }
    }
}

// ---------------------------------------------------------------------------
// Client settings
// ---------------------------------------------------------------------------

/// The character of a decimal digit.
pub open spec fn digit_char(d: nat) -> char {
    (d + 48) as char
}

/// The decimal representation of `n`, without leading zeros.
pub open spec fn decimal(n: nat) -> Seq<char>
    decreases n,
{
    if n < 10 {
        seq![digit_char(n)]
    } else {
        decimal(n / 10).push(digit_char(n % 10))
    }
}

fn digit_str(d: u64) -> (r: &'static str)
    requires
        d < 10,
    ensures
        r@ == seq![digit_char(d as nat)],
{
    proof {
        reveal_strlit("0");
        reveal_strlit("1");
        reveal_strlit("2");
        reveal_strlit("3");
        reveal_strlit("4");
        reveal_strlit("5");
        reveal_strlit("6");
        reveal_strlit("7");
        reveal_strlit("8");
        reveal_strlit("9");
    }
    match d {
        0 => "0",
        1 => "1",
        2 => "2",
        3 => "3",
        4 => "4",
        5 => "5",
        6 => "6",
        7 => "7",
        8 => "8",
        _ => "9",
    }
}

/// The decimal representation of `n`.
fn u64_to_string(n: u64) -> (r: String)
    ensures
        r@ == decimal(n as nat),
{
    let mut m = n;
    let mut acc = String::new();
    proof {
        assert(decimal(n as nat) =~= decimal(m as nat) + acc@);
    }
    while m >= 10
        invariant
            decimal(n as nat) == decimal(m as nat) + acc@,
        decreases m,
    {
        let d = digit_str(m % 10);
        let next = String::from_str(d).concat(acc.as_str());
        proof {
            assert(decimal(m as nat) == decimal((m / 10) as nat).push(digit_char((m % 10) as nat)));
            assert(decimal(m as nat) + acc@ =~= decimal((m / 10) as nat) + next@);
        }
        acc = next;
        m = m / 10;
    }
    let d = digit_str(m);
    let r = String::from_str(d).concat(acc.as_str());
    proof {
        assert(decimal(m as nat) =~= seq![digit_char(m as nat)]);
    }
    r
}

/// Applies `options` in order to `m`; a later option overrides an earlier one.
pub open spec fn applied_options(m: Map<Seq<char>, Seq<char>>, options: Seq<(String, String)>) -> Map<
    Seq<char>,
    Seq<char>,
>
    decreases options.len(),
{
    if options.len() == 0 {
        m
    } else {
        applied_options(m, options.drop_last()).insert(options.last().0@, options.last().1@)
    }
}

/// The settings of the source's Kafka consumer.
pub open spec fn client_settings(config: KafkaSourceConfig) -> Map<Seq<char>, Seq<char>> {
    let base = no_settings().insert("group.id"@, config.group_id@).insert(
        "bootstrap.servers"@,
        config.bootstrap_servers@,
    ).insert("auto.offset.reset"@, config.auto_offset_reset@).insert(
        "session.timeout.ms"@,
        decimal(config.session_timeout_ms as nat),
    ).insert("socket.timeout.ms"@, decimal(config.socket_timeout_ms as nat)).insert(
        "fetch.wait.max.ms"@,
        decimal(config.fetch_wait_max_ms as nat),
    ).insert("enable.partition.eof"@, "false"@).insert("enable.auto.commit"@, "true"@).insert(
        "auto.commit.interval.ms"@,
        decimal(config.commit_interval_ms as nat),
    ).insert("enable.auto.offset.store"@, "false"@).insert("statistics.interval.ms"@, "1000"@).insert(
        "client.id"@,
        "vector"@,
    );
    let with_auth = config.auth.applied(base);
    match config.librdkafka_options {
        Some(options) => applied_options(with_auth, options@),
        None => with_auth,
    }
}

/// The client configuration of the source's Kafka consumer: the connection, group and
/// timing settings, offsets stored explicitly and committed automatically, the
/// authentication settings, then the extra librdkafka options, which override the rest.
pub fn create_client_config(config: &KafkaSourceConfig) -> (r: ClientConfig)
    ensures
        client_config_entries(r) == client_settings(*config),
        config.librdkafka_options is Some ==> forall|i: int|
            0 <= i < config.librdkafka_options.unwrap()@.len() && (forall|l: int|
                i < l < config.librdkafka_options.unwrap()@.len() ==> #[trigger] config.librdkafka_options.unwrap()@[l].0@
                    != config.librdkafka_options.unwrap()@[i].0@) ==> client_config_entries(r)[#[trigger] config.librdkafka_options.unwrap()@[i].0@]
                == config.librdkafka_options.unwrap()@[i].1@,
{
    let mut client = client_config_new();
    client_config_set(&mut client, "group.id", config.group_id.as_str());
    client_config_set(&mut client, "bootstrap.servers", config.bootstrap_servers.as_str());
    client_config_set(&mut client, "auto.offset.reset", config.auto_offset_reset.as_str());
    let session = u64_to_string(config.session_timeout_ms);
    client_config_set(&mut client, "session.timeout.ms", session.as_str());
    let socket = u64_to_string(config.socket_timeout_ms);
    client_config_set(&mut client, "socket.timeout.ms", socket.as_str());
    let fetch = u64_to_string(config.fetch_wait_max_ms);
    client_config_set(&mut client, "fetch.wait.max.ms", fetch.as_str());
    client_config_set(&mut client, "enable.partition.eof", "false");
    client_config_set(&mut client, "enable.auto.commit", "true");
    let commit = u64_to_string(config.commit_interval_ms);
    client_config_set(&mut client, "auto.commit.interval.ms", commit.as_str());
    client_config_set(&mut client, "enable.auto.offset.store", "false");
    client_config_set(&mut client, "statistics.interval.ms", "1000");
    client_config_set(&mut client, "client.id", "vector");
    config.auth.apply(&mut client);
    let ghost with_auth = client_config_entries(client);
    match &config.librdkafka_options {
        Some(options) => {
            let n = options.len();
            let mut i: usize = 0;
            while i < n
                invariant
                    n == options@.len(),
                    0 <= i <= n,
                    client_config_entries(client) == applied_options(with_auth, options@.take(i as int)),
                decreases n - i,
            {
                proof {
                    assert(options@.take(i + 1).drop_last() =~= options@.take(i as int));
                }
                client_config_set(&mut client, options[i].0.as_str(), options[i].1.as_str());
                i = i + 1;
            }
            proof {
                assert(options@.take(n as int) =~= options@);
            }
            assert(config.librdkafka_options == Some(*options));
        },
        None => {},
    }
    proof {
        if config.librdkafka_options is Some {
            let o = config.librdkafka_options.unwrap()@;
            assert forall|i: int|
                0 <= i < o.len() && (forall|l: int| i < l < o.len() ==> #[trigger] o[l].0@ != o[i].0@)
                    implies client_config_entries(client)[#[trigger] o[i].0@] == o[i].1@ by {
                law_client_options_win(*config, i);
            }
        }
    }
    client
}

// ---------------------------------------------------------------------------
// Messages
// ---------------------------------------------------------------------------

/// What the source reads of a consumed Kafka message.
#[derive(Debug, Clone)]
pub struct KafkaMessage {
    pub payload: Option<Vec<u8>>,
    pub key: Option<Vec<u8>>,
    pub topic: String,
    pub partition: i32,
    pub offset: i64,
    /// The message timestamp in milliseconds since the epoch, when the message has one.
    pub timestamp_millis: Option<i64>,
    /// The message headers in order, each a name and a value.
    pub headers: Vec<(String, Vec<u8>)>,
}

/// The field names the source writes a message's key, topic, partition, offset and headers to.
#[derive(Debug, Clone)]
pub struct KafkaEventKeys {
    pub key_field: String,
    pub topic_key: String,
    pub partition_key: String,
    pub offset_key: String,
    pub headers_key: String,
}

impl KafkaSourceConfig {
    /// The field names this configuration chooses.
    pub fn event_keys(&self) -> (r: KafkaEventKeys)
        ensures
            r.key_field@ == self.key_field@,
            r.topic_key@ == self.topic_key@,
            r.partition_key@ == self.partition_key@,
            r.offset_key@ == self.offset_key@,
            r.headers_key@ == self.headers_key@,
    {
        KafkaEventKeys {
            key_field: self.key_field.clone(),
            topic_key: self.topic_key.clone(),
            partition_key: self.partition_key.clone(),
            offset_key: self.offset_key.clone(),
            headers_key: self.headers_key.clone(),
        }
    }
}

/// The earliest instant chrono represents, in milliseconds since the epoch
/// (`DateTime::<Utc>::MIN_UTC`, January 1 of year -262143, 00:00:00 UTC).
pub open spec fn chrono_min_millis() -> int {
    -8_334_601_228_800_000
}

/// The last millisecond chrono represents (`DateTime::<Utc>::MAX_UTC`, December 31 of
/// year 262142, 23:59:59.999 UTC).
pub open spec fn chrono_max_millis() -> int {
    8_210_266_876_799_999
}

/// Whether chrono can represent the instant `millis` milliseconds after the epoch.
pub open spec fn chrono_millis_in_range(millis: i64) -> bool {
    chrono_min_millis() <= millis <= chrono_max_millis()
}

/// The instant `millis` milliseconds after the epoch: whole seconds (rounded down) and
/// the nanoseconds past them.
pub open spec fn millis_instant(millis: i64) -> Instant {
    Instant { seconds: (millis / 1000) as i64, nanos: ((millis % 1000) * 1_000_000) as u32 }
}

/// `Utc.timestamp_millis_opt(millis).latest()`, read back as seconds (`timestamp`) and
/// nanoseconds (`timestamp_subsec_nanos`): present exactly when chrono represents the
/// instant (`DateTime::from_timestamp_millis`, between `MIN_UTC` and `MAX_UTC`), and then
/// `millis` split into whole seconds and the remaining milliseconds, as nanoseconds.
#[verifier::external_body]
fn utc_instant_from_millis(millis: i64) -> (r: Option<Instant>)
    ensures
        r is Some <==> chrono_millis_in_range(millis),
        r matches Some(t) ==> t == millis_instant(millis),
{
    chrono::Utc.timestamp_millis_opt(millis).latest().map(
        |t| Instant { seconds: t.timestamp(), nanos: t.timestamp_subsec_nanos() },
    )
}

/// What `String::from_utf8_lossy` makes of `bytes`.
pub uninterp spec fn utf8_lossy(bytes: Seq<u8>) -> Seq<char>;

/// `String::from_utf8_lossy`: the decoded text, with each invalid sequence replaced;
/// on valid UTF-8 it is exactly the decoded text.
#[verifier::external_body]
fn string_from_utf8_lossy(bytes: &[u8]) -> (r: String)
    ensures
        r@ == utf8_lossy(bytes@),
        valid_utf8(bytes@) ==> r@ == decode_utf8(bytes@),
{
    String::from_utf8_lossy(bytes).to_string()
}

/// The timestamp an event gets: the message's own when chrono can represent it, else `now`.
pub open spec fn event_timestamp(msg: KafkaMessage, now: Instant) -> Instant {
    match msg.timestamp_millis {
        Some(t) => if chrono_millis_in_range(t) {
            millis_instant(t)
        } else {
            now
        },
        None => now,
    }
}

/// The headers object: each header name mapped to its value, a later header replacing
/// an earlier one of the same name.
pub open spec fn headers_object(headers: Seq<(String, Vec<u8>)>) -> Seq<(Seq<char>, ValueModel)>
    decreases headers.len(),
{
    if headers.len() == 0 {
        Seq::empty()
    } else {
        assoc_insert(
            headers_object(headers.drop_last()),
            headers.last().0@,
            ValueModel::Bytes(headers.last().1@),
        )
    }
}

/// The value the message key is written as: its text, or null without a key.
pub open spec fn key_value(key: Option<Vec<u8>>) -> ValueModel {
    match key {
        Some(k) => ValueModel::Bytes(encode_utf8(utf8_lossy(k@))),
        None => ValueModel::Null,
    }
}

/// The fields of the event made of a message with the given payload: message, timestamp,
/// source type, key, topic, partition, offset and headers, set in that order.
pub open spec fn message_event(
    msg: KafkaMessage,
    payload: Seq<u8>,
    keys: KafkaEventKeys,
    schema: LogSchema,
    now: Instant,
) -> Seq<(Seq<char>, ValueModel)> {
    let e1 = set_field(Seq::empty(), schema.message_key@, ValueModel::Bytes(payload));
    let e2 = set_field(
        e1,
        schema.timestamp_key@,
        ValueModel::Timestamp(event_timestamp(msg, now)),
    );
    let e3 = set_field(e2, schema.source_type_key@, ValueModel::Bytes(encode_utf8("kafka"@)));
    let e4 = set_field(e3, keys.key_field@, key_value(msg.key));
    let e5 = set_field(e4, keys.topic_key@, ValueModel::Bytes(encode_utf8(msg.topic@)));
    let e6 = set_field(e5, keys.partition_key@, ValueModel::Integer(msg.partition as int));
    let e7 = set_field(e6, keys.offset_key@, ValueModel::Integer(msg.offset as int));
    set_field(e7, keys.headers_key@, ValueModel::Object(headers_object(msg.headers@)))
}

fn headers_value(headers: &Vec<(String, Vec<u8>)>) -> (r: LogValue)
    ensures
        value_model_is_object(r, headers_object(headers@)),
{
    let mut object = LogEvent::new();
    let n = headers.len();
    let mut i: usize = 0;
    while i < n
        invariant
            n == headers@.len(),
            0 <= i <= n,
            object@ == headers_object(headers@.take(i as int)),
        decreases n - i,
    {
        proof {
            assert(headers@.take(i + 1).drop_last() =~= headers@.take(i as int));
        }
        let value = LogValue::Bytes(headers[i].1.clone());
        object.insert_flat(headers[i].0.as_str(), value);
        i = i + 1;
    }
    proof {
        assert(headers@.take(n as int) =~= headers@);
    }
    LogValue::Object(object.into_entries())
}

/// `v` is an object with exactly the entries `entries`.
pub open spec fn value_model_is_object(v: LogValue, entries: Seq<(Seq<char>, ValueModel)>) -> bool {
    crate::event::value_model(v) == ValueModel::Object(entries)
}

/// The log event made of a consumed message; messages without a payload are skipped.
/// `now` stands in for a timestamp the message lacks or chrono cannot represent.
pub fn message_to_event(
    msg: &KafkaMessage,
    keys: &KafkaEventKeys,
    schema: &LogSchema,
    now: Instant,
) -> (r: Option<LogEvent>)
    ensures
        r is None <==> msg.payload is None,
        r is Some && msg.key is Some && valid_utf8(msg.key.unwrap()@) ==> key_value(msg.key)
            == ValueModel::Bytes(msg.key.unwrap()@),
        r matches Some(e) ==> e@ == message_event(
            *msg,
            msg.payload.unwrap()@,
            *keys,
            *schema,
            now,
        ),
{
    let payload = match &msg.payload {
        None => return None,
        Some(p) => p,
    };
    let mut log = LogEvent::new();
    log.insert(schema.message_key.as_str(), LogValue::Bytes(payload.clone()));
    let timestamp = match msg.timestamp_millis {
        Some(millis) => match utc_instant_from_millis(millis) {
            Some(t) => t,
            None => now,
        },
        None => now,
    };
    log.insert(schema.timestamp_key.as_str(), LogValue::Timestamp(timestamp));
    log.insert(schema.source_type_key.as_str(), LogValue::Bytes(str_bytes("kafka")));
    let key = match &msg.key {
        Some(k) => LogValue::Bytes(str_bytes(string_from_utf8_lossy(k.as_slice()).as_str())),
        None => LogValue::Null,
    };
    log.insert(keys.key_field.as_str(), key);
    log.insert(keys.topic_key.as_str(), LogValue::Bytes(str_bytes(msg.topic.as_str())));
    log.insert(keys.partition_key.as_str(), LogValue::Integer(msg.partition as i64));
    log.insert(keys.offset_key.as_str(), LogValue::Integer(msg.offset));
    log.insert(keys.headers_key.as_str(), headers_value(&msg.headers));
    Some(log)
}

/// What happens to a message's offset once its event has been sent on.
#[derive(Debug)]
pub enum OffsetDisposition {
    /// The offset waits in the committer until the event is acknowledged.
    AwaitAcknowledgement(CommitterEntry),
    /// The offset is stored right away.
    StoreNow,
}

/// With acknowledgements on, a sent message's offset waits for its acknowledgement;
/// otherwise it is stored right away.
pub fn offset_disposition(acknowledgements: bool, msg: &KafkaMessage) -> (r: OffsetDisposition)
    ensures
        acknowledgements ==> (r matches OffsetDisposition::AwaitAcknowledgement(e) && !e.done
            && e.topic@ == msg.topic@ && e.partition == msg.partition && e.offset == msg.offset),
        !acknowledgements ==> r is StoreNow,
{
    if acknowledgements {
        OffsetDisposition::AwaitAcknowledgement(
            CommitterEntry::from_message(msg.topic.as_str(), msg.partition, msg.offset),
        )
    } else {
        OffsetDisposition::StoreNow
    }
}

/// The consume loop's first decision on what the stream yields (`None` for a read error):
/// a read error or a message without a payload is skipped; any other message becomes the
/// event to send.
pub fn on_read(
    read: Option<&KafkaMessage>,
    keys: &KafkaEventKeys,
    schema: &LogSchema,
    now: Instant,
) -> (r: Option<LogEvent>)
    ensures
        match read {
            None => r is None,
            Some(msg) => (r is None <==> msg.payload is None) && (r matches Some(e) ==> e@
                == message_event(*msg, msg.payload.unwrap()@, *keys, *schema, now)),
        },
{
    match read {
        None => None,
        Some(msg) => message_to_event(msg, keys, schema, now),
    }
}

/// The consume loop's decision once the event has been handed on: a failed send leaves the
/// offset alone; after a successful one the offset waits for the acknowledgement (when
/// acknowledgements are on) or is stored right away.
pub fn after_send(sent: bool, acknowledgements: bool, msg: &KafkaMessage) -> (r: Option<
    OffsetDisposition,
>)
    ensures
        !sent ==> r is None,
        sent && acknowledgements ==> (r matches Some(OffsetDisposition::AwaitAcknowledgement(e))
            && !e.done && e.topic@ == msg.topic@ && e.partition == msg.partition && e.offset
            == msg.offset),
        sent && !acknowledgements ==> r matches Some(OffsetDisposition::StoreNow),
{
    if sent {
        Some(offset_disposition(acknowledgements, msg))
    } else {
        None
    }
}

/// The extra librdkafka options override every other setting: the client receives, for
/// each option key, the value of its last occurrence.
pub proof fn law_options_override(m: Map<Seq<char>, Seq<char>>, options: Seq<(String, String)>, i: int)
    requires
        0 <= i < options.len(),
        forall|l: int| i < l < options.len() ==> #[trigger] options[l].0@ != options[i].0@,
    ensures
        applied_options(m, options).contains_key(options[i].0@),
        applied_options(m, options)[options[i].0@] == options[i].1@,
    decreases options.len(),
{
    let n = options.len();
    if i < n - 1 {
        let prefix = options.drop_last();
        assert forall|l: int| i < l < prefix.len() implies #[trigger] prefix[l].0@ != prefix[i].0@ by {
            assert(prefix[l] == options[l] && prefix[i] == options[i]);
            assert(options[l].0@ != options[i].0@);
        }
        law_options_override(m, prefix, i);
        assert(prefix[i] == options[i]);
        assert(options[n - 1].0@ != options[i].0@);
    }
}


/// An extra librdkafka option is what the consumer gets for its key, whatever the source's
/// own settings and the authentication settings say: for each option key, the value of its
/// last occurrence.
pub proof fn law_client_options_win(c: KafkaSourceConfig, i: int)
    requires
        c.librdkafka_options is Some,
        0 <= i < c.librdkafka_options.unwrap()@.len(),
        forall|l: int|
            i < l < c.librdkafka_options.unwrap()@.len() ==> #[trigger] c.librdkafka_options.unwrap()@[l].0@
                != c.librdkafka_options.unwrap()@[i].0@,
    ensures
        client_settings(c).contains_key(c.librdkafka_options.unwrap()@[i].0@),
        client_settings(c)[c.librdkafka_options.unwrap()@[i].0@] == c.librdkafka_options.unwrap()@[i].1@,
{
    let o = c.librdkafka_options.unwrap();
    let base = no_settings().insert("group.id"@, c.group_id@).insert(
        "bootstrap.servers"@,
        c.bootstrap_servers@,
    ).insert("auto.offset.reset"@, c.auto_offset_reset@).insert(
        "session.timeout.ms"@,
        decimal(c.session_timeout_ms as nat),
    ).insert("socket.timeout.ms"@, decimal(c.socket_timeout_ms as nat)).insert(
        "fetch.wait.max.ms"@,
        decimal(c.fetch_wait_max_ms as nat),
    ).insert("enable.partition.eof"@, "false"@).insert("enable.auto.commit"@, "true"@).insert(
        "auto.commit.interval.ms"@,
        decimal(c.commit_interval_ms as nat),
    ).insert("enable.auto.offset.store"@, "false"@).insert("statistics.interval.ms"@, "1000"@).insert(
        "client.id"@,
        "vector"@,
    );
    law_options_override(c.auth.applied(base), o@, i);
}

/// The message key is readable at the configured key field of the event (as long as none
/// of the fields written after it, topic, partition, offset and headers, shares its place).
pub proof fn law_message_key_at_key_field(
    msg: KafkaMessage,
    payload: Seq<u8>,
    keys: KafkaEventKeys,
    schema: LogSchema,
    now: Instant,
)
    requires
        paths_diverge(split_dots(keys.topic_key@), split_dots(keys.key_field@)),
        paths_diverge(split_dots(keys.partition_key@), split_dots(keys.key_field@)),
        paths_diverge(split_dots(keys.offset_key@), split_dots(keys.key_field@)),
        paths_diverge(split_dots(keys.headers_key@), split_dots(keys.key_field@)),
    ensures
        field_at(message_event(msg, payload, keys, schema, now), keys.key_field@) == Some(
            key_value(msg.key),
        ),
{
    let kp = split_dots(keys.key_field@);
    let e1 = set_field(Seq::empty(), schema.message_key@, ValueModel::Bytes(payload));
    let e2 = set_field(e1, schema.timestamp_key@, ValueModel::Timestamp(event_timestamp(msg, now)));
    let e3 = set_field(e2, schema.source_type_key@, ValueModel::Bytes(encode_utf8("kafka"@)));
    let e4 = path_insert(e3, kp, key_value(msg.key));
    lemma_split_dots_len(keys.key_field@);
    law_path_get_after_insert(e3, kp, key_value(msg.key));
    let v5 = ValueModel::Bytes(encode_utf8(msg.topic@));
    let e5 = set_field(e4, keys.topic_key@, v5);
    law_path_insert_frame(e4, split_dots(keys.topic_key@), kp, v5);
    let v6 = ValueModel::Integer(msg.partition as int);
    let e6 = set_field(e5, keys.partition_key@, v6);
    law_path_insert_frame(e5, split_dots(keys.partition_key@), kp, v6);
    let v7 = ValueModel::Integer(msg.offset as int);
    let e7 = set_field(e6, keys.offset_key@, v7);
    law_path_insert_frame(e6, split_dots(keys.offset_key@), kp, v7);
    let v8 = ValueModel::Object(headers_object(msg.headers@));
    law_path_insert_frame(e7, split_dots(keys.headers_key@), kp, v8);
}
} // verus!
