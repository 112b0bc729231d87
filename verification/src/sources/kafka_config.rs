//! The Kafka source's configuration as a table of named values, as it is written in a
//! configuration file: which keys it takes, their types, the defaults of the optional
//! ones, and the table that a configuration is written back as.
use vstd::prelude::*;
use crate::event::{key_position, lemma_key_position, str_eq};
use crate::kafka::{KafkaAuthConfig, KafkaSaslConfig, KafkaTlsConfig};
use crate::sources::kafka::KafkaSourceConfig;

verus! {

/// A plain value inside a nested table.
#[derive(Debug, Clone)]
pub enum ConfigScalar {
    Boolean(bool),
    Integer(i64),
    String(String),
}

/// A value of the configuration table.
#[derive(Debug, Clone)]
pub enum ConfigValue {
    Boolean(bool),
    Integer(i64),
    String(String),
    StringArray(Vec<String>),
    Table(Vec<(String, ConfigScalar)>),
}

pub enum ScalarModel {
    Boolean(bool),
    Integer(int),
    String(Seq<char>),
}

pub enum FieldModel {
    Boolean(bool),
    Integer(int),
    String(Seq<char>),
    StringArray(Seq<Seq<char>>),
    Table(Seq<(Seq<char>, ScalarModel)>),
}

impl ConfigScalar {
    pub open spec fn model(&self) -> ScalarModel {
        match self {
            ConfigScalar::Boolean(b) => ScalarModel::Boolean(*b),
            ConfigScalar::Integer(i) => ScalarModel::Integer(*i as int),
            ConfigScalar::String(s) => ScalarModel::String(s@),
        }
    }
}

pub open spec fn strings_model(v: Seq<String>) -> Seq<Seq<char>> {
    Seq::new(v.len(), |i: int| v[i]@)
}

pub open spec fn table_model(t: Seq<(String, ConfigScalar)>) -> Seq<(Seq<char>, ScalarModel)> {
    Seq::new(t.len(), |i: int| (t[i].0@, t[i].1.model()))
}

impl ConfigValue {
    pub open spec fn model(&self) -> FieldModel {
        match self {
            ConfigValue::Boolean(b) => FieldModel::Boolean(*b),
            ConfigValue::Integer(i) => FieldModel::Integer(*i as int),
            ConfigValue::String(s) => FieldModel::String(s@),
            ConfigValue::StringArray(v) => FieldModel::StringArray(strings_model(v@)),
            ConfigValue::Table(t) => FieldModel::Table(table_model(t@)),
        }
    }
}

/// The model of a configuration table.
pub open spec fn fields_model(f: Seq<(String, ConfigValue)>) -> Seq<(Seq<char>, FieldModel)> {
    Seq::new(f.len(), |i: int| (f[i].0@, f[i].1.model()))
}

/// Why a table is not a valid configuration.
#[derive(Debug, PartialEq, Eq, Structural, Clone, Copy)]
pub enum ConfigErrorKind {
    MissingField,
    UnknownField,
    DuplicateField,
    InvalidType,
    OutOfRange,
}

/// An invalid configuration: what is wrong, and with which key.
#[derive(Debug, Clone)]
pub struct ConfigError {
    pub kind: ConfigErrorKind,
    pub field: String,
}

impl ConfigError {
    pub open spec fn model(&self) -> (ConfigErrorKind, Seq<char>) {
        (self.kind, self.field@)
    }
}

/// SASL settings as read from a table.
pub struct SaslModel {
    pub enabled: Option<bool>,
    pub username: Option<Seq<char>>,
    pub password: Option<Seq<char>>,
    pub mechanism: Option<Seq<char>>,
}

/// TLS settings as read from a table.
pub struct TlsModel {
    pub enabled: Option<bool>,
    pub ca_file: Option<Seq<char>>,
    pub crt_file: Option<Seq<char>>,
    pub key_file: Option<Seq<char>>,
    pub key_pass: Option<Seq<char>>,
}

/// The model of a Kafka source configuration.
pub struct KafkaConfigModel {
    pub bootstrap_servers: Seq<char>,
    pub topics: Seq<Seq<char>>,
    pub group_id: Seq<char>,
    pub auto_offset_reset: Seq<char>,
    pub session_timeout_ms: int,
    pub socket_timeout_ms: int,
    pub fetch_wait_max_ms: int,
    pub commit_interval_ms: int,
    pub key_field: Seq<char>,
    pub topic_key: Seq<char>,
    pub partition_key: Seq<char>,
    pub offset_key: Seq<char>,
    pub headers_key: Seq<char>,
    pub librdkafka_options: Option<Seq<(Seq<char>, Seq<char>)>>,
    pub sasl: Option<SaslModel>,
    pub tls: Option<TlsModel>,
}

pub open spec fn opt_str(o: Option<String>) -> Option<Seq<char>> {
    match o {
        Some(s) => Some(s@),
        None => None,
    }
}

pub open spec fn pairs_model(v: Seq<(String, String)>) -> Seq<(Seq<char>, Seq<char>)> {
    Seq::new(v.len(), |i: int| (v[i].0@, v[i].1@))
}

impl KafkaSourceConfig {
    pub open spec fn model(&self) -> KafkaConfigModel {
        KafkaConfigModel {
            bootstrap_servers: self.bootstrap_servers@,
            topics: strings_model(self.topics@),
            group_id: self.group_id@,
            auto_offset_reset: self.auto_offset_reset@,
            session_timeout_ms: self.session_timeout_ms as int,
            socket_timeout_ms: self.socket_timeout_ms as int,
            fetch_wait_max_ms: self.fetch_wait_max_ms as int,
            commit_interval_ms: self.commit_interval_ms as int,
            key_field: self.key_field@,
            topic_key: self.topic_key@,
            partition_key: self.partition_key@,
            offset_key: self.offset_key@,
            headers_key: self.headers_key@,
            librdkafka_options: match self.librdkafka_options {
                Some(o) => Some(pairs_model(o@)),
                None => None,
            },
            sasl: match self.auth.sasl {
                Some(s) => Some(
                    SaslModel {
                        enabled: s.enabled,
                        username: opt_str(s.username),
                        password: opt_str(s.password),
                        mechanism: opt_str(s.mechanism),
                    },
                ),
                None => None,
            },
            tls: match self.auth.tls {
                Some(t) => Some(
                    TlsModel {
                        enabled: t.enabled,
                        ca_file: opt_str(t.ca_file),
                        crt_file: opt_str(t.crt_file),
                        key_file: opt_str(t.key_file),
                        key_pass: opt_str(t.key_pass),
                    },
                ),
                None => None,
            },
        }
    }
}

// ---------------------------------------------------------------------------
// Keys and their types
// ---------------------------------------------------------------------------

/// The type a key of the table takes.
#[derive(Debug, PartialEq, Eq, Structural, Clone, Copy)]
pub enum FieldKind {
    /// A string.
    Text,
    /// An array of strings.
    TextList,
    /// A non-negative integer.
    Count,
    /// A table of strings.
    Options,
    /// A table of SASL settings.
    Sasl,
    /// A table of TLS settings.
    Tls,
}

/// The type of each key the table takes; `None` for any other key.
pub open spec fn field_kind(k: Seq<char>) -> Option<FieldKind> {
    if k == "bootstrap_servers"@ || k == "group_id"@ || k == "auto_offset_reset"@ || k
        == "key_field"@ || k == "topic_key"@ || k == "partition_key"@ || k == "offset_key"@ || k
        == "headers_key"@ {
        Some(FieldKind::Text)
    } else if k == "topics"@ {
        Some(FieldKind::TextList)
    } else if k == "session_timeout_ms"@ || k == "socket_timeout_ms"@ || k == "fetch_wait_max_ms"@
        || k == "commit_interval_ms"@ {
        Some(FieldKind::Count)
    } else if k == "librdkafka_options"@ {
        Some(FieldKind::Options)
    } else if k == "sasl"@ {
        Some(FieldKind::Sasl)
    } else if k == "tls"@ {
        Some(FieldKind::Tls)
    } else {
        None
    }
}

/// The type of a key of a SASL (`tls == false`) or TLS (`tls == true`) table: `Some(true)`
/// for a boolean, `Some(false)` for a string, `None` for a key that is ignored.
pub open spec fn nested_kind(tls: bool, k: Seq<char>) -> Option<bool> {
    if k == "enabled"@ {
        Some(true)
    } else if !tls && (k == "username"@ || k == "password"@ || k == "mechanism"@) {
        Some(false)
    } else if tls && (k == "ca_file"@ || k == "crt_file"@ || k == "key_file"@ || k == "key_pass"@) {
        Some(false)
    } else {
        None
    }
}

/// Each known key of a nested table appears once, with a value of its type.
pub open spec fn nested_table_fits(tls: bool, t: Seq<(Seq<char>, ScalarModel)>) -> bool {
    forall|j: int|
        0 <= j < t.len() ==> match #[trigger] nested_kind(tls, t[j].0) {
            Some(is_bool) => key_position(t.take(j), t[j].0) < 0 && (if is_bool {
                t[j].1 is Boolean
            } else {
                t[j].1 is String
            }),
            None => true,
        }
}

/// Every value of an options table is a string, and no option is given twice.
pub open spec fn options_fit(t: Seq<(Seq<char>, ScalarModel)>) -> bool {
    forall|j: int| 0 <= j < t.len() ==> #[trigger] t[j].1 is String && key_position(t.take(j), t[j].0) < 0
}

/// Whether `v` is a value of type `kind`.
pub open spec fn value_fits(kind: FieldKind, v: FieldModel) -> bool {
    match kind {
        FieldKind::Text => v is String,
        FieldKind::TextList => v is StringArray,
        FieldKind::Count => v matches FieldModel::Integer(i) && i >= 0,
        FieldKind::Options => v matches FieldModel::Table(t) && options_fit(t),
        FieldKind::Sasl => v matches FieldModel::Table(t) && nested_table_fits(false, t),
        FieldKind::Tls => v matches FieldModel::Table(t) && nested_table_fits(true, t),
    }
}

/// What is wrong with entry `e` following the entries `before`: an unknown key, a key
/// given twice, or a value of the wrong type.
pub open spec fn entry_problem(before: Seq<(Seq<char>, FieldModel)>, e: (Seq<char>, FieldModel)) -> Option<
    (ConfigErrorKind, Seq<char>),
> {
    match field_kind(e.0) {
        None => Some((ConfigErrorKind::UnknownField, e.0)),
        Some(kind) => if key_position(before, e.0) >= 0 {
            Some((ConfigErrorKind::DuplicateField, e.0))
        } else if !value_fits(kind, e.1) {
            Some((ConfigErrorKind::InvalidType, e.0))
        } else {
            None
        },
    }
}

/// The problem of the first entry that has one.
pub open spec fn first_problem(f: Seq<(Seq<char>, FieldModel)>) -> Option<(ConfigErrorKind, Seq<char>)>
    decreases f.len(),
{
    if f.len() == 0 {
        None
    } else {
        match first_problem(f.drop_last()) {
            Some(p) => Some(p),
            None => entry_problem(f.drop_last(), f.last()),
        }
    }
}

// ---------------------------------------------------------------------------
// Reading a table
// ---------------------------------------------------------------------------

pub open spec fn lookup<V>(f: Seq<(Seq<char>, V)>, k: Seq<char>) -> Option<V> {
    let p = key_position(f, k);
    if p >= 0 {
        Some(f[p].1)
    } else {
        None
    }
}

pub open spec fn text_or(f: Seq<(Seq<char>, FieldModel)>, k: Seq<char>, d: Seq<char>) -> Seq<char> {
    match lookup(f, k) {
        Some(FieldModel::String(s)) => s,
        _ => d,
    }
}

pub open spec fn count_or(f: Seq<(Seq<char>, FieldModel)>, k: Seq<char>, d: int) -> int {
    match lookup(f, k) {
        Some(FieldModel::Integer(i)) => i,
        _ => d,
    }
}

pub open spec fn scalar_bool(t: Seq<(Seq<char>, ScalarModel)>, k: Seq<char>) -> Option<bool> {
    match lookup(t, k) {
        Some(ScalarModel::Boolean(b)) => Some(b),
        _ => None,
    }
}

pub open spec fn scalar_str(t: Seq<(Seq<char>, ScalarModel)>, k: Seq<char>) -> Option<Seq<char>> {
    match lookup(t, k) {
        Some(ScalarModel::String(s)) => Some(s),
        _ => None,
    }
}

pub open spec fn options_of(t: Seq<(Seq<char>, ScalarModel)>) -> Seq<(Seq<char>, Seq<char>)> {
    Seq::new(
        t.len(),
        |i: int|
            (
                t[i].0,
                match t[i].1 {
                    ScalarModel::String(s) => s,
                    _ => Seq::empty(),
                },
            ),
    )
}

/// The configuration a valid table describes, with each missing optional key at its default.
pub open spec fn config_of(f: Seq<(Seq<char>, FieldModel)>) -> KafkaConfigModel {
    KafkaConfigModel {
        bootstrap_servers: text_or(f, "bootstrap_servers"@, Seq::empty()),
        topics: match lookup(f, "topics"@) {
            Some(FieldModel::StringArray(t)) => t,
            _ => Seq::empty(),
        },
        group_id: text_or(f, "group_id"@, Seq::empty()),
        auto_offset_reset: text_or(f, "auto_offset_reset"@, "largest"@),
        session_timeout_ms: count_or(f, "session_timeout_ms"@, 10000),
        socket_timeout_ms: count_or(f, "socket_timeout_ms"@, 60000),
        fetch_wait_max_ms: count_or(f, "fetch_wait_max_ms"@, 100),
        commit_interval_ms: count_or(f, "commit_interval_ms"@, 5000),
        key_field: text_or(f, "key_field"@, "message_key"@),
        topic_key: text_or(f, "topic_key"@, "topic"@),
        partition_key: text_or(f, "partition_key"@, "partition"@),
        offset_key: text_or(f, "offset_key"@, "offset"@),
        headers_key: text_or(f, "headers_key"@, "headers"@),
        librdkafka_options: match lookup(f, "librdkafka_options"@) {
            Some(FieldModel::Table(t)) => Some(options_of(t)),
            _ => None,
        },
        sasl: match lookup(f, "sasl"@) {
            Some(FieldModel::Table(t)) => Some(
                SaslModel {
                    enabled: scalar_bool(t, "enabled"@),
                    username: scalar_str(t, "username"@),
                    password: scalar_str(t, "password"@),
                    mechanism: scalar_str(t, "mechanism"@),
                },
            ),
            _ => None,
        },
        tls: match lookup(f, "tls"@) {
            Some(FieldModel::Table(t)) => Some(
                TlsModel {
                    enabled: scalar_bool(t, "enabled"@),
                    ca_file: scalar_str(t, "ca_file"@),
                    crt_file: scalar_str(t, "crt_file"@),
                    key_file: scalar_str(t, "key_file"@),
                    key_pass: scalar_str(t, "key_pass"@),
                },
            ),
            _ => None,
        },
    }
}

/// Reading a table: the first problem of an entry, if any; else the first missing required
/// key among `bootstrap_servers`, `topics` and `group_id`; else the configuration it describes.
pub open spec fn from_table(f: Seq<(Seq<char>, FieldModel)>) -> Result<
    KafkaConfigModel,
    (ConfigErrorKind, Seq<char>),
> {
    match first_problem(f) {
        Some(p) => Err(p),
        None => if key_position(f, "bootstrap_servers"@) < 0 {
            Err((ConfigErrorKind::MissingField, "bootstrap_servers"@))
        } else if key_position(f, "topics"@) < 0 {
            Err((ConfigErrorKind::MissingField, "topics"@))
        } else if key_position(f, "group_id"@) < 0 {
            Err((ConfigErrorKind::MissingField, "group_id"@))
        } else {
            Ok(config_of(f))
        },
    }
}

// ---------------------------------------------------------------------------
// Writing a table
// ---------------------------------------------------------------------------

pub open spec fn bool_entry(k: Seq<char>, v: Option<bool>) -> Seq<(Seq<char>, ScalarModel)> {
    match v {
        Some(b) => seq![(k, ScalarModel::Boolean(b))],
        None => Seq::empty(),
    }
}

pub open spec fn str_entry(k: Seq<char>, v: Option<Seq<char>>) -> Seq<(Seq<char>, ScalarModel)> {
    match v {
        Some(s) => seq![(k, ScalarModel::String(s))],
        None => Seq::empty(),
    }
}

/// The table SASL settings are written as: each setting that is present.
pub open spec fn sasl_table(s: SaslModel) -> Seq<(Seq<char>, ScalarModel)> {
    bool_entry("enabled"@, s.enabled) + str_entry("username"@, s.username) + str_entry(
        "password"@,
        s.password,
    ) + str_entry("mechanism"@, s.mechanism)
}

/// The table TLS settings are written as: each setting that is present.
pub open spec fn tls_table(t: TlsModel) -> Seq<(Seq<char>, ScalarModel)> {
    bool_entry("enabled"@, t.enabled) + str_entry("ca_file"@, t.ca_file) + str_entry(
        "crt_file"@,
        t.crt_file,
    ) + str_entry("key_file"@, t.key_file) + str_entry("key_pass"@, t.key_pass)
}

pub open spec fn options_table(o: Seq<(Seq<char>, Seq<char>)>) -> Seq<(Seq<char>, ScalarModel)> {
    Seq::new(o.len(), |i: int| (o[i].0, ScalarModel::String(o[i].1)))
}

/// The entries every configuration is written with, in order.
pub open spec fn base_table(c: KafkaConfigModel) -> Seq<(Seq<char>, FieldModel)> {
    seq![
        ("bootstrap_servers"@, FieldModel::String(c.bootstrap_servers)),
        ("topics"@, FieldModel::StringArray(c.topics)),
        ("group_id"@, FieldModel::String(c.group_id)),
        ("auto_offset_reset"@, FieldModel::String(c.auto_offset_reset)),
        ("session_timeout_ms"@, FieldModel::Integer(c.session_timeout_ms)),
        ("socket_timeout_ms"@, FieldModel::Integer(c.socket_timeout_ms)),
        ("fetch_wait_max_ms"@, FieldModel::Integer(c.fetch_wait_max_ms)),
        ("commit_interval_ms"@, FieldModel::Integer(c.commit_interval_ms)),
        ("key_field"@, FieldModel::String(c.key_field)),
        ("topic_key"@, FieldModel::String(c.topic_key)),
        ("partition_key"@, FieldModel::String(c.partition_key)),
        ("offset_key"@, FieldModel::String(c.offset_key)),
        ("headers_key"@, FieldModel::String(c.headers_key)),
    ]
}

/// The entries of the optional settings that are present, in order.
pub open spec fn optional_table(c: KafkaConfigModel) -> Seq<(Seq<char>, FieldModel)> {
    (match c.librdkafka_options {
        Some(o) => seq![("librdkafka_options"@, FieldModel::Table(options_table(o)))],
        None => Seq::empty(),
    }) + (match c.sasl {
        Some(sa) => seq![("sasl"@, FieldModel::Table(sasl_table(sa)))],
        None => Seq::empty(),
    }) + (match c.tls {
        Some(t) => seq![("tls"@, FieldModel::Table(tls_table(t)))],
        None => Seq::empty(),
    })
}

/// Writing a configuration as a table: table integers are 64-bit signed, so a duration
/// above `i64::MAX` cannot be written (the first such key, in order, is reported).
pub open spec fn to_table(c: KafkaConfigModel) -> Result<
    Seq<(Seq<char>, FieldModel)>,
    (ConfigErrorKind, Seq<char>),
> {
    if c.session_timeout_ms > i64::MAX {
        Err((ConfigErrorKind::OutOfRange, "session_timeout_ms"@))
    } else if c.socket_timeout_ms > i64::MAX {
        Err((ConfigErrorKind::OutOfRange, "socket_timeout_ms"@))
    } else if c.fetch_wait_max_ms > i64::MAX {
        Err((ConfigErrorKind::OutOfRange, "fetch_wait_max_ms"@))
    } else if c.commit_interval_ms > i64::MAX {
        Err((ConfigErrorKind::OutOfRange, "commit_interval_ms"@))
    } else {
        Ok(base_table(c) + optional_table(c))
    }
}

/// A model that a `KafkaSourceConfig` can have: its durations are `u64` values.
pub open spec fn durations_in_range(c: KafkaConfigModel) -> bool {
    &&& 0 <= c.session_timeout_ms <= u64::MAX
    &&& 0 <= c.socket_timeout_ms <= u64::MAX
    &&& 0 <= c.fetch_wait_max_ms <= u64::MAX
    &&& 0 <= c.commit_interval_ms <= u64::MAX
}

/// No two entries share a key.
pub open spec fn keys_distinct<V>(f: Seq<(Seq<char>, V)>) -> bool {
    forall|i: int, j: int| 0 <= i < j < f.len() ==> f[i].0 != f[j].0
}

proof fn lemma_lookup_distinct<V>(f: Seq<(Seq<char>, V)>, i: int)
    requires
        keys_distinct(f),
        0 <= i < f.len(),
    ensures
        key_position(f, f[i].0) == i,
        lookup(f, f[i].0) == Some(f[i].1),
{
    lemma_key_position(f, f[i].0);
}

proof fn lemma_lookup_absent<V>(f: Seq<(Seq<char>, V)>, k: Seq<char>)
    requires
        forall|i: int| 0 <= i < f.len() ==> f[i].0 != k,
    ensures
        key_position(f, k) == -1,
        lookup(f, k) is None,
{
    lemma_key_position(f, k);
}

/// The key of `e` is known and its value has the key's type.
pub open spec fn entry_fits(e: (Seq<char>, FieldModel)) -> bool {
    match field_kind(e.0) {
        Some(kind) => value_fits(kind, e.1),
        None => false,
    }
}

proof fn lemma_no_problem(f: Seq<(Seq<char>, FieldModel)>)
    requires
        keys_distinct(f),
        forall|i: int| 0 <= i < f.len() ==> #[trigger] entry_fits(f[i]),
    ensures
        first_problem(f) is None,
    decreases f.len(),
{
    if f.len() > 0 {
        let g = f.drop_last();
        assert forall|i: int| 0 <= i < g.len() implies #[trigger] entry_fits(g[i]) by {
            assert(g[i] == f[i]);
            assert(entry_fits(f[i]));
        }
        lemma_no_problem(g);
        lemma_lookup_absent(g, f.last().0);
        assert(entry_fits(f[f.len() - 1]));
    }
}

proof fn lemma_position_is<V>(s: Seq<(Seq<char>, V)>, k: Seq<char>, i: int)
    requires
        0 <= i < s.len(),
        s[i].0 == k,
        forall|j: int| 0 <= j < i ==> s[j].0 != k,
    ensures
        key_position(s, k) == i,
{
    lemma_key_position(s, k);
}

proof fn lemma_lookup_concat<V>(a: Seq<(Seq<char>, V)>, b: Seq<(Seq<char>, V)>, k: Seq<char>)
    ensures
        lookup(a + b, k) == (if lookup(a, k) is Some {
            lookup(a, k)
        } else {
            lookup(b, k)
        }),
        key_position(a + b, k) >= 0 <==> (key_position(a, k) >= 0 || key_position(b, k) >= 0),
{
    lemma_key_position(a, k);
    lemma_key_position(b, k);
    lemma_key_position(a + b, k);
    let pa = key_position(a, k);
    let pb = key_position(b, k);
    if pa >= 0 {
        assert forall|j: int| 0 <= j < pa implies (a + b)[j].0 != k by {
            assert((a + b)[j] == a[j]);
        }
        assert((a + b)[pa] == a[pa]);
        lemma_position_is(a + b, k, pa);
    } else if pb >= 0 {
        assert forall|j: int| 0 <= j < a.len() + pb implies (a + b)[j].0 != k by {
            if j < a.len() {
                assert((a + b)[j] == a[j]);
            } else {
                assert((a + b)[j] == b[j - a.len()]);
            }
        }
        assert((a + b)[a.len() + pb] == b[pb]);
        lemma_position_is(a + b, k, a.len() + pb);
    } else {
        assert forall|j: int| 0 <= j < (a + b).len() implies (a + b)[j].0 != k by {
            if j < a.len() {
                assert((a + b)[j] == a[j]);
            } else {
                assert((a + b)[j] == b[j - a.len()]);
            }
        }
        lemma_lookup_absent(a + b, k);
    }
}

proof fn lemma_lookup_single<V>(k0: Seq<char>, v: V, k: Seq<char>)
    ensures
        lookup(seq![(k0, v)], k) == (if k0 == k {
            Some(v)
        } else {
            None::<V>
        }),
{
    lemma_key_position(seq![(k0, v)], k);
}

proof fn lemma_lookup_empty<V>(k: Seq<char>)
    ensures
        lookup(Seq::<(Seq<char>, V)>::empty(), k) is None,
{
}

proof fn lemma_distinct_concat<V>(a: Seq<(Seq<char>, V)>, b: Seq<(Seq<char>, V)>)
    requires
        keys_distinct(a),
        keys_distinct(b),
        forall|i: int, j: int| 0 <= i < a.len() && 0 <= j < b.len() ==> a[i].0 != b[j].0,
    ensures
        keys_distinct(a + b),
{
    assert forall|i: int, j: int| 0 <= i < j < (a + b).len() implies (a + b)[i].0 != (a + b)[j].0 by {
        if j < a.len() {
            assert((a + b)[i] == a[i] && (a + b)[j] == a[j]);
        } else if i < a.len() {
            assert((a + b)[i] == a[i] && (a + b)[j] == b[j - a.len()]);
        } else {
            assert((a + b)[i] == b[i - a.len()] && (a + b)[j] == b[j - a.len()]);
        }
    }
}

proof fn lemma_distinct_no_earlier<V>(t: Seq<(Seq<char>, V)>)
    requires
        keys_distinct(t),
    ensures
        forall|j: int| 0 <= j < t.len() ==> key_position(#[trigger] t.take(j), t[j].0) < 0,
{
    assert forall|j: int| 0 <= j < t.len() implies key_position(#[trigger] t.take(j), t[j].0) < 0 by {
        assert forall|i: int| 0 <= i < t.take(j).len() implies t.take(j)[i].0 != t[j].0 by {
            assert(t.take(j)[i] == t[i]);
        }
        lemma_lookup_absent(t.take(j), t[j].0);
    }
}

/// The keys of SASL and TLS tables differ from one another.
proof fn lemma_nested_keys_distinct()
    ensures
        "enabled"@ != "username"@,
        "enabled"@ != "password"@,
        "enabled"@ != "mechanism"@,
        "username"@ != "password"@,
        "username"@ != "mechanism"@,
        "password"@ != "mechanism"@,
        "enabled"@ != "ca_file"@,
        "enabled"@ != "crt_file"@,
        "enabled"@ != "key_file"@,
        "enabled"@ != "key_pass"@,
        "ca_file"@ != "crt_file"@,
        "ca_file"@ != "key_file"@,
        "ca_file"@ != "key_pass"@,
        "crt_file"@ != "key_file"@,
        "crt_file"@ != "key_pass"@,
        "key_file"@ != "key_pass"@,
{
    reveal_strlit("enabled");
    reveal_strlit("username");
    reveal_strlit("password");
    reveal_strlit("mechanism");
    reveal_strlit("ca_file");
    reveal_strlit("crt_file");
    reveal_strlit("key_file");
    reveal_strlit("key_pass");
    assert("enabled"@[0] != "username"@[0]);
    assert("enabled"@[0] != "password"@[0]);
    assert("enabled"@[0] != "mechanism"@[0]);
    assert("username"@[0] != "password"@[0]);
    assert("username"@[0] != "mechanism"@[0]);
    assert("password"@[0] != "mechanism"@[0]);
    assert("enabled"@[0] != "ca_file"@[0]);
    assert("enabled"@[0] != "crt_file"@[0]);
    assert("enabled"@[0] != "key_file"@[0]);
    assert("enabled"@[0] != "key_pass"@[0]);
    assert("ca_file"@[1] != "crt_file"@[1]);
    assert("ca_file"@[0] != "key_file"@[0]);
    assert("ca_file"@[0] != "key_pass"@[0]);
    assert("crt_file"@[0] != "key_file"@[0]);
    assert("crt_file"@[0] != "key_pass"@[0]);
    assert("key_file"@[4] != "key_pass"@[4]);
}

/// The SASL table is read back as the settings it was written from.
proof fn lemma_sasl_lookups(s: SaslModel)
    ensures
        scalar_bool(sasl_table(s), "enabled"@) == s.enabled,
        scalar_str(sasl_table(s), "username"@) == s.username,
        scalar_str(sasl_table(s), "password"@) == s.password,
        scalar_str(sasl_table(s), "mechanism"@) == s.mechanism,
{
    lemma_nested_keys_distinct();
    let e = bool_entry("enabled"@, s.enabled);
    let u = str_entry("username"@, s.username);
    let p = str_entry("password"@, s.password);
    let m = str_entry("mechanism"@, s.mechanism);
    assert(sasl_table(s) == e + u + p + m);
    lemma_lookup4(e, u, p, m, "enabled"@);
    lemma_lookup4(e, u, p, m, "username"@);
    lemma_lookup4(e, u, p, m, "password"@);
    lemma_lookup4(e, u, p, m, "mechanism"@);
    lemma_bool_entry_lookup("enabled"@, s.enabled, "username"@);
    lemma_bool_entry_lookup("enabled"@, s.enabled, "password"@);
    lemma_bool_entry_lookup("enabled"@, s.enabled, "mechanism"@);
    lemma_bool_entry_lookup("enabled"@, s.enabled, "enabled"@);
    lemma_str_entry_lookup("username"@, s.username, "enabled"@);
    lemma_str_entry_lookup("username"@, s.username, "username"@);
    lemma_str_entry_lookup("username"@, s.username, "password"@);
    lemma_str_entry_lookup("username"@, s.username, "mechanism"@);
    lemma_str_entry_lookup("password"@, s.password, "enabled"@);
    lemma_str_entry_lookup("password"@, s.password, "username"@);
    lemma_str_entry_lookup("password"@, s.password, "password"@);
    lemma_str_entry_lookup("password"@, s.password, "mechanism"@);
    lemma_str_entry_lookup("mechanism"@, s.mechanism, "enabled"@);
    lemma_str_entry_lookup("mechanism"@, s.mechanism, "username"@);
    lemma_str_entry_lookup("mechanism"@, s.mechanism, "password"@);
    lemma_str_entry_lookup("mechanism"@, s.mechanism, "mechanism"@);
}

/// Keys drawn from `k0..k3` segment by segment are distinct when the `k`s are.
proof fn lemma_distinct4<V>(
    a: Seq<(Seq<char>, V)>,
    b: Seq<(Seq<char>, V)>,
    c: Seq<(Seq<char>, V)>,
    d: Seq<(Seq<char>, V)>,
    k0: Seq<char>,
    k1: Seq<char>,
    k2: Seq<char>,
    k3: Seq<char>,
)
    requires
        keys_distinct(a),
        keys_distinct(b),
        keys_distinct(c),
        keys_distinct(d),
        forall|i: int| 0 <= i < a.len() ==> #[trigger] a[i].0 == k0,
        forall|i: int| 0 <= i < b.len() ==> #[trigger] b[i].0 == k1,
        forall|i: int| 0 <= i < c.len() ==> #[trigger] c[i].0 == k2,
        forall|i: int| 0 <= i < d.len() ==> #[trigger] d[i].0 == k3,
        k0 != k1,
        k0 != k2,
        k0 != k3,
        k1 != k2,
        k1 != k3,
        k2 != k3,
    ensures
        keys_distinct(a + b + c + d),
        forall|i: int|
            0 <= i < (a + b + c + d).len() ==> #[trigger] (a + b + c + d)[i].0 == k0 || (a + b + c
                + d)[i].0 == k1 || (a + b + c + d)[i].0 == k2 || (a + b + c + d)[i].0 == k3,
{
    lemma_distinct_concat(a, b);
    assert forall|i: int| 0 <= i < (a + b).len() implies #[trigger] (a + b)[i].0 == k0 || (a
        + b)[i].0 == k1 by {
        if i < a.len() {
            assert((a + b)[i] == a[i]);
        } else {
            assert((a + b)[i] == b[i - a.len()]);
        }
    }
    lemma_distinct_concat(a + b, c);
    assert forall|i: int| 0 <= i < (a + b + c).len() implies #[trigger] (a + b + c)[i].0 == k0 || (a
        + b + c)[i].0 == k1 || (a + b + c)[i].0 == k2 by {
        if i < (a + b).len() {
            assert((a + b + c)[i] == (a + b)[i]);
        } else {
            assert((a + b + c)[i] == c[i - (a + b).len()]);
        }
    }
    lemma_distinct_concat(a + b + c, d);
    assert forall|i: int| 0 <= i < (a + b + c + d).len() implies #[trigger] (a + b + c + d)[i].0
        == k0 || (a + b + c + d)[i].0 == k1 || (a + b + c + d)[i].0 == k2 || (a + b + c
        + d)[i].0 == k3 by {
        if i < (a + b + c).len() {
            assert((a + b + c + d)[i] == (a + b + c)[i]);
        } else {
            assert((a + b + c + d)[i] == d[i - (a + b + c).len()]);
        }
    }
}

/// The SASL table has each key once, with a value of its type.
proof fn lemma_sasl_fits(s: SaslModel)
    ensures
        nested_table_fits(false, sasl_table(s)),
{
    lemma_nested_keys_distinct();
    let e = bool_entry("enabled"@, s.enabled);
    let u = str_entry("username"@, s.username);
    let p = str_entry("password"@, s.password);
    let m = str_entry("mechanism"@, s.mechanism);
    let t = sasl_table(s);
    assert(t == e + u + p + m);
    lemma_bool_entry_keys("enabled"@, s.enabled);
    lemma_str_entry_keys("username"@, s.username);
    lemma_str_entry_keys("password"@, s.password);
    lemma_str_entry_keys("mechanism"@, s.mechanism);
    lemma_distinct4(e, u, p, m, "enabled"@, "username"@, "password"@, "mechanism"@);
    lemma_distinct_no_earlier(t);
    assert forall|j: int| 0 <= j < t.len() implies match #[trigger] nested_kind(false, t[j].0) {
        Some(is_bool) => key_position(t.take(j), t[j].0) < 0 && (if is_bool {
            t[j].1 is Boolean
        } else {
            t[j].1 is String
        }),
        None => true,
    } by {
        let a = e + u;
        let b2 = a + p;
        if j < e.len() {
            assert(t[j] == e[j]);
        } else if j < a.len() {
            assert(t[j] == u[j - e.len()]);
        } else if j < b2.len() {
            assert(t[j] == p[j - a.len()]);
        } else {
            assert(t[j] == m[j - b2.len()]);
        }
    }
}

proof fn lemma_lookup4<V>(
    a: Seq<(Seq<char>, V)>,
    b: Seq<(Seq<char>, V)>,
    c: Seq<(Seq<char>, V)>,
    d: Seq<(Seq<char>, V)>,
    k: Seq<char>,
)
    ensures
        lookup(a + b + c + d, k) == (if lookup(a, k) is Some {
            lookup(a, k)
        } else if lookup(b, k) is Some {
            lookup(b, k)
        } else if lookup(c, k) is Some {
            lookup(c, k)
        } else {
            lookup(d, k)
        }),
{
    lemma_lookup_concat(a, b, k);
    lemma_lookup_concat(a + b, c, k);
    lemma_lookup_concat(a + b + c, d, k);
}

proof fn lemma_bool_entry_lookup(k0: Seq<char>, v: Option<bool>, k: Seq<char>)
    ensures
        lookup(bool_entry(k0, v), k) == (match v {
            Some(b) => if k0 == k {
                Some(ScalarModel::Boolean(b))
            } else {
                None
            },
            None => None,
        }),
{
    match v {
        Some(b) => lemma_lookup_single(k0, ScalarModel::Boolean(b), k),
        None => lemma_lookup_empty::<ScalarModel>(k),
    }
}

proof fn lemma_str_entry_lookup(k0: Seq<char>, v: Option<Seq<char>>, k: Seq<char>)
    ensures
        lookup(str_entry(k0, v), k) == (match v {
            Some(x) => if k0 == k {
                Some(ScalarModel::String(x))
            } else {
                None
            },
            None => None,
        }),
{
    match v {
        Some(x) => lemma_lookup_single(k0, ScalarModel::String(x), k),
        None => lemma_lookup_empty::<ScalarModel>(k),
    }
}

proof fn lemma_bool_entry_keys(k0: Seq<char>, v: Option<bool>)
    ensures
        bool_entry(k0, v).len() <= 1,
        keys_distinct(bool_entry(k0, v)),
        forall|i: int| 0 <= i < bool_entry(k0, v).len() ==> #[trigger] bool_entry(k0, v)[i].0 == k0,
{
}

proof fn lemma_str_entry_keys(k0: Seq<char>, v: Option<Seq<char>>)
    ensures
        str_entry(k0, v).len() <= 1,
        keys_distinct(str_entry(k0, v)),
        forall|i: int| 0 <= i < str_entry(k0, v).len() ==> #[trigger] str_entry(k0, v)[i].0 == k0,
{
}

proof fn lemma_tls_lookups(t: TlsModel)
    ensures
        scalar_bool(tls_table(t), "enabled"@) == t.enabled,
        scalar_str(tls_table(t), "ca_file"@) == t.ca_file,
        scalar_str(tls_table(t), "crt_file"@) == t.crt_file,
        scalar_str(tls_table(t), "key_file"@) == t.key_file,
        scalar_str(tls_table(t), "key_pass"@) == t.key_pass,
{
    lemma_nested_keys_distinct();
    let e = bool_entry("enabled"@, t.enabled);
    let a = str_entry("ca_file"@, t.ca_file);
    let c = str_entry("crt_file"@, t.crt_file);
    let kf = str_entry("key_file"@, t.key_file);
    let kp = str_entry("key_pass"@, t.key_pass);
    assert(tls_table(t) == e + a + c + kf + kp);
    let ks = seq!["enabled"@, "ca_file"@, "crt_file"@, "key_file"@, "key_pass"@];
    assert forall|i: int| 0 <= i < 5 implies #[trigger] lookup(tls_table(t), ks[i]) == (if lookup(
        e + a + c + kf,
        ks[i],
    ) is Some {
        lookup(e + a + c + kf, ks[i])
    } else {
        lookup(kp, ks[i])
    }) by {
        lemma_lookup_concat(e + a + c + kf, kp, ks[i]);
    }
    assert(ks[0] == "enabled"@ && ks[1] == "ca_file"@ && ks[2] == "crt_file"@ && ks[3]
        == "key_file"@ && ks[4] == "key_pass"@);
    assert(lookup(tls_table(t), ks[0]) == lookup(tls_table(t), "enabled"@));
    lemma_lookup4(e, a, c, kf, "enabled"@);
    lemma_lookup4(e, a, c, kf, "ca_file"@);
    lemma_lookup4(e, a, c, kf, "crt_file"@);
    lemma_lookup4(e, a, c, kf, "key_file"@);
    lemma_lookup4(e, a, c, kf, "key_pass"@);
    lemma_bool_entry_lookup("enabled"@, t.enabled, "enabled"@);
    lemma_bool_entry_lookup("enabled"@, t.enabled, "ca_file"@);
    lemma_bool_entry_lookup("enabled"@, t.enabled, "crt_file"@);
    lemma_bool_entry_lookup("enabled"@, t.enabled, "key_file"@);
    lemma_bool_entry_lookup("enabled"@, t.enabled, "key_pass"@);
    lemma_str_entry_lookup("ca_file"@, t.ca_file, "enabled"@);
    lemma_str_entry_lookup("ca_file"@, t.ca_file, "ca_file"@);
    lemma_str_entry_lookup("ca_file"@, t.ca_file, "crt_file"@);
    lemma_str_entry_lookup("ca_file"@, t.ca_file, "key_file"@);
    lemma_str_entry_lookup("ca_file"@, t.ca_file, "key_pass"@);
    lemma_str_entry_lookup("crt_file"@, t.crt_file, "enabled"@);
    lemma_str_entry_lookup("crt_file"@, t.crt_file, "ca_file"@);
    lemma_str_entry_lookup("crt_file"@, t.crt_file, "crt_file"@);
    lemma_str_entry_lookup("crt_file"@, t.crt_file, "key_file"@);
    lemma_str_entry_lookup("crt_file"@, t.crt_file, "key_pass"@);
    lemma_str_entry_lookup("key_file"@, t.key_file, "enabled"@);
    lemma_str_entry_lookup("key_file"@, t.key_file, "ca_file"@);
    lemma_str_entry_lookup("key_file"@, t.key_file, "crt_file"@);
    lemma_str_entry_lookup("key_file"@, t.key_file, "key_file"@);
    lemma_str_entry_lookup("key_file"@, t.key_file, "key_pass"@);
    lemma_str_entry_lookup("key_pass"@, t.key_pass, "enabled"@);
    lemma_str_entry_lookup("key_pass"@, t.key_pass, "ca_file"@);
    lemma_str_entry_lookup("key_pass"@, t.key_pass, "crt_file"@);
    lemma_str_entry_lookup("key_pass"@, t.key_pass, "key_file"@);
    lemma_str_entry_lookup("key_pass"@, t.key_pass, "key_pass"@);
    assert(lookup(tls_table(t), ks[1]) == lookup(tls_table(t), "ca_file"@));
    assert(lookup(tls_table(t), ks[2]) == lookup(tls_table(t), "crt_file"@));
    assert(lookup(tls_table(t), ks[3]) == lookup(tls_table(t), "key_file"@));
    assert(lookup(tls_table(t), ks[4]) == lookup(tls_table(t), "key_pass"@));
}

/// The TLS table has each key once, with a value of its type.
proof fn lemma_tls_fits(t: TlsModel)
    ensures
        nested_table_fits(true, tls_table(t)),
{
    lemma_nested_keys_distinct();
    let e = bool_entry("enabled"@, t.enabled);
    let a = str_entry("ca_file"@, t.ca_file);
    let c = str_entry("crt_file"@, t.crt_file);
    let kf = str_entry("key_file"@, t.key_file);
    let kp = str_entry("key_pass"@, t.key_pass);
    let tt = tls_table(t);
    assert(tt == e + a + c + kf + kp);
    lemma_bool_entry_keys("enabled"@, t.enabled);
    lemma_str_entry_keys("ca_file"@, t.ca_file);
    lemma_str_entry_keys("crt_file"@, t.crt_file);
    lemma_str_entry_keys("key_file"@, t.key_file);
    lemma_str_entry_keys("key_pass"@, t.key_pass);
    lemma_distinct4(e, a, c, kf, "enabled"@, "ca_file"@, "crt_file"@, "key_file"@);
    let h = e + a + c + kf;
    assert forall|i: int, j: int| 0 <= i < h.len() && 0 <= j < kp.len() implies h[i].0 != kp[j].0 by {
        assert(h[i].0 == "enabled"@ || h[i].0 == "ca_file"@ || h[i].0 == "crt_file"@ || h[i].0
            == "key_file"@);
    }
    lemma_distinct_concat(h, kp);
    lemma_distinct_no_earlier(tt);
    assert forall|j: int| 0 <= j < tt.len() implies match #[trigger] nested_kind(true, tt[j].0) {
        Some(is_bool) => key_position(tt.take(j), tt[j].0) < 0 && (if is_bool {
            tt[j].1 is Boolean
        } else {
            tt[j].1 is String
        }),
        None => true,
    } by {
        let x1 = e + a;
        let x2 = x1 + c;
        if j < e.len() {
            assert(tt[j] == e[j]);
        } else if j < x1.len() {
            assert(tt[j] == a[j - e.len()]);
        } else if j < x2.len() {
            assert(tt[j] == c[j - x1.len()]);
        } else if j < h.len() {
            assert(tt[j] == kf[j - x2.len()]);
        } else {
            assert(tt[j] == kp[j - h.len()]);
        }
    }
}

/// The keys of the configuration table differ from one another.
proof fn lemma_top_keys_distinct()
    ensures
        "bootstrap_servers"@ != "topics"@,
        "bootstrap_servers"@ != "group_id"@,
        "bootstrap_servers"@ != "auto_offset_reset"@,
        "bootstrap_servers"@ != "session_timeout_ms"@,
        "bootstrap_servers"@ != "socket_timeout_ms"@,
        "bootstrap_servers"@ != "fetch_wait_max_ms"@,
        "bootstrap_servers"@ != "commit_interval_ms"@,
        "bootstrap_servers"@ != "key_field"@,
        "bootstrap_servers"@ != "topic_key"@,
        "bootstrap_servers"@ != "partition_key"@,
        "bootstrap_servers"@ != "offset_key"@,
        "bootstrap_servers"@ != "headers_key"@,
        "bootstrap_servers"@ != "librdkafka_options"@,
        "bootstrap_servers"@ != "sasl"@,
        "bootstrap_servers"@ != "tls"@,
        "topics"@ != "group_id"@,
        "topics"@ != "auto_offset_reset"@,
        "topics"@ != "session_timeout_ms"@,
        "topics"@ != "socket_timeout_ms"@,
        "topics"@ != "fetch_wait_max_ms"@,
        "topics"@ != "commit_interval_ms"@,
        "topics"@ != "key_field"@,
        "topics"@ != "topic_key"@,
        "topics"@ != "partition_key"@,
        "topics"@ != "offset_key"@,
        "topics"@ != "headers_key"@,
        "topics"@ != "librdkafka_options"@,
        "topics"@ != "sasl"@,
        "topics"@ != "tls"@,
        "group_id"@ != "auto_offset_reset"@,
        "group_id"@ != "session_timeout_ms"@,
        "group_id"@ != "socket_timeout_ms"@,
        "group_id"@ != "fetch_wait_max_ms"@,
        "group_id"@ != "commit_interval_ms"@,
        "group_id"@ != "key_field"@,
        "group_id"@ != "topic_key"@,
        "group_id"@ != "partition_key"@,
        "group_id"@ != "offset_key"@,
        "group_id"@ != "headers_key"@,
        "group_id"@ != "librdkafka_options"@,
        "group_id"@ != "sasl"@,
        "group_id"@ != "tls"@,
        "auto_offset_reset"@ != "session_timeout_ms"@,
        "auto_offset_reset"@ != "socket_timeout_ms"@,
        "auto_offset_reset"@ != "fetch_wait_max_ms"@,
        "auto_offset_reset"@ != "commit_interval_ms"@,
        "auto_offset_reset"@ != "key_field"@,
        "auto_offset_reset"@ != "topic_key"@,
        "auto_offset_reset"@ != "partition_key"@,
        "auto_offset_reset"@ != "offset_key"@,
        "auto_offset_reset"@ != "headers_key"@,
        "auto_offset_reset"@ != "librdkafka_options"@,
        "auto_offset_reset"@ != "sasl"@,
        "auto_offset_reset"@ != "tls"@,
        "session_timeout_ms"@ != "socket_timeout_ms"@,
        "session_timeout_ms"@ != "fetch_wait_max_ms"@,
        "session_timeout_ms"@ != "commit_interval_ms"@,
        "session_timeout_ms"@ != "key_field"@,
        "session_timeout_ms"@ != "topic_key"@,
        "session_timeout_ms"@ != "partition_key"@,
        "session_timeout_ms"@ != "offset_key"@,
        "session_timeout_ms"@ != "headers_key"@,
        "session_timeout_ms"@ != "librdkafka_options"@,
        "session_timeout_ms"@ != "sasl"@,
        "session_timeout_ms"@ != "tls"@,
        "socket_timeout_ms"@ != "fetch_wait_max_ms"@,
        "socket_timeout_ms"@ != "commit_interval_ms"@,
        "socket_timeout_ms"@ != "key_field"@,
        "socket_timeout_ms"@ != "topic_key"@,
        "socket_timeout_ms"@ != "partition_key"@,
        "socket_timeout_ms"@ != "offset_key"@,
        "socket_timeout_ms"@ != "headers_key"@,
        "socket_timeout_ms"@ != "librdkafka_options"@,
        "socket_timeout_ms"@ != "sasl"@,
        "socket_timeout_ms"@ != "tls"@,
        "fetch_wait_max_ms"@ != "commit_interval_ms"@,
        "fetch_wait_max_ms"@ != "key_field"@,
        "fetch_wait_max_ms"@ != "topic_key"@,
        "fetch_wait_max_ms"@ != "partition_key"@,
        "fetch_wait_max_ms"@ != "offset_key"@,
        "fetch_wait_max_ms"@ != "headers_key"@,
        "fetch_wait_max_ms"@ != "librdkafka_options"@,
        "fetch_wait_max_ms"@ != "sasl"@,
        "fetch_wait_max_ms"@ != "tls"@,
        "commit_interval_ms"@ != "key_field"@,
        "commit_interval_ms"@ != "topic_key"@,
        "commit_interval_ms"@ != "partition_key"@,
        "commit_interval_ms"@ != "offset_key"@,
        "commit_interval_ms"@ != "headers_key"@,
        "commit_interval_ms"@ != "librdkafka_options"@,
        "commit_interval_ms"@ != "sasl"@,
        "commit_interval_ms"@ != "tls"@,
        "key_field"@ != "topic_key"@,
        "key_field"@ != "partition_key"@,
        "key_field"@ != "offset_key"@,
        "key_field"@ != "headers_key"@,
        "key_field"@ != "librdkafka_options"@,
        "key_field"@ != "sasl"@,
        "key_field"@ != "tls"@,
        "topic_key"@ != "partition_key"@,
        "topic_key"@ != "offset_key"@,
        "topic_key"@ != "headers_key"@,
        "topic_key"@ != "librdkafka_options"@,
        "topic_key"@ != "sasl"@,
        "topic_key"@ != "tls"@,
        "partition_key"@ != "offset_key"@,
        "partition_key"@ != "headers_key"@,
        "partition_key"@ != "librdkafka_options"@,
        "partition_key"@ != "sasl"@,
        "partition_key"@ != "tls"@,
        "offset_key"@ != "headers_key"@,
        "offset_key"@ != "librdkafka_options"@,
        "offset_key"@ != "sasl"@,
        "offset_key"@ != "tls"@,
        "headers_key"@ != "librdkafka_options"@,
        "headers_key"@ != "sasl"@,
        "headers_key"@ != "tls"@,
        "librdkafka_options"@ != "sasl"@,
        "librdkafka_options"@ != "tls"@,
        "sasl"@ != "tls"@,
{
    reveal_strlit("bootstrap_servers");
    reveal_strlit("topics");
    reveal_strlit("group_id");
    reveal_strlit("auto_offset_reset");
    reveal_strlit("session_timeout_ms");
    reveal_strlit("socket_timeout_ms");
    reveal_strlit("fetch_wait_max_ms");
    reveal_strlit("commit_interval_ms");
    reveal_strlit("key_field");
    reveal_strlit("topic_key");
    reveal_strlit("partition_key");
    reveal_strlit("offset_key");
    reveal_strlit("headers_key");
    reveal_strlit("librdkafka_options");
    reveal_strlit("sasl");
    reveal_strlit("tls");
    assert("bootstrap_servers"@.len() != "topics"@.len());
    assert("bootstrap_servers"@.len() != "group_id"@.len());
    assert("bootstrap_servers"@[0] != "auto_offset_reset"@[0]);
    assert("bootstrap_servers"@.len() != "session_timeout_ms"@.len());
    assert("bootstrap_servers"@[0] != "socket_timeout_ms"@[0]);
    assert("bootstrap_servers"@[0] != "fetch_wait_max_ms"@[0]);
    assert("bootstrap_servers"@.len() != "commit_interval_ms"@.len());
    assert("bootstrap_servers"@.len() != "key_field"@.len());
    assert("bootstrap_servers"@.len() != "topic_key"@.len());
    assert("bootstrap_servers"@.len() != "partition_key"@.len());
    assert("bootstrap_servers"@.len() != "offset_key"@.len());
    assert("bootstrap_servers"@.len() != "headers_key"@.len());
    assert("bootstrap_servers"@.len() != "librdkafka_options"@.len());
    assert("bootstrap_servers"@.len() != "sasl"@.len());
    assert("bootstrap_servers"@.len() != "tls"@.len());
    assert("topics"@.len() != "group_id"@.len());
    assert("topics"@.len() != "auto_offset_reset"@.len());
    assert("topics"@.len() != "session_timeout_ms"@.len());
    assert("topics"@.len() != "socket_timeout_ms"@.len());
    assert("topics"@.len() != "fetch_wait_max_ms"@.len());
    assert("topics"@.len() != "commit_interval_ms"@.len());
    assert("topics"@.len() != "key_field"@.len());
    assert("topics"@.len() != "topic_key"@.len());
    assert("topics"@.len() != "partition_key"@.len());
    assert("topics"@.len() != "offset_key"@.len());
    assert("topics"@.len() != "headers_key"@.len());
    assert("topics"@.len() != "librdkafka_options"@.len());
    assert("topics"@.len() != "sasl"@.len());
    assert("topics"@.len() != "tls"@.len());
    assert("group_id"@.len() != "auto_offset_reset"@.len());
    assert("group_id"@.len() != "session_timeout_ms"@.len());
    assert("group_id"@.len() != "socket_timeout_ms"@.len());
    assert("group_id"@.len() != "fetch_wait_max_ms"@.len());
    assert("group_id"@.len() != "commit_interval_ms"@.len());
    assert("group_id"@.len() != "key_field"@.len());
    assert("group_id"@.len() != "topic_key"@.len());
    assert("group_id"@.len() != "partition_key"@.len());
    assert("group_id"@.len() != "offset_key"@.len());
    assert("group_id"@.len() != "headers_key"@.len());
    assert("group_id"@.len() != "librdkafka_options"@.len());
    assert("group_id"@.len() != "sasl"@.len());
    assert("group_id"@.len() != "tls"@.len());
    assert("auto_offset_reset"@.len() != "session_timeout_ms"@.len());
    assert("auto_offset_reset"@[0] != "socket_timeout_ms"@[0]);
    assert("auto_offset_reset"@[0] != "fetch_wait_max_ms"@[0]);
    assert("auto_offset_reset"@.len() != "commit_interval_ms"@.len());
    assert("auto_offset_reset"@.len() != "key_field"@.len());
    assert("auto_offset_reset"@.len() != "topic_key"@.len());
    assert("auto_offset_reset"@.len() != "partition_key"@.len());
    assert("auto_offset_reset"@.len() != "offset_key"@.len());
    assert("auto_offset_reset"@.len() != "headers_key"@.len());
    assert("auto_offset_reset"@.len() != "librdkafka_options"@.len());
    assert("auto_offset_reset"@.len() != "sasl"@.len());
    assert("auto_offset_reset"@.len() != "tls"@.len());
    assert("session_timeout_ms"@.len() != "socket_timeout_ms"@.len());
    assert("session_timeout_ms"@.len() != "fetch_wait_max_ms"@.len());
    assert("session_timeout_ms"@[0] != "commit_interval_ms"@[0]);
    assert("session_timeout_ms"@.len() != "key_field"@.len());
    assert("session_timeout_ms"@.len() != "topic_key"@.len());
    assert("session_timeout_ms"@.len() != "partition_key"@.len());
    assert("session_timeout_ms"@.len() != "offset_key"@.len());
    assert("session_timeout_ms"@.len() != "headers_key"@.len());
    assert("session_timeout_ms"@[0] != "librdkafka_options"@[0]);
    assert("session_timeout_ms"@.len() != "sasl"@.len());
    assert("session_timeout_ms"@.len() != "tls"@.len());
    assert("socket_timeout_ms"@[0] != "fetch_wait_max_ms"@[0]);
    assert("socket_timeout_ms"@.len() != "commit_interval_ms"@.len());
    assert("socket_timeout_ms"@.len() != "key_field"@.len());
    assert("socket_timeout_ms"@.len() != "topic_key"@.len());
    assert("socket_timeout_ms"@.len() != "partition_key"@.len());
    assert("socket_timeout_ms"@.len() != "offset_key"@.len());
    assert("socket_timeout_ms"@.len() != "headers_key"@.len());
    assert("socket_timeout_ms"@.len() != "librdkafka_options"@.len());
    assert("socket_timeout_ms"@.len() != "sasl"@.len());
    assert("socket_timeout_ms"@.len() != "tls"@.len());
    assert("fetch_wait_max_ms"@.len() != "commit_interval_ms"@.len());
    assert("fetch_wait_max_ms"@.len() != "key_field"@.len());
    assert("fetch_wait_max_ms"@.len() != "topic_key"@.len());
    assert("fetch_wait_max_ms"@.len() != "partition_key"@.len());
    assert("fetch_wait_max_ms"@.len() != "offset_key"@.len());
    assert("fetch_wait_max_ms"@.len() != "headers_key"@.len());
    assert("fetch_wait_max_ms"@.len() != "librdkafka_options"@.len());
    assert("fetch_wait_max_ms"@.len() != "sasl"@.len());
    assert("fetch_wait_max_ms"@.len() != "tls"@.len());
    assert("commit_interval_ms"@.len() != "key_field"@.len());
    assert("commit_interval_ms"@.len() != "topic_key"@.len());
    assert("commit_interval_ms"@.len() != "partition_key"@.len());
    assert("commit_interval_ms"@.len() != "offset_key"@.len());
    assert("commit_interval_ms"@.len() != "headers_key"@.len());
    assert("commit_interval_ms"@[0] != "librdkafka_options"@[0]);
    assert("commit_interval_ms"@.len() != "sasl"@.len());
    assert("commit_interval_ms"@.len() != "tls"@.len());
    assert("key_field"@[0] != "topic_key"@[0]);
    assert("key_field"@.len() != "partition_key"@.len());
    assert("key_field"@.len() != "offset_key"@.len());
    assert("key_field"@.len() != "headers_key"@.len());
    assert("key_field"@.len() != "librdkafka_options"@.len());
    assert("key_field"@.len() != "sasl"@.len());
    assert("key_field"@.len() != "tls"@.len());
    assert("topic_key"@.len() != "partition_key"@.len());
    assert("topic_key"@.len() != "offset_key"@.len());
    assert("topic_key"@.len() != "headers_key"@.len());
    assert("topic_key"@.len() != "librdkafka_options"@.len());
    assert("topic_key"@.len() != "sasl"@.len());
    assert("topic_key"@.len() != "tls"@.len());
    assert("partition_key"@.len() != "offset_key"@.len());
    assert("partition_key"@.len() != "headers_key"@.len());
    assert("partition_key"@.len() != "librdkafka_options"@.len());
    assert("partition_key"@.len() != "sasl"@.len());
    assert("partition_key"@.len() != "tls"@.len());
    assert("offset_key"@.len() != "headers_key"@.len());
    assert("offset_key"@.len() != "librdkafka_options"@.len());
    assert("offset_key"@.len() != "sasl"@.len());
    assert("offset_key"@.len() != "tls"@.len());
    assert("headers_key"@.len() != "librdkafka_options"@.len());
    assert("headers_key"@.len() != "sasl"@.len());
    assert("headers_key"@.len() != "tls"@.len());
    assert("librdkafka_options"@.len() != "sasl"@.len());
    assert("librdkafka_options"@.len() != "tls"@.len());
    assert("sasl"@.len() != "tls"@.len());
}

/// The entries every configuration is written with have distinct keys, each with a value
/// of its type, and none of them is an optional key.
proof fn lemma_base_table(c: KafkaConfigModel)
    requires
        durations_in_range(c),
    ensures
        base_table(c).len() == 13,
        keys_distinct(base_table(c)),
        forall|i: int| 0 <= i < base_table(c).len() ==> #[trigger] entry_fits(base_table(c)[i]),
        forall|i: int| 0 <= i < base_table(c).len() ==> base_table(c)[i].0 != "librdkafka_options"@,
        forall|i: int| 0 <= i < base_table(c).len() ==> base_table(c)[i].0 != "sasl"@,
        forall|i: int| 0 <= i < base_table(c).len() ==> base_table(c)[i].0 != "tls"@,
{
    lemma_top_keys_distinct();
    let f = base_table(c);
    assert(f[0].0 == "bootstrap_servers"@);
    assert(f[1].0 == "topics"@);
    assert(f[2].0 == "group_id"@);
    assert(f[3].0 == "auto_offset_reset"@);
    assert(f[4].0 == "session_timeout_ms"@);
    assert(f[5].0 == "socket_timeout_ms"@);
    assert(f[6].0 == "fetch_wait_max_ms"@);
    assert(f[7].0 == "commit_interval_ms"@);
    assert(f[8].0 == "key_field"@);
    assert(f[9].0 == "topic_key"@);
    assert(f[10].0 == "partition_key"@);
    assert(f[11].0 == "offset_key"@);
    assert(f[12].0 == "headers_key"@);
    assert(field_kind("bootstrap_servers"@) == Some(FieldKind::Text));
    assert(field_kind("topics"@) == Some(FieldKind::TextList));
    assert(field_kind("group_id"@) == Some(FieldKind::Text));
    assert(field_kind("auto_offset_reset"@) == Some(FieldKind::Text));
    assert(field_kind("session_timeout_ms"@) == Some(FieldKind::Count));
    assert(field_kind("socket_timeout_ms"@) == Some(FieldKind::Count));
    assert(field_kind("fetch_wait_max_ms"@) == Some(FieldKind::Count));
    assert(field_kind("commit_interval_ms"@) == Some(FieldKind::Count));
    assert(field_kind("key_field"@) == Some(FieldKind::Text));
    assert(field_kind("topic_key"@) == Some(FieldKind::Text));
    assert(field_kind("partition_key"@) == Some(FieldKind::Text));
    assert(field_kind("offset_key"@) == Some(FieldKind::Text));
    assert(field_kind("headers_key"@) == Some(FieldKind::Text));
    assert forall|i: int, j: int| 0 <= i < j < f.len() implies f[i].0 != f[j].0 by {
        assert(i == 0 || i == 1 || i == 2 || i == 3 || i == 4 || i == 5 || i == 6 || i == 7 || i == 8 || i == 9 || i == 10 || i == 11 || i == 12);
        assert(j == 0 || j == 1 || j == 2 || j == 3 || j == 4 || j == 5 || j == 6 || j == 7 || j == 8 || j == 9 || j == 10 || j == 11 || j == 12);
    }
    assert forall|i: int| 0 <= i < f.len() implies #[trigger] entry_fits(f[i]) by {
        assert(i == 0 || i == 1 || i == 2 || i == 3 || i == 4 || i == 5 || i == 6 || i == 7 || i == 8 || i == 9 || i == 10 || i == 11 || i == 12);
    }
    assert forall|i: int| 0 <= i < f.len() implies f[i].0 != "librdkafka_options"@ by {
        assert(i == 0 || i == 1 || i == 2 || i == 3 || i == 4 || i == 5 || i == 6 || i == 7 || i == 8 || i == 9 || i == 10 || i == 11 || i == 12);
    }
    assert forall|i: int| 0 <= i < f.len() implies f[i].0 != "sasl"@ by {
        assert(i == 0 || i == 1 || i == 2 || i == 3 || i == 4 || i == 5 || i == 6 || i == 7 || i == 8 || i == 9 || i == 10 || i == 11 || i == 12);
    }
    assert forall|i: int| 0 <= i < f.len() implies f[i].0 != "tls"@ by {
        assert(i == 0 || i == 1 || i == 2 || i == 3 || i == 4 || i == 5 || i == 6 || i == 7 || i == 8 || i == 9 || i == 10 || i == 11 || i == 12);
    }
}

pub open spec fn options_entry(o: Option<Seq<(Seq<char>, Seq<char>)>>) -> Seq<(Seq<char>, FieldModel)> {
    match o {
        Some(x) => seq![("librdkafka_options"@, FieldModel::Table(options_table(x)))],
        None => Seq::empty(),
    }
}

pub open spec fn sasl_entry(o: Option<SaslModel>) -> Seq<(Seq<char>, FieldModel)> {
    match o {
        Some(x) => seq![("sasl"@, FieldModel::Table(sasl_table(x)))],
        None => Seq::empty(),
    }
}

pub open spec fn tls_entry(o: Option<TlsModel>) -> Seq<(Seq<char>, FieldModel)> {
    match o {
        Some(x) => seq![("tls"@, FieldModel::Table(tls_table(x)))],
        None => Seq::empty(),
    }
}

/// No extra librdkafka option is given twice (as in a map of options).
pub open spec fn options_distinct(c: KafkaConfigModel) -> bool {
    c.librdkafka_options matches Some(o) ==> keys_distinct(o)
}

/// An options table written from distinct options fits.
proof fn lemma_options_table_fits(o: Seq<(Seq<char>, Seq<char>)>)
    requires
        keys_distinct(o),
    ensures
        options_fit(options_table(o)),
{
    let t = options_table(o);
    assert forall|j: int| 0 <= j < t.len() implies #[trigger] t[j].1 is String && key_position(
        t.take(j),
        t[j].0,
    ) < 0 by {
        lemma_key_position(t.take(j), t[j].0);
        assert forall|i: int| 0 <= i < t.take(j).len() implies t.take(j)[i].0 != t[j].0 by {
            assert(t.take(j)[i] == t[i]);
            assert(o[i].0 != o[j].0);
        }
    }
}

/// The optional entries have distinct keys among `librdkafka_options`, `sasl` and `tls`,
/// each with a value of its type, and are read back as the settings they were written from.
proof fn lemma_optional_table(c: KafkaConfigModel)
    ensures
        optional_table(c) == options_entry(c.librdkafka_options) + sasl_entry(c.sasl) + tls_entry(c.tls),
        keys_distinct(optional_table(c)),
        forall|i: int|
            0 <= i < optional_table(c).len() ==> #[trigger] optional_table(c)[i].0
                == "librdkafka_options"@ || optional_table(c)[i].0 == "sasl"@ || optional_table(
                c,
            )[i].0 == "tls"@,
        options_distinct(c) ==> forall|i: int|
            0 <= i < optional_table(c).len() ==> #[trigger] entry_fits(optional_table(c)[i]),
        lookup(optional_table(c), "librdkafka_options"@) == (match c.librdkafka_options {
            Some(x) => Some(FieldModel::Table(options_table(x))),
            None => None,
        }),
        lookup(optional_table(c), "sasl"@) == (match c.sasl {
            Some(x) => Some(FieldModel::Table(sasl_table(x))),
            None => None,
        }),
        lookup(optional_table(c), "tls"@) == (match c.tls {
            Some(x) => Some(FieldModel::Table(tls_table(x))),
            None => None,
        }),
{
    lemma_top_keys_distinct();
    let a = options_entry(c.librdkafka_options);
    let s2 = sasl_entry(c.sasl);
    let t = tls_entry(c.tls);
    let o = optional_table(c);
    assert(o == a + s2 + t);
    lemma_distinct_concat(a, s2);
    assert forall|i: int| 0 <= i < (a + s2).len() implies #[trigger] (a + s2)[i].0
        == "librdkafka_options"@ || (a + s2)[i].0 == "sasl"@ by {
        if i < a.len() {
            assert((a + s2)[i] == a[i]);
        } else {
            assert((a + s2)[i] == s2[i - a.len()]);
        }
    }
    lemma_distinct_concat(a + s2, t);
    assert forall|i: int| 0 <= i < o.len() implies #[trigger] o[i].0 == "librdkafka_options"@
        || o[i].0 == "sasl"@ || o[i].0 == "tls"@ by {
        if i < (a + s2).len() {
            assert(o[i] == (a + s2)[i]);
        } else {
            assert(o[i] == t[i - (a + s2).len()]);
        }
    }
    match c.sasl {
        Some(x) => lemma_sasl_fits(x),
        None => {},
    }
    match c.tls {
        Some(x) => lemma_tls_fits(x),
        None => {},
    }
    assert(field_kind("librdkafka_options"@) == Some(FieldKind::Options));
    assert(field_kind("sasl"@) == Some(FieldKind::Sasl));
    assert(field_kind("tls"@) == Some(FieldKind::Tls));
    if options_distinct(c) {
        match c.librdkafka_options {
            Some(x) => lemma_options_table_fits(x),
            None => {},
        }
        assert forall|i: int| 0 <= i < o.len() implies #[trigger] entry_fits(o[i]) by {
            if i < a.len() {
                assert(o[i] == a[i]);
            } else if i < (a + s2).len() {
                assert(o[i] == s2[i - a.len()]);
            } else {
                assert(o[i] == t[i - (a + s2).len()]);
            }
        }
    }
    let ks = seq!["librdkafka_options"@, "sasl"@, "tls"@];
    assert forall|i: int| 0 <= i < 3 implies #[trigger] lookup(o, ks[i]) == (if lookup(a, ks[i]) is Some {
        lookup(a, ks[i])
    } else if lookup(s2, ks[i]) is Some {
        lookup(s2, ks[i])
    } else {
        lookup(t, ks[i])
    }) by {
        lemma_lookup_concat(a, s2, ks[i]);
        lemma_lookup_concat(a + s2, t, ks[i]);
    }
    assert(ks[0] == "librdkafka_options"@ && ks[1] == "sasl"@ && ks[2] == "tls"@);
    assert(lookup(o, ks[0]) == lookup(o, "librdkafka_options"@));
    assert(lookup(o, ks[1]) == lookup(o, "sasl"@));
    assert(lookup(o, ks[2]) == lookup(o, "tls"@));
    match c.librdkafka_options {
        Some(x) => {
            lemma_lookup_single("librdkafka_options"@, FieldModel::Table(options_table(x)), "librdkafka_options"@);
            lemma_lookup_single("librdkafka_options"@, FieldModel::Table(options_table(x)), "sasl"@);
            lemma_lookup_single("librdkafka_options"@, FieldModel::Table(options_table(x)), "tls"@);
        },
        None => {},
    }
    match c.sasl {
        Some(x) => {
            lemma_lookup_single("sasl"@, FieldModel::Table(sasl_table(x)), "librdkafka_options"@);
            lemma_lookup_single("sasl"@, FieldModel::Table(sasl_table(x)), "sasl"@);
            lemma_lookup_single("sasl"@, FieldModel::Table(sasl_table(x)), "tls"@);
        },
        None => {},
    }
    match c.tls {
        Some(x) => {
            lemma_lookup_single("tls"@, FieldModel::Table(tls_table(x)), "librdkafka_options"@);
            lemma_lookup_single("tls"@, FieldModel::Table(tls_table(x)), "sasl"@);
            lemma_lookup_single("tls"@, FieldModel::Table(tls_table(x)), "tls"@);
        },
        None => {},
    }
    lemma_lookup_empty::<FieldModel>("librdkafka_options"@);
    lemma_lookup_empty::<FieldModel>("sasl"@);
    lemma_lookup_empty::<FieldModel>("tls"@);
}

/// Writing a configuration as a table succeeds exactly when its durations fit in a
/// table integer, and reading that table back gives the configuration again.
pub proof fn law_table_roundtrip(c: KafkaConfigModel)
    requires
        durations_in_range(c),
        options_distinct(c),
    ensures
        to_table(c) is Ok <==> (c.session_timeout_ms <= i64::MAX && c.socket_timeout_ms
            <= i64::MAX && c.fetch_wait_max_ms <= i64::MAX && c.commit_interval_ms <= i64::MAX),
        to_table(c) matches Ok(f) ==> from_table(f) == Ok::<
            KafkaConfigModel,
            (ConfigErrorKind, Seq<char>),
        >(c),
{
    if to_table(c) is Ok {
        let base = base_table(c);
        let o = optional_table(c);
        let f = base + o;
        lemma_base_table(c);
        lemma_optional_table(c);
        lemma_distinct_concat(base, o);
        assert forall|i: int| 0 <= i < f.len() implies #[trigger] entry_fits(f[i]) by {
            if i < base.len() {
                assert(f[i] == base[i]);
            } else {
                assert(f[i] == o[i - base.len()]);
            }
        }
        lemma_no_problem(f);
        assert(base[0].0 == "bootstrap_servers"@);
        lemma_lookup_distinct(base, 0);
        lemma_lookup_concat(base, o, "bootstrap_servers"@);
        assert(base[1].0 == "topics"@);
        lemma_lookup_distinct(base, 1);
        lemma_lookup_concat(base, o, "topics"@);
        assert(base[2].0 == "group_id"@);
        lemma_lookup_distinct(base, 2);
        lemma_lookup_concat(base, o, "group_id"@);
        assert(base[3].0 == "auto_offset_reset"@);
        lemma_lookup_distinct(base, 3);
        lemma_lookup_concat(base, o, "auto_offset_reset"@);
        assert(base[4].0 == "session_timeout_ms"@);
        lemma_lookup_distinct(base, 4);
        lemma_lookup_concat(base, o, "session_timeout_ms"@);
        assert(base[5].0 == "socket_timeout_ms"@);
        lemma_lookup_distinct(base, 5);
        lemma_lookup_concat(base, o, "socket_timeout_ms"@);
        assert(base[6].0 == "fetch_wait_max_ms"@);
        lemma_lookup_distinct(base, 6);
        lemma_lookup_concat(base, o, "fetch_wait_max_ms"@);
        assert(base[7].0 == "commit_interval_ms"@);
        lemma_lookup_distinct(base, 7);
        lemma_lookup_concat(base, o, "commit_interval_ms"@);
        assert(base[8].0 == "key_field"@);
        lemma_lookup_distinct(base, 8);
        lemma_lookup_concat(base, o, "key_field"@);
        assert(base[9].0 == "topic_key"@);
        lemma_lookup_distinct(base, 9);
        lemma_lookup_concat(base, o, "topic_key"@);
        assert(base[10].0 == "partition_key"@);
        lemma_lookup_distinct(base, 10);
        lemma_lookup_concat(base, o, "partition_key"@);
        assert(base[11].0 == "offset_key"@);
        lemma_lookup_distinct(base, 11);
        lemma_lookup_concat(base, o, "offset_key"@);
        assert(base[12].0 == "headers_key"@);
        lemma_lookup_distinct(base, 12);
        lemma_lookup_concat(base, o, "headers_key"@);
        lemma_lookup_absent(base, "librdkafka_options"@);
        lemma_lookup_absent(base, "sasl"@);
        lemma_lookup_absent(base, "tls"@);
        lemma_lookup_concat(base, o, "librdkafka_options"@);
        lemma_lookup_concat(base, o, "sasl"@);
        lemma_lookup_concat(base, o, "tls"@);
        match c.librdkafka_options {
            Some(x) => {
                assert(options_of(options_table(x)) =~= x);
            },
            None => {},
        }
        match c.sasl {
            Some(x) => lemma_sasl_lookups(x),
            None => {},
        }
        match c.tls {
            Some(x) => lemma_tls_lookups(x),
            None => {},
        }
        assert(config_of(f) == c);
    }
}

// ---------------------------------------------------------------------------
// Executable reading and writing
// ---------------------------------------------------------------------------

/// The position of the first entry whose key is `k`.
fn find_key<V>(entries: &Vec<(String, V)>, k: &str) -> (r: Option<usize>)
    ensures
        match r {
            Some(i) => i < entries@.len() && entries@[i as int].0@ == k@ && forall|j: int|
                0 <= j < i ==> #[trigger] entries@[j].0@ != k@,
            None => forall|j: int| 0 <= j < entries@.len() ==> #[trigger] entries@[j].0@ != k@,
        },
{
    let n = entries.len();
    let mut i: usize = 0;
    while i < n
        invariant
            n == entries@.len(),
            0 <= i <= n,
            forall|j: int| 0 <= j < i ==> #[trigger] entries@[j].0@ != k@,
        decreases n - i,
    {
        if str_eq(entries[i].0.as_str(), k) {
            return Some(i);
        }
        i = i + 1;
    }
    None
}

/// Whether some entry before position `end` has the key `k`.
fn key_before<V>(entries: &Vec<(String, V)>, end: usize, k: &str) -> (r: bool)
    requires
        end <= entries@.len(),
    ensures
        r == exists|j: int| 0 <= j < end && #[trigger] entries@[j].0@ == k@,
{
    let mut i: usize = 0;
    while i < end
        invariant
            end <= entries@.len(),
            0 <= i <= end,
            forall|j: int| 0 <= j < i ==> #[trigger] entries@[j].0@ != k@,
        decreases end - i,
    {
        if str_eq(entries[i].0.as_str(), k) {
            return true;
        }
        i = i + 1;
    }
    false
}

proof fn lemma_fields_position(f: Seq<(String, ConfigValue)>, k: Seq<char>, r: Option<usize>)
    requires
        match r {
            Some(i) => i < f.len() && f[i as int].0@ == k && forall|j: int|
                0 <= j < i ==> #[trigger] f[j].0@ != k,
            None => forall|j: int| 0 <= j < f.len() ==> #[trigger] f[j].0@ != k,
        },
    ensures
        key_position(fields_model(f), k) == (match r {
            Some(i) => i as int,
            None => -1,
        }),
{
    let m = fields_model(f);
    match r {
        Some(i) => {
            assert forall|j: int| 0 <= j < i implies m[j].0 != k by {
                assert(m[j].0 == f[j].0@);
            }
            lemma_position_is(m, k, i as int);
        },
        None => {
            assert forall|j: int| 0 <= j < m.len() implies m[j].0 != k by {
                assert(m[j].0 == f[j].0@);
            }
            lemma_lookup_absent(m, k);
        },
    }
}

proof fn lemma_table_position(t: Seq<(String, ConfigScalar)>, k: Seq<char>, r: Option<usize>)
    requires
        match r {
            Some(i) => i < t.len() && t[i as int].0@ == k && forall|j: int|
                0 <= j < i ==> #[trigger] t[j].0@ != k,
            None => forall|j: int| 0 <= j < t.len() ==> #[trigger] t[j].0@ != k,
        },
    ensures
        key_position(table_model(t), k) == (match r {
            Some(i) => i as int,
            None => -1,
        }),
{
    let m = table_model(t);
    match r {
        Some(i) => {
            assert forall|j: int| 0 <= j < i implies m[j].0 != k by {
                assert(m[j].0 == t[j].0@);
            }
            lemma_position_is(m, k, i as int);
        },
        None => {
            assert forall|j: int| 0 <= j < m.len() implies m[j].0 != k by {
                assert(m[j].0 == t[j].0@);
            }
            lemma_lookup_absent(m, k);
        },
    }
}

fn field_kind_of(k: &str) -> (r: Option<FieldKind>)
    ensures
        r == field_kind(k@),
{
    if str_eq(k, "bootstrap_servers") || str_eq(k, "group_id") || str_eq(k, "auto_offset_reset")
        || str_eq(k, "key_field") || str_eq(k, "topic_key") || str_eq(k, "partition_key") || str_eq(
        k,
        "offset_key",
    ) || str_eq(k, "headers_key") {
        Some(FieldKind::Text)
    } else if str_eq(k, "topics") {
        Some(FieldKind::TextList)
    } else if str_eq(k, "session_timeout_ms") || str_eq(k, "socket_timeout_ms") || str_eq(
        k,
        "fetch_wait_max_ms",
    ) || str_eq(k, "commit_interval_ms") {
        Some(FieldKind::Count)
    } else if str_eq(k, "librdkafka_options") {
        Some(FieldKind::Options)
    } else if str_eq(k, "sasl") {
        Some(FieldKind::Sasl)
    } else if str_eq(k, "tls") {
        Some(FieldKind::Tls)
    } else {
        None
    }
}

fn nested_kind_of(tls: bool, k: &str) -> (r: Option<bool>)
    ensures
        r == nested_kind(tls, k@),
{
    if str_eq(k, "enabled") {
        Some(true)
    } else if !tls && (str_eq(k, "username") || str_eq(k, "password") || str_eq(k, "mechanism")) {
        Some(false)
    } else if tls && (str_eq(k, "ca_file") || str_eq(k, "crt_file") || str_eq(k, "key_file")
        || str_eq(k, "key_pass")) {
        Some(false)
    } else {
        None
    }
}

fn nested_table_fits_exec(tls: bool, t: &Vec<(String, ConfigScalar)>) -> (r: bool)
    ensures
        r == nested_table_fits(tls, table_model(t@)),
{
    let ghost m = table_model(t@);
    let n = t.len();
    let mut j: usize = 0;
    while j < n
        invariant
            n == t@.len(),
            m == table_model(t@),
            0 <= j <= n,
            forall|i: int|
                0 <= i < j ==> match #[trigger] nested_kind(tls, m[i].0) {
                    Some(is_bool) => key_position(m.take(i), m[i].0) < 0 && (if is_bool {
                        m[i].1 is Boolean
                    } else {
                        m[i].1 is String
                    }),
                    None => true,
                },
        decreases n - j,
    {
        let k = t[j].0.as_str();
        match nested_kind_of(tls, k) {
            Some(is_bool) => {
                let earlier = key_before(t, j, k);
                proof {
                    let pre = m.take(j as int);
                    lemma_key_position(pre, k@);
                    if !earlier {
                        assert forall|i: int| 0 <= i < pre.len() implies pre[i].0 != k@ by {
                            assert(pre[i].0 == t@[i].0@);
                        }
                    } else {
                        let w = choose|i: int| 0 <= i < j && #[trigger] t@[i].0@ == k@;
                        assert(pre[w].0 == k@);
                    }
                }
                if earlier {
                    proof {
                        assert(m[j as int].0 == k@);
                        assert(nested_kind(tls, m[j as int].0) == Some(is_bool));
                        assert(key_position(m.take(j as int), m[j as int].0) >= 0);
                    }
                    return false;
                }
                let ok = match &t[j].1 {
                    ConfigScalar::Boolean(_) => is_bool,
                    ConfigScalar::String(_) => !is_bool,
                    ConfigScalar::Integer(_) => false,
                };
                if !ok {
                    proof {
                        assert(m[j as int] == (t@[j as int].0@, t@[j as int].1.model()));
                        assert(nested_kind(tls, m[j as int].0) == Some(is_bool));
                    }
                    return false;
                }
            },
            None => {},
        }
        j = j + 1;
    }
    true
}

fn options_fit_exec(t: &Vec<(String, ConfigScalar)>) -> (r: bool)
    ensures
        r == options_fit(table_model(t@)),
{
    let ghost m = table_model(t@);
    let n = t.len();
    let mut j: usize = 0;
    while j < n
        invariant
            n == t@.len(),
            m == table_model(t@),
            0 <= j <= n,
            forall|i: int| 0 <= i < j ==> #[trigger] m[i].1 is String && key_position(m.take(i), m[i].0) < 0,
        decreases n - j,
    {
        let k = t[j].0.as_str();
        let earlier = key_before(t, j, k);
        proof {
            let pre = m.take(j as int);
            assert(m[j as int] == (t@[j as int].0@, t@[j as int].1.model()));
            lemma_key_position(pre, k@);
            if !earlier {
                assert forall|i: int| 0 <= i < pre.len() implies pre[i].0 != k@ by {
                    assert(pre[i].0 == t@[i].0@);
                }
            } else {
                let w = choose|i: int| 0 <= i < j && #[trigger] t@[i].0@ == k@;
                assert(pre[w].0 == k@);
            }
        }
        if earlier {
            proof {
                assert(m[j as int].0 == k@);
                assert(key_position(m.take(j as int), m[j as int].0) >= 0);
                assert(!(m[j as int].1 is String && key_position(m.take(j as int), m[j as int].0) < 0));
            }
            return false;
        }
        match &t[j].1 {
            ConfigScalar::String(_) => {},
            _ => {
                proof {
                    assert(!(m[j as int].1 is String));
                }
                return false;
            },
        }
        j = j + 1;
    }
    true
}

fn value_fits_exec(kind: FieldKind, v: &ConfigValue) -> (r: bool)
    ensures
        r == value_fits(kind, v.model()),
{
    match kind {
        FieldKind::Text => match v {
            ConfigValue::String(_) => true,
            _ => false,
        },
        FieldKind::TextList => match v {
            ConfigValue::StringArray(_) => true,
            _ => false,
        },
        FieldKind::Count => match v {
            ConfigValue::Integer(i) => *i >= 0,
            _ => false,
        },
        FieldKind::Options => match v {
            ConfigValue::Table(t) => options_fit_exec(t),
            _ => false,
        },
        FieldKind::Sasl => match v {
            ConfigValue::Table(t) => nested_table_fits_exec(false, t),
            _ => false,
        },
        FieldKind::Tls => match v {
            ConfigValue::Table(t) => nested_table_fits_exec(true, t),
            _ => false,
        },
    }
}

proof fn lemma_first_problem_prefix(f: Seq<(Seq<char>, FieldModel)>, k: int)
    requires
        0 <= k <= f.len(),
        first_problem(f.take(k)) is Some,
    ensures
        first_problem(f) == first_problem(f.take(k)),
    decreases f.len() - k,
{
    if k < f.len() {
        assert(f.take(k + 1).drop_last() =~= f.take(k));
        lemma_first_problem_prefix(f, k + 1);
    } else {
        assert(f.take(k) =~= f);
    }
}

/// Without a problem, every entry fits and no key repeats.
proof fn lemma_no_problem_fits(f: Seq<(Seq<char>, FieldModel)>)
    requires
        first_problem(f) is None,
    ensures
        forall|i: int| 0 <= i < f.len() ==> #[trigger] entry_fits(f[i]),
        keys_distinct(f),
    decreases f.len(),
{
    if f.len() > 0 {
        let g = f.drop_last();
        lemma_no_problem_fits(g);
        lemma_key_position(g, f.last().0);
        assert forall|i: int| 0 <= i < f.len() implies #[trigger] entry_fits(f[i]) by {
            if i < g.len() {
                assert(f[i] == g[i]);
            }
        }
        assert forall|i: int, j: int| 0 <= i < j < f.len() implies f[i].0 != f[j].0 by {
            if j < g.len() {
                assert(f[i] == g[i] && f[j] == g[j]);
            } else {
                assert(f[i] == g[i]);
            }
        }
    }
}

/// The options of a configuration read from a valid table are given once each.
proof fn lemma_read_options_distinct(f: Seq<(Seq<char>, FieldModel)>)
    requires
        first_problem(f) is None,
    ensures
        options_distinct(config_of(f)),
{
    lemma_no_problem_fits(f);
    lemma_field_kinds();
    lemma_key_position(f, "librdkafka_options"@);
    let p = key_position(f, "librdkafka_options"@);
    if p >= 0 {
        assert(entry_fits(f[p]));
        match f[p].1 {
            FieldModel::Table(t) => {
                let o = options_of(t);
                assert forall|i: int, j: int| 0 <= i < j < o.len() implies o[i].0 != o[j].0 by {
                    assert(t[j].1 is String && key_position(t.take(j), t[j].0) < 0);
                    lemma_key_position(t.take(j), t[j].0);
                    assert(t.take(j)[i] == t[i]);
                }
            },
            _ => {},
        }
    }
}

proof fn lemma_field_kinds()
    ensures
        field_kind("bootstrap_servers"@) == Some(FieldKind::Text),
        field_kind("topics"@) == Some(FieldKind::TextList),
        field_kind("group_id"@) == Some(FieldKind::Text),
        field_kind("auto_offset_reset"@) == Some(FieldKind::Text),
        field_kind("session_timeout_ms"@) == Some(FieldKind::Count),
        field_kind("socket_timeout_ms"@) == Some(FieldKind::Count),
        field_kind("fetch_wait_max_ms"@) == Some(FieldKind::Count),
        field_kind("commit_interval_ms"@) == Some(FieldKind::Count),
        field_kind("key_field"@) == Some(FieldKind::Text),
        field_kind("topic_key"@) == Some(FieldKind::Text),
        field_kind("partition_key"@) == Some(FieldKind::Text),
        field_kind("offset_key"@) == Some(FieldKind::Text),
        field_kind("headers_key"@) == Some(FieldKind::Text),
        field_kind("librdkafka_options"@) == Some(FieldKind::Options),
        field_kind("sasl"@) == Some(FieldKind::Sasl),
        field_kind("tls"@) == Some(FieldKind::Tls),
{
    lemma_top_keys_distinct();
}

fn text_or_exec(fields: &Vec<(String, ConfigValue)>, k: &str, d: &str) -> (r: String)
    ensures
        r@ == text_or(fields_model(fields@), k@, d@),
{
    let p = find_key(fields, k);
    proof {
        lemma_fields_position(fields@, k@, p);
    }
    match p {
        Some(i) => match &fields[i].1 {
            ConfigValue::String(s) => s.clone(),
            _ => d.to_owned(),
        },
        None => d.to_owned(),
    }
}

fn count_or_exec(fields: &Vec<(String, ConfigValue)>, k: &str, d: u64) -> (r: u64)
    requires
        match lookup(fields_model(fields@), k@) {
            Some(FieldModel::Integer(v)) => v >= 0,
            _ => true,
        },
    ensures
        r as int == count_or(fields_model(fields@), k@, d as int),
{
    let p = find_key(fields, k);
    proof {
        lemma_fields_position(fields@, k@, p);
    }
    match p {
        Some(i) => match &fields[i].1 {
            ConfigValue::Integer(v) => *v as u64,
            _ => d,
        },
        None => d,
    }
}

fn clone_strings(v: &Vec<String>) -> (r: Vec<String>)
    ensures
        strings_model(r@) == strings_model(v@),
{
    let mut out: Vec<String> = Vec::new();
    let n = v.len();
    let mut i: usize = 0;
    while i < n
        invariant
            n == v@.len(),
            0 <= i <= n,
            out@.len() == i,
            forall|j: int| 0 <= j < i ==> #[trigger] out@[j]@ == v@[j]@,
        decreases n - i,
    {
        out.push(v[i].clone());
        i = i + 1;
    }
    assert(strings_model(out@) =~= strings_model(v@));
    out
}

fn options_from(t: &Vec<(String, ConfigScalar)>) -> (r: Vec<(String, String)>)
    ensures
        pairs_model(r@) == options_of(table_model(t@)),
{
    let mut out: Vec<(String, String)> = Vec::new();
    let n = t.len();
    let mut i: usize = 0;
    while i < n
        invariant
            n == t@.len(),
            0 <= i <= n,
            out@.len() == i,
            forall|j: int|
                0 <= j < i ==> #[trigger] pairs_model(out@)[j] == options_of(table_model(t@))[j],
        decreases n - i,
    {
        let value = match &t[i].1 {
            ConfigScalar::String(s) => s.clone(),
            _ => String::new(),
        };
        let ghost before = out@;
        out.push((t[i].0.clone(), value));
        proof {
            assert forall|j: int| 0 <= j < i + 1 implies #[trigger] pairs_model(out@)[j] == options_of(
                table_model(t@),
            )[j] by {
                if j < i {
                    assert(out@[j] == before[j]);
                    assert(pairs_model(before)[j] == options_of(table_model(t@))[j]);
                }
            }
        }
        i = i + 1;
    }
    assert(pairs_model(out@) =~= options_of(table_model(t@)));
    out
}

fn scalar_bool_exec(t: &Vec<(String, ConfigScalar)>, k: &str) -> (r: Option<bool>)
    ensures
        r == scalar_bool(table_model(t@), k@),
{
    let p = find_key(t, k);
    proof {
        lemma_table_position(t@, k@, p);
    }
    match p {
        Some(i) => match &t[i].1 {
            ConfigScalar::Boolean(b) => Some(*b),
            _ => None,
        },
        None => None,
    }
}

fn scalar_str_exec(t: &Vec<(String, ConfigScalar)>, k: &str) -> (r: Option<String>)
    ensures
        opt_str(r) == scalar_str(table_model(t@), k@),
{
    let p = find_key(t, k);
    proof {
        lemma_table_position(t@, k@, p);
    }
    match p {
        Some(i) => match &t[i].1 {
            ConfigScalar::String(s) => Some(s.clone()),
            _ => None,
        },
        None => None,
    }
}

fn config_error(kind: ConfigErrorKind, field: &str) -> (r: ConfigError)
    ensures
        r.model() == (kind, field@),
{
    ConfigError { kind, field: field.to_owned() }
}

impl KafkaSourceConfig {
    /// Reads a configuration from a table (see `from_table`): every key must be known,
    /// appear once and hold a value of its type; `bootstrap_servers`, `topics` and
    /// `group_id` are required; every other key has a default.
    #[verifier::spinoff_prover]
    #[verifier::rlimit(40)]
    pub fn from_fields(fields: &Vec<(String, ConfigValue)>) -> (r: Result<KafkaSourceConfig, ConfigError>)
        ensures
            match from_table(fields_model(fields@)) {
                Ok(m) => r matches Ok(c) && c.model() == m,
                Err(e) => r matches Err(err) && err.model() == e,
            },
            r matches Ok(c) ==> options_distinct(c.model()),
    {
        let ghost fm = fields_model(fields@);
        let n = fields.len();
        let mut i: usize = 0;
        while i < n
            invariant
                n == fields@.len(),
                fm == fields_model(fields@),
                0 <= i <= n,
                first_problem(fm.take(i as int)) is None,
            decreases n - i,
        {
            proof {
                assert(fm.take(i + 1).drop_last() =~= fm.take(i as int));
                assert(fm.take(i + 1).last() == fm[i as int]);
                assert(fm[i as int] == (fields@[i as int].0@, fields@[i as int].1.model()));
            }
            let k = fields[i].0.as_str();
            match field_kind_of(k) {
                None => {
                    proof {
                        lemma_first_problem_prefix(fm, i + 1);
                    }
                    return Err(config_error(ConfigErrorKind::UnknownField, k));
                },
                Some(kind) => {
                    let earlier = key_before(fields, i, k);
                    proof {
                        let pre = fm.take(i as int);
                        lemma_key_position(pre, k@);
                        if earlier {
                            let w = choose|j: int| 0 <= j < i && #[trigger] fields@[j].0@ == k@;
                            assert(pre[w].0 == k@);
                        } else {
                            assert forall|j: int| 0 <= j < pre.len() implies pre[j].0 != k@ by {
                                assert(pre[j].0 == fields@[j].0@);
                            }
                        }
                    }
                    if earlier {
                        proof {
                            lemma_first_problem_prefix(fm, i + 1);
                        }
                        return Err(config_error(ConfigErrorKind::DuplicateField, k));
                    }
                    if !value_fits_exec(kind, &fields[i].1) {
                        proof {
                            lemma_first_problem_prefix(fm, i + 1);
                        }
                        return Err(config_error(ConfigErrorKind::InvalidType, k));
                    }
                },
            }
            i = i + 1;
        }
        proof {
            assert(fm.take(n as int) =~= fm);
            lemma_no_problem_fits(fm);
            lemma_field_kinds();
        }
        let pb = find_key(fields, "bootstrap_servers");
        proof {
            lemma_fields_position(fields@, "bootstrap_servers"@, pb);
        }
        if pb.is_none() {
            return Err(config_error(ConfigErrorKind::MissingField, "bootstrap_servers"));
        }
        let pt = find_key(fields, "topics");
        proof {
            lemma_fields_position(fields@, "topics"@, pt);
        }
        if pt.is_none() {
            return Err(config_error(ConfigErrorKind::MissingField, "topics"));
        }
        let pg = find_key(fields, "group_id");
        proof {
            lemma_fields_position(fields@, "group_id"@, pg);
        }
        if pg.is_none() {
            return Err(config_error(ConfigErrorKind::MissingField, "group_id"));
        }
        proof {
            reveal_strlit("");
            assert(""@ =~= Seq::<char>::empty());
        }
        let bootstrap_servers = text_or_exec(fields, "bootstrap_servers", "");
        let topics = match &fields[pt.unwrap()].1 {
            ConfigValue::StringArray(t) => clone_strings(t),
            _ => Vec::new(),
        };
        let group_id = text_or_exec(fields, "group_id", "");
        let auto_offset_reset = text_or_exec(fields, "auto_offset_reset", "largest");
        proof {
            assert forall|k: Seq<char>| field_kind(k) == Some(FieldKind::Count) implies match lookup(
                fm,
                k,
            ) {
                Some(FieldModel::Integer(v)) => v >= 0,
                _ => true,
            } by {
                lemma_key_position(fm, k);
                let p = key_position(fm, k);
                if p >= 0 {
                    assert(entry_fits(fm[p]));
                }
            }
        }
        let session_timeout_ms = count_or_exec(fields, "session_timeout_ms", 10000);
        let socket_timeout_ms = count_or_exec(fields, "socket_timeout_ms", 60000);
        let fetch_wait_max_ms = count_or_exec(fields, "fetch_wait_max_ms", 100);
        let commit_interval_ms = count_or_exec(fields, "commit_interval_ms", 5000);
        let key_field = text_or_exec(fields, "key_field", "message_key");
        let topic_key = text_or_exec(fields, "topic_key", "topic");
        let partition_key = text_or_exec(fields, "partition_key", "partition");
        let offset_key = text_or_exec(fields, "offset_key", "offset");
        let headers_key = text_or_exec(fields, "headers_key", "headers");
        let po = find_key(fields, "librdkafka_options");
        proof {
            lemma_fields_position(fields@, "librdkafka_options"@, po);
        }
        let librdkafka_options = match po {
            Some(j) => match &fields[j].1 {
                ConfigValue::Table(t) => Some(options_from(t)),
                _ => None,
            },
            None => None,
        };
        let ps = find_key(fields, "sasl");
        proof {
            lemma_fields_position(fields@, "sasl"@, ps);
        }
        let sasl = match ps {
            Some(j) => match &fields[j].1 {
                ConfigValue::Table(t) => Some(
                    KafkaSaslConfig {
                        enabled: scalar_bool_exec(t, "enabled"),
                        username: scalar_str_exec(t, "username"),
                        password: scalar_str_exec(t, "password"),
                        mechanism: scalar_str_exec(t, "mechanism"),
                    },
                ),
                _ => None,
            },
            None => None,
        };
        let ptls = find_key(fields, "tls");
        proof {
            lemma_fields_position(fields@, "tls"@, ptls);
        }
        let tls = match ptls {
            Some(j) => match &fields[j].1 {
                ConfigValue::Table(t) => Some(
                    KafkaTlsConfig {
                        enabled: scalar_bool_exec(t, "enabled"),
                        ca_file: scalar_str_exec(t, "ca_file"),
                        crt_file: scalar_str_exec(t, "crt_file"),
                        key_file: scalar_str_exec(t, "key_file"),
                        key_pass: scalar_str_exec(t, "key_pass"),
                    },
                ),
                _ => None,
            },
            None => None,
        };
        let config = KafkaSourceConfig {
            bootstrap_servers,
            topics,
            group_id,
            auto_offset_reset,
            session_timeout_ms,
            socket_timeout_ms,
            fetch_wait_max_ms,
            commit_interval_ms,
            key_field,
            topic_key,
            partition_key,
            offset_key,
            headers_key,
            librdkafka_options,
            auth: KafkaAuthConfig { sasl, tls },
        };
        proof {
            assert(config.model().topics == config_of(fm).topics);
            assert(config.model().librdkafka_options == config_of(fm).librdkafka_options);
            assert(config.model().sasl == config_of(fm).sasl);
            assert(config.model().tls == config_of(fm).tls);
            lemma_read_options_distinct(fm);
        }
        Ok(config)
    }
}

proof fn lemma_fields_model_push(f: Seq<(String, ConfigValue)>, e: (String, ConfigValue))
    ensures
        fields_model(f.push(e)) == fields_model(f).push((e.0@, e.1.model())),
{
    assert(fields_model(f.push(e)) =~= fields_model(f).push((e.0@, e.1.model())));
}

proof fn lemma_table_model_push(t: Seq<(String, ConfigScalar)>, e: (String, ConfigScalar))
    ensures
        table_model(t.push(e)) == table_model(t).push((e.0@, e.1.model())),
{
    assert(table_model(t.push(e)) =~= table_model(t).push((e.0@, e.1.model())));
}

fn push_field(fields: &mut Vec<(String, ConfigValue)>, key: &str, value: ConfigValue)
    ensures
        fields_model(final(fields)@) == fields_model(old(fields)@).push((key@, value.model())),
{
    let e = (key.to_owned(), value);
    proof {
        lemma_fields_model_push(fields@, e);
    }
    fields.push(e);
}

fn push_scalar(t: &mut Vec<(String, ConfigScalar)>, key: &str, value: ConfigScalar)
    ensures
        table_model(final(t)@) == table_model(old(t)@).push((key@, value.model())),
{
    let e = (key.to_owned(), value);
    proof {
        lemma_table_model_push(t@, e);
    }
    t.push(e);
}

fn push_opt_bool(t: &mut Vec<(String, ConfigScalar)>, key: &str, v: Option<bool>)
    ensures
        table_model(final(t)@) == table_model(old(t)@) + bool_entry(key@, v),
{
    match v {
        Some(b) => {
            push_scalar(t, key, ConfigScalar::Boolean(b));
            assert(table_model(t@) =~= table_model(old(t)@) + bool_entry(key@, v));
        },
        None => {
            assert(table_model(t@) =~= table_model(old(t)@) + bool_entry(key@, v));
        },
    }
}

fn push_opt_str(t: &mut Vec<(String, ConfigScalar)>, key: &str, v: &Option<String>)
    ensures
        table_model(final(t)@) == table_model(old(t)@) + str_entry(key@, opt_str(*v)),
{
    match v {
        Some(s) => {
            push_scalar(t, key, ConfigScalar::String(s.clone()));
            assert(table_model(t@) =~= table_model(old(t)@) + str_entry(key@, opt_str(*v)));
        },
        None => {
            assert(table_model(t@) =~= table_model(old(t)@) + str_entry(key@, opt_str(*v)));
        },
    }
}

impl KafkaSourceConfig {
    /// Writes the configuration as a table (see `to_table`): the settings every
    /// configuration has, in order, then the optional ones that are present; a duration
    /// above `i64::MAX` cannot be written.
    pub fn to_fields(&self) -> (r: Result<Vec<(String, ConfigValue)>, ConfigError>)
        ensures
            match to_table(self.model()) {
                Ok(t) => r matches Ok(f) && fields_model(f@) == t,
                Err(e) => r matches Err(err) && err.model() == e,
            },
    {
        if self.session_timeout_ms > i64::MAX as u64 {
            return Err(config_error(ConfigErrorKind::OutOfRange, "session_timeout_ms"));
        }
        if self.socket_timeout_ms > i64::MAX as u64 {
            return Err(config_error(ConfigErrorKind::OutOfRange, "socket_timeout_ms"));
        }
        if self.fetch_wait_max_ms > i64::MAX as u64 {
            return Err(config_error(ConfigErrorKind::OutOfRange, "fetch_wait_max_ms"));
        }
        if self.commit_interval_ms > i64::MAX as u64 {
            return Err(config_error(ConfigErrorKind::OutOfRange, "commit_interval_ms"));
        }
        let mut f: Vec<(String, ConfigValue)> = Vec::new();
        push_field(&mut f, "bootstrap_servers", ConfigValue::String(self.bootstrap_servers.clone()));
        push_field(&mut f, "topics", ConfigValue::StringArray(clone_strings(&self.topics)));
        push_field(&mut f, "group_id", ConfigValue::String(self.group_id.clone()));
        push_field(&mut f, "auto_offset_reset", ConfigValue::String(self.auto_offset_reset.clone()));
        push_field(&mut f, "session_timeout_ms", ConfigValue::Integer(self.session_timeout_ms as i64));
        push_field(&mut f, "socket_timeout_ms", ConfigValue::Integer(self.socket_timeout_ms as i64));
        push_field(&mut f, "fetch_wait_max_ms", ConfigValue::Integer(self.fetch_wait_max_ms as i64));
        push_field(&mut f, "commit_interval_ms", ConfigValue::Integer(self.commit_interval_ms as i64));
        push_field(&mut f, "key_field", ConfigValue::String(self.key_field.clone()));
        push_field(&mut f, "topic_key", ConfigValue::String(self.topic_key.clone()));
        push_field(&mut f, "partition_key", ConfigValue::String(self.partition_key.clone()));
        push_field(&mut f, "offset_key", ConfigValue::String(self.offset_key.clone()));
        push_field(&mut f, "headers_key", ConfigValue::String(self.headers_key.clone()));
        let ghost m = self.model();
        proof {
            assert(fields_model(f@) =~= base_table(m));
        }
        match &self.librdkafka_options {
            Some(o) => {
                let mut t: Vec<(String, ConfigScalar)> = Vec::new();
                let n = o.len();
                let mut i: usize = 0;
                while i < n
                    invariant
                        n == o@.len(),
                        0 <= i <= n,
                        table_model(t@) =~= options_table(pairs_model(o@)).take(i as int),
                    decreases n - i,
                {
                    push_scalar(&mut t, o[i].0.as_str(), ConfigScalar::String(o[i].1.clone()));
                    i = i + 1;
                }
                proof {
                    assert(table_model(t@) =~= options_table(pairs_model(o@)));
                }
                let ghost before = fields_model(f@);
                push_field(&mut f, "librdkafka_options", ConfigValue::Table(t));
                proof {
                    assert(m.librdkafka_options == Some(pairs_model(o@)));
                    assert(fields_model(f@) =~= before + options_entry(m.librdkafka_options));
                }
            },
            None => {
                assert(fields_model(f@) =~= fields_model(f@) + options_entry(m.librdkafka_options));
            },
        }
        proof {
            assert(fields_model(f@) =~= base_table(m) + options_entry(m.librdkafka_options));
        }
        match &self.auth.sasl {
            Some(sa) => {
                let mut t: Vec<(String, ConfigScalar)> = Vec::new();
                push_opt_bool(&mut t, "enabled", sa.enabled);
                push_opt_str(&mut t, "username", &sa.username);
                push_opt_str(&mut t, "password", &sa.password);
                push_opt_str(&mut t, "mechanism", &sa.mechanism);
                proof {
                    assert(table_model(t@) =~= sasl_table(m.sasl.unwrap()));
                }
                push_field(&mut f, "sasl", ConfigValue::Table(t));
            },
            None => {},
        }
        proof {
            assert(fields_model(f@) =~= base_table(m) + options_entry(m.librdkafka_options)
                + sasl_entry(m.sasl));
        }
        match &self.auth.tls {
            Some(tl) => {
                let mut t: Vec<(String, ConfigScalar)> = Vec::new();
                push_opt_bool(&mut t, "enabled", tl.enabled);
                push_opt_str(&mut t, "ca_file", &tl.ca_file);
                push_opt_str(&mut t, "crt_file", &tl.crt_file);
                push_opt_str(&mut t, "key_file", &tl.key_file);
                push_opt_str(&mut t, "key_pass", &tl.key_pass);
                proof {
                    assert(table_model(t@) =~= tls_table(m.tls.unwrap()));
                }
                push_field(&mut f, "tls", ConfigValue::Table(t));
            },
            None => {},
        }
        proof {
            lemma_optional_table(m);
            assert(fields_model(f@) =~= base_table(m) + optional_table(m));
        }
        Ok(f)
    }
}


/// Each key of a valid table is read into the setting of the same name, and each optional
/// key that is absent gives that setting its default.
pub proof fn law_keys_read_into_their_settings(f: Seq<(Seq<char>, FieldModel)>)
    ensures
        match from_table(f) {
            Err(_) => true,
            Ok(c) => {
            &&& (lookup(f, "bootstrap_servers"@) matches Some(FieldModel::String(v)) ==> c.bootstrap_servers == v)
            &&& (lookup(f, "group_id"@) matches Some(FieldModel::String(v)) ==> c.group_id == v)
            &&& (lookup(f, "topics"@) matches Some(FieldModel::StringArray(v)) ==> c.topics == v)
            &&& (lookup(f, "session_timeout_ms"@) matches Some(FieldModel::Integer(v)) ==> c.session_timeout_ms == v)
            &&& (lookup(f, "session_timeout_ms"@) is None ==> c.session_timeout_ms == 10000)
            &&& (lookup(f, "socket_timeout_ms"@) matches Some(FieldModel::Integer(v)) ==> c.socket_timeout_ms == v)
            &&& (lookup(f, "socket_timeout_ms"@) is None ==> c.socket_timeout_ms == 60000)
            &&& (lookup(f, "fetch_wait_max_ms"@) matches Some(FieldModel::Integer(v)) ==> c.fetch_wait_max_ms == v)
            &&& (lookup(f, "fetch_wait_max_ms"@) is None ==> c.fetch_wait_max_ms == 100)
            &&& (lookup(f, "commit_interval_ms"@) matches Some(FieldModel::Integer(v)) ==> c.commit_interval_ms == v)
            &&& (lookup(f, "commit_interval_ms"@) is None ==> c.commit_interval_ms == 5000)
            &&& (lookup(f, "auto_offset_reset"@) matches Some(FieldModel::String(v)) ==> c.auto_offset_reset == v)
            &&& (lookup(f, "auto_offset_reset"@) is None ==> c.auto_offset_reset == "largest"@)
            &&& (lookup(f, "key_field"@) matches Some(FieldModel::String(v)) ==> c.key_field == v)
            &&& (lookup(f, "key_field"@) is None ==> c.key_field == "message_key"@)
            &&& (lookup(f, "topic_key"@) matches Some(FieldModel::String(v)) ==> c.topic_key == v)
            &&& (lookup(f, "topic_key"@) is None ==> c.topic_key == "topic"@)
            &&& (lookup(f, "partition_key"@) matches Some(FieldModel::String(v)) ==> c.partition_key == v)
            &&& (lookup(f, "partition_key"@) is None ==> c.partition_key == "partition"@)
            &&& (lookup(f, "offset_key"@) matches Some(FieldModel::String(v)) ==> c.offset_key == v)
            &&& (lookup(f, "offset_key"@) is None ==> c.offset_key == "offset"@)
            &&& (lookup(f, "headers_key"@) matches Some(FieldModel::String(v)) ==> c.headers_key == v)
            &&& (lookup(f, "headers_key"@) is None ==> c.headers_key == "headers"@)
            &&& (lookup(f, "librdkafka_options"@) matches Some(FieldModel::Table(t)) ==> c.librdkafka_options == Some(options_of(t)))
            &&& (lookup(f, "librdkafka_options"@) is None ==> c.librdkafka_options is None)
            &&& (lookup(f, "sasl"@) is None ==> c.sasl is None)
            &&& (lookup(f, "tls"@) is None ==> c.tls is None)
            },
        },
{
}

} // verus!
