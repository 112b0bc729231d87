use vector::kafka::{KafkaAuthConfig, KafkaSaslConfig};
use vector::sources::kafka::KafkaSourceConfig;
use vector::sources::kafka_config::{ConfigErrorKind, ConfigScalar, ConfigValue};

fn scalar_to_toml(v: &ConfigScalar) -> toml::Value {
    match v {
        ConfigScalar::Boolean(b) => toml::Value::Boolean(*b),
        ConfigScalar::Integer(i) => toml::Value::Integer(*i),
        ConfigScalar::String(s) => toml::Value::String(s.clone()),
    }
}

fn to_toml(fields: &[(String, ConfigValue)]) -> toml::Value {
    let mut table = toml::value::Table::new();
    for (key, value) in fields {
        let v = match value {
            ConfigValue::Boolean(b) => toml::Value::Boolean(*b),
            ConfigValue::Integer(i) => toml::Value::Integer(*i),
            ConfigValue::String(s) => toml::Value::String(s.clone()),
            ConfigValue::StringArray(items) => toml::Value::Array(
                items.iter().map(|s| toml::Value::String(s.clone())).collect(),
            ),
            ConfigValue::Table(entries) => {
                let mut inner = toml::value::Table::new();
                for (k, v) in entries {
                    inner.insert(k.clone(), scalar_to_toml(v));
                }
                toml::Value::Table(inner)
            }
        };
        table.insert(key.clone(), v);
    }
    toml::Value::Table(table)
}

fn scalar_from_toml(v: &toml::Value) -> ConfigScalar {
    match v {
        toml::Value::Boolean(b) => ConfigScalar::Boolean(*b),
        toml::Value::Integer(i) => ConfigScalar::Integer(*i),
        other => ConfigScalar::String(other.as_str().unwrap_or_default().to_string()),
    }
}

fn from_toml(v: &toml::Value) -> Vec<(String, ConfigValue)> {
    let table = v.as_table().expect("a table");
    table
        .iter()
        .map(|(key, value)| {
            let v = match value {
                toml::Value::Boolean(b) => ConfigValue::Boolean(*b),
                toml::Value::Integer(i) => ConfigValue::Integer(*i),
                toml::Value::String(s) => ConfigValue::String(s.clone()),
                toml::Value::Array(items) => ConfigValue::StringArray(
                    items
                        .iter()
                        .map(|i| i.as_str().unwrap_or_default().to_string())
                        .collect(),
                ),
                toml::Value::Table(t) => ConfigValue::Table(
                    t.iter().map(|(k, v)| (k.clone(), scalar_from_toml(v))).collect(),
                ),
                other => ConfigValue::String(other.to_string()),
            };
            (key.clone(), v)
        })
        .collect()
}

fn parse(text: &str) -> Result<KafkaSourceConfig, vector::sources::kafka_config::ConfigError> {
    let value: toml::Value = toml::from_str(text).expect("valid TOML");
    KafkaSourceConfig::from_fields(&from_toml(&value))
}

#[test]
fn kafka_generate_config() {
    let generated = KafkaSourceConfig::generate_config();
    let cfg = toml::to_string(&to_toml(&generated.to_fields().unwrap())).unwrap();
    let parsed: toml::Value = toml::from_str(&cfg).unwrap();
    KafkaSourceConfig::from_fields(&from_toml(&parsed)).expect("Invalid config generated");
}

fn make_config() -> KafkaSourceConfig {
    KafkaSourceConfig {
        bootstrap_servers: "localhost:9092".to_string(),
        topics: vec!["my-topic".to_string()],
        group_id: "group-id".to_string(),
        auto_offset_reset: "earliest".to_string(),
        session_timeout_ms: 10000,
        commit_interval_ms: 5000,
        key_field: "message_key".to_string(),
        topic_key: "topic".to_string(),
        partition_key: "partition".to_string(),
        offset_key: "offset".to_string(),
        headers_key: "headers".to_string(),
        socket_timeout_ms: 60000,
        fetch_wait_max_ms: 100,
        ..Default::default()
    }
}

#[test]
fn config_round_trips_through_toml() {
    let mut config = make_config();
    config.librdkafka_options = Some(vec![("client.rack".to_string(), "r1".to_string())]);
    config.auth = KafkaAuthConfig {
        sasl: Some(KafkaSaslConfig {
            enabled: Some(true),
            username: Some("user".to_string()),
            password: None,
            mechanism: Some("PLAIN".to_string()),
        }),
        tls: None,
    };
    let text = toml::to_string(&to_toml(&config.to_fields().unwrap())).unwrap();
    let back = parse(&text).unwrap();
    assert_eq!(back.bootstrap_servers, "localhost:9092");
    assert_eq!(back.topics, vec!["my-topic".to_string()]);
    assert_eq!(back.group_id, "group-id");
    assert_eq!(back.auto_offset_reset, "earliest");
    assert_eq!(back.session_timeout_ms, 10000);
    assert_eq!(back.librdkafka_options.unwrap(), vec![("client.rack".to_string(), "r1".to_string())]);
    let sasl = back.auth.sasl.unwrap();
    assert_eq!(sasl.enabled, Some(true));
    assert_eq!(sasl.username.as_deref(), Some("user"));
    assert_eq!(sasl.password, None);
    assert_eq!(sasl.mechanism.as_deref(), Some("PLAIN"));
    assert!(back.auth.tls.is_none());
}

#[test]
fn missing_keys_take_defaults() {
    let config = parse(
        "bootstrap_servers = \"localhost:9092\"\ntopics = [\"a\", \"b\"]\ngroup_id = \"g\"\n",
    )
    .unwrap();
    assert_eq!(config.auto_offset_reset, "largest");
    assert_eq!(config.session_timeout_ms, 10000);
    assert_eq!(config.socket_timeout_ms, 60000);
    assert_eq!(config.fetch_wait_max_ms, 100);
    assert_eq!(config.commit_interval_ms, 5000);
    assert_eq!(config.key_field, "message_key");
    assert_eq!(config.topic_key, "topic");
    assert_eq!(config.partition_key, "partition");
    assert_eq!(config.offset_key, "offset");
    assert_eq!(config.headers_key, "headers");
    assert!(config.librdkafka_options.is_none());
}

#[test]
fn missing_required_key_is_reported() {
    let err = parse("bootstrap_servers = \"x\"\ngroup_id = \"g\"\n").err().unwrap();
    assert_eq!(err.kind, ConfigErrorKind::MissingField);
    assert_eq!(err.field, "topics");
}

#[test]
fn unknown_key_is_refused() {
    let fields = vec![
        ("bootstrap_servers".to_string(), ConfigValue::String("x".to_string())),
        ("nonsense".to_string(), ConfigValue::Boolean(true)),
    ];
    let err = KafkaSourceConfig::from_fields(&fields).err().unwrap();
    assert_eq!(err.kind, ConfigErrorKind::UnknownField);
    assert_eq!(err.field, "nonsense");
}

#[test]
fn duplicate_key_is_refused() {
    let fields = vec![
        ("group_id".to_string(), ConfigValue::String("a".to_string())),
        ("group_id".to_string(), ConfigValue::String("b".to_string())),
    ];
    let err = KafkaSourceConfig::from_fields(&fields).err().unwrap();
    assert_eq!(err.kind, ConfigErrorKind::DuplicateField);
    assert_eq!(err.field, "group_id");
}

#[test]
fn negative_duration_is_refused() {
    let err = parse(
        "bootstrap_servers = \"x\"\ntopics = []\ngroup_id = \"g\"\nsession_timeout_ms = -1\n",
    )
    .err()
    .unwrap();
    assert_eq!(err.kind, ConfigErrorKind::InvalidType);
    assert_eq!(err.field, "session_timeout_ms");
}

#[test]
fn duration_above_table_range_cannot_be_written() {
    let mut config = make_config();
    config.fetch_wait_max_ms = u64::MAX;
    let err = config.to_fields().err().unwrap();
    assert_eq!(err.kind, ConfigErrorKind::OutOfRange);
    assert_eq!(err.field, "fetch_wait_max_ms");
}

#[test]
fn repeated_option_is_refused() {
    let fields = vec![
        ("bootstrap_servers".to_string(), ConfigValue::String("x".to_string())),
        ("topics".to_string(), ConfigValue::StringArray(vec!["t".to_string()])),
        ("group_id".to_string(), ConfigValue::String("g".to_string())),
        (
            "librdkafka_options".to_string(),
            ConfigValue::Table(vec![
                ("client.id".to_string(), ConfigScalar::String("a".to_string())),
                ("client.id".to_string(), ConfigScalar::String("b".to_string())),
            ]),
        ),
    ];
    let err = KafkaSourceConfig::from_fields(&fields).err().unwrap();
    assert_eq!(err.kind, ConfigErrorKind::InvalidType);
    assert_eq!(err.field, "librdkafka_options");
}
