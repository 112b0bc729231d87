use rdkafka::consumer::{BaseConsumer, Consumer};
use vector::event::{Instant, LogEvent, LogSchema, LogValue};

const NOW: Instant = Instant { seconds: 1_700_000_000, nanos: 987_654_321 };
use vector::kafka::{KafkaAuthConfig, KafkaSaslConfig, KafkaTlsConfig};
use vector::sources::kafka::{
    create_client_config, default_auto_offset_reset, default_commit_interval_ms,
    default_fetch_wait_max_ms, default_headers_key, default_key_field, default_offset_key,
    default_partition_key, default_session_timeout_ms, default_socket_timeout_ms,
    after_send, default_topic_key, message_to_event, offset_disposition, on_read, DataType, KafkaMessage,
    KafkaSourceConfig, OffsetDisposition,
};
use vector::sources::kafka_committer::{Committer, CommitterEntry, CommitterStore};

fn make_config() -> KafkaSourceConfig {
    KafkaSourceConfig {
        bootstrap_servers: "localhost:9092".to_string(),
        topics: vec!["my-topic".to_string()],
        group_id: "group-id".to_string(),
        auto_offset_reset: "earliest".to_string(),
        session_timeout_ms: 10000,
        commit_interval_ms: 5000,
        key_field: "message_key".to_string(),
        topic_key: "topic".to_string(),
        partition_key: "partition".to_string(),
        offset_key: "offset".to_string(),
        headers_key: "headers".to_string(),
        socket_timeout_ms: 60000,
        fetch_wait_max_ms: 100,
        ..Default::default()
    }
}

fn create_consumer(config: &KafkaSourceConfig) -> Result<BaseConsumer, rdkafka::error::KafkaError> {
    let consumer: BaseConsumer = create_client_config(config).create()?;
    let topics: Vec<&str> = config.topics.iter().map(|s| s.as_str()).collect();
    consumer.subscribe(&topics)?;
    Ok(consumer)
}

#[test]
fn consumer_create_ok() {
    let config = make_config();
    assert!(create_consumer(&config).is_ok());
}

#[test]
fn consumer_create_incorrect_auto_offset_reset() {
    let config = KafkaSourceConfig {
        auto_offset_reset: "incorrect-auto-offset-reset".to_string(),
        ..make_config()
    };
    assert!(create_consumer(&config).is_err());
}

#[test]
fn client_settings() {
    let mut config = make_config();
    config.librdkafka_options = Some(vec![
        ("client.id".to_string(), "custom".to_string()),
        ("queued.min.messages".to_string(), "7".to_string()),
    ]);
    let client = create_client_config(&config);
    assert_eq!(client.get("group.id"), Some("group-id"));
    assert_eq!(client.get("bootstrap.servers"), Some("localhost:9092"));
    assert_eq!(client.get("auto.offset.reset"), Some("earliest"));
    assert_eq!(client.get("session.timeout.ms"), Some("10000"));
    assert_eq!(client.get("socket.timeout.ms"), Some("60000"));
    assert_eq!(client.get("fetch.wait.max.ms"), Some("100"));
    assert_eq!(client.get("enable.partition.eof"), Some("false"));
    assert_eq!(client.get("enable.auto.commit"), Some("true"));
    assert_eq!(client.get("auto.commit.interval.ms"), Some("5000"));
    assert_eq!(client.get("enable.auto.offset.store"), Some("false"));
    assert_eq!(client.get("statistics.interval.ms"), Some("1000"));
    assert_eq!(client.get("security.protocol"), Some("plaintext"));
    // Extra options override the source's own settings.
    assert_eq!(client.get("client.id"), Some("custom"));
    assert_eq!(client.get("queued.min.messages"), Some("7"));
}

#[test]
fn client_auth_settings() {
    let mut config = make_config();
    config.auth = KafkaAuthConfig {
        sasl: Some(KafkaSaslConfig {
            enabled: Some(true),
            username: Some("u".to_string()),
            password: Some("p".to_string()),
            mechanism: None,
        }),
        tls: Some(KafkaTlsConfig {
            enabled: Some(true),
            ca_file: Some("/ca.pem".to_string()),
            crt_file: None,
            key_file: None,
            key_pass: Some("secret".to_string()),
        }),
    };
    let client = create_client_config(&config);
    assert_eq!(client.get("security.protocol"), Some("sasl_ssl"));
    assert_eq!(client.get("sasl.username"), Some("u"));
    assert_eq!(client.get("sasl.password"), Some("p"));
    assert_eq!(client.get("sasl.mechanism"), None);
    assert_eq!(client.get("ssl.ca.location"), Some("/ca.pem"));
    assert_eq!(client.get("ssl.key.password"), Some("secret"));

    config.auth.sasl.as_mut().unwrap().enabled = Some(false);
    let client = create_client_config(&config);
    assert_eq!(client.get("security.protocol"), Some("ssl"));
    assert_eq!(client.get("sasl.username"), None);
}

#[test]
fn kafka_defaults() {
    assert_eq!(default_session_timeout_ms(), 10000);
    assert_eq!(default_socket_timeout_ms(), 60000);
    assert_eq!(default_fetch_wait_max_ms(), 100);
    assert_eq!(default_commit_interval_ms(), 5000);
    assert_eq!(default_auto_offset_reset(), "largest");
    assert_eq!(default_key_field(), "message_key");
    assert_eq!(default_topic_key(), "topic");
    assert_eq!(default_partition_key(), "partition");
    assert_eq!(default_offset_key(), "offset");
    assert_eq!(default_headers_key(), "headers");
    let config = KafkaSourceConfig::default();
    assert_eq!(config.output_type(), DataType::Log);
    assert_eq!(config.source_type(), "kafka");
    assert!(KafkaSourceConfig::generate_config().topics.is_empty());
}

fn message() -> KafkaMessage {
    KafkaMessage {
        payload: Some(b"my message 0".to_vec()),
        key: Some(b"my key".to_vec()),
        topic: "my-topic".to_string(),
        partition: 3,
        offset: 42,
        timestamp_millis: Some(1_600_000_000_123),
        headers: vec![
            ("my header".to_string(), b"my header value".to_vec()),
            ("other".to_string(), b"x".to_vec()),
            ("my header".to_string(), b"replaced".to_vec()),
        ],
    }
}

fn bytes(log: &LogEvent, key: &str) -> Vec<u8> {
    match log.get(key) {
        Some(LogValue::Bytes(b)) => b.clone(),
        other => panic!("{} is {:?}", key, other),
    }
}

#[test]
fn message_becomes_event() {
    let keys = make_config().event_keys();
    let log = message_to_event(&message(), &keys, &LogSchema::standard(), NOW).unwrap();
    assert_eq!(bytes(&log, "message"), b"my message 0");
    assert!(matches!(log.get("timestamp"), Some(LogValue::Timestamp(Instant { seconds: 1_600_000_000, nanos: 123_000_000 }))));
    assert_eq!(bytes(&log, "source_type"), b"kafka");
    assert_eq!(bytes(&log, "message_key"), b"my key");
    assert_eq!(bytes(&log, "topic"), b"my-topic");
    assert!(matches!(log.get("partition"), Some(LogValue::Integer(3))));
    assert!(matches!(log.get("offset"), Some(LogValue::Integer(42))));
    match log.get("headers") {
        Some(LogValue::Object(entries)) => {
            assert_eq!(entries.len(), 2);
            assert_eq!(entries[0].0, "my header");
            assert!(matches!(&entries[0].1, LogValue::Bytes(b) if b == b"replaced"));
            assert_eq!(entries[1].0, "other");
        }
        other => panic!("headers are {:?}", other),
    }
}

#[test]
fn message_without_payload_is_skipped() {
    let mut msg = message();
    msg.payload = None;
    let keys = make_config().event_keys();
    assert!(message_to_event(&msg, &keys, &LogSchema::standard(), NOW).is_none());
}

#[test]
fn message_without_key_or_timestamp() {
    let mut msg = message();
    msg.key = None;
    msg.timestamp_millis = None;
    msg.headers = vec![];
    let keys = make_config().event_keys();
    let log = message_to_event(&msg, &keys, &LogSchema::standard(), NOW).unwrap();
    assert!(matches!(log.get("message_key"), Some(LogValue::Null)));
    assert!(matches!(log.get("timestamp"), Some(LogValue::Timestamp(t)) if *t == NOW));
    assert!(matches!(log.get("headers"), Some(LogValue::Object(e)) if e.is_empty()));
}

#[test]
fn unrepresentable_timestamp_falls_back_to_now() {
    let mut msg = message();
    msg.timestamp_millis = Some(i64::MAX);
    let keys = make_config().event_keys();
    let log = message_to_event(&msg, &keys, &LogSchema::standard(), NOW).unwrap();
    assert!(matches!(log.get("timestamp"), Some(LogValue::Timestamp(t)) if *t == NOW));
}

#[test]
fn invalid_utf8_key_is_decoded_lossily() {
    let mut msg = message();
    msg.key = Some(vec![b'a', 0xff, b'b']);
    let keys = make_config().event_keys();
    let log = message_to_event(&msg, &keys, &LogSchema::standard(), NOW).unwrap();
    assert_eq!(bytes(&log, "message_key"), "a\u{fffd}b".as_bytes());
}

#[test]
fn offsets_wait_for_acknowledgements_only_when_enabled() {
    let msg = message();
    match offset_disposition(true, &msg) {
        OffsetDisposition::AwaitAcknowledgement(e) => {
            assert!(!e.done);
            assert_eq!(e.topic, "my-topic");
            assert_eq!(e.partition, 3);
            assert_eq!(e.offset, 42);
        }
        OffsetDisposition::StoreNow => panic!("acknowledgements are on"),
    }
    assert!(matches!(offset_disposition(false, &msg), OffsetDisposition::StoreNow));
}

fn entries(list: &rdkafka::TopicPartitionList) -> Vec<(String, i32, i64)> {
    list.elements()
        .iter()
        .map(|e| (e.topic().to_string(), e.partition(), e.offset().to_raw().unwrap()))
        .collect()
}

#[test]
fn offsets_are_stored_in_arrival_order() {
    let mut committer = Committer::new();
    let a = committer.push(CommitterEntry::from_message("t", 0, 10));
    let b = committer.push(CommitterEntry::from_message("t", 0, 11));
    let c = committer.push(CommitterEntry::from_message("t", 1, 5));
    assert_eq!((a, b, c), (0, 1, 2));
    // Later messages acknowledged first store nothing.
    assert!(committer.acknowledge(c).is_none());
    assert!(committer.acknowledge(b).is_none());
    // The oldest one releases all three, in order, each at the next offset to read.
    let list = committer.acknowledge(a).unwrap();
    assert_eq!(
        entries(&list),
        vec![("t".to_string(), 0, 11), ("t".to_string(), 0, 12), ("t".to_string(), 1, 6)]
    );
    // Nothing is stored twice.
    assert!(committer.acknowledge(a).is_none());
    assert_eq!(committer.next_order(), 3);
}

#[test]
fn acknowledging_in_order_stores_each() {
    let mut committer = Committer::new();
    let a = committer.push(CommitterEntry::from_message("t", 0, 1));
    let b = committer.push(CommitterEntry::from_message("t", 0, 2));
    assert_eq!(entries(&committer.acknowledge(a).unwrap()), vec![("t".to_string(), 0, 2)]);
    assert_eq!(entries(&committer.acknowledge(b).unwrap()), vec![("t".to_string(), 0, 3)]);
}

#[test]
fn store_extracts_done_run_only() {
    let mut store = CommitterStore::new();
    store.insert(0, CommitterEntry::from_message("t", 0, 0));
    store.insert(1, CommitterEntry::from_message("t", 0, 1));
    store.mark_done(1);
    assert!(store.extract_topic_partition_list().is_none());
    assert_eq!(store.next(), 0);
    store.mark_done(0);
    store.mark_done(9);
    let list = store.extract_topic_partition_list().unwrap();
    assert_eq!(entries(&list).len(), 2);
    assert_eq!(store.next(), 2);
}

#[test]
fn pre_epoch_timestamp_splits_into_seconds_and_nanos() {
    let mut msg = message();
    msg.timestamp_millis = Some(-1);
    let keys = make_config().event_keys();
    let log = message_to_event(&msg, &keys, &LogSchema::standard(), NOW).unwrap();
    assert!(matches!(
        log.get("timestamp"),
        Some(LogValue::Timestamp(Instant { seconds: -1, nanos: 999_000_000 }))
    ));
}

#[test]
fn chrono_range_ends_are_kept() {
    let keys = make_config().event_keys();
    for (millis, kept) in [
        (8_210_266_876_799_999i64, true),
        (8_210_266_876_800_000, false),
        (-8_334_601_228_800_000, true),
        (-8_334_601_228_800_001, false),
    ] {
        let mut msg = message();
        msg.timestamp_millis = Some(millis);
        let log = message_to_event(&msg, &keys, &LogSchema::standard(), NOW).unwrap();
        let is_now = matches!(log.get("timestamp"), Some(LogValue::Timestamp(t)) if *t == NOW);
        assert_eq!(is_now, !kept, "{}", millis);
    }
}

#[test]
fn read_errors_and_failed_sends_are_skipped() {
    let keys = make_config().event_keys();
    assert!(on_read(None, &keys, &LogSchema::standard(), NOW).is_none());
    assert!(on_read(Some(&message()), &keys, &LogSchema::standard(), NOW).is_some());
    assert!(after_send(false, true, &message()).is_none());
    assert!(matches!(after_send(true, false, &message()), Some(OffsetDisposition::StoreNow)));
    assert!(matches!(
        after_send(true, true, &message()),
        Some(OffsetDisposition::AwaitAcknowledgement(e)) if e.offset == 42
    ));
}
