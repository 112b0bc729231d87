# vector (verified sources and conditions)

Event-processing pieces of a log pipeline, written in Verus and proved against their
contracts:

- `src/event.rs`: log events as sets of named fields kept in name order, where a field
  name is a path (`a.b` is the field `b` of the object in `a`), with the laws of reading a
  path after writing it, of leaving diverging paths alone, and of keeping names ordered.
- `src/conditions.rs`: the `Condition` and `ConditionConfig` traits and `AnyCondition`.
- `src/sources/http.rs`: how an HTTP request body becomes events under the source's
  encoding (text lines, binary bodies, JSON objects and arrays parsed with serde_json,
  NDJSON lines, and the refusals of malformed ones) and
  what each event learns of the request: configured headers and query parameters, the
  path and the source type.
- `src/sources/kafka.rs`: the Kafka consumer's client settings, and how a consumed
  message becomes an event.
- `src/sources/kafka_committer.rs`: which offsets may be stored as acknowledgements come
  in, so that an offset is stored only after it and every earlier message are acknowledged,
  with laws over whole histories of acknowledgements.
- `src/sources/kafka_config.rs`: the Kafka source's configuration read from and written
  to a table of named values, with defaults and refusals, and the round trip between the two.
- `src/kafka.rs`: SASL and TLS settings of a Kafka client.
- `src/sources/kafka_client.rs`: the contracts assumed of the `rdkafka` calls.

`app/` holds the runtime around the library: the HTTP server (warp), TOML configuration
files and the Kafka consume loop.
