//! The HTTP source: how a request body becomes events, and what each event learns
//! of the request (configured headers, query parameters, the path and the source type).
use vstd::prelude::*;
use vstd::utf8::*;
use crate::event::{
    assoc_insert, field_at, set_field, set_field_if_absent, str_bytes, str_eq, Instant, LogEvent, LogSchema, LogValue, ValueModel,
};

verus! {

broadcast use vstd::utf8::group_utf8_lib;

/// How a request body is decoded into events.
#[derive(Debug, Clone, Copy, PartialEq, Eq, Structural)]
pub enum Encoding {
    /// One event per non-empty line.
    Text,
    /// One event per non-empty line, each a JSON object.
    Ndjson,
    /// A JSON object, or an array of objects, one event each.
    Json,
    /// One event holding the whole body.
    Binary,
}

impl Default for Encoding {
    fn default() -> (r: Encoding)
        ensures
            r == Encoding::Text,
    {
        Encoding::Text
    }
}

/// A rejected request: the status code to answer with and why.
#[derive(Debug, Clone)]
pub struct ErrorMessage {
    pub code: u16,
    pub message: String,
}

/// The route path served by default.
pub fn default_path() -> (r: String)
    ensures
        r@ == "/"@,
{
    String::from_str("/")
}

/// The field the request path is written to by default.
pub fn default_path_key() -> (r: String)
    ensures
        r@ == "path"@,
{
    String::from_str("path")
}

// ---------------------------------------------------------------------------
// Body decoding
// ---------------------------------------------------------------------------

/// Scanning `s` for newlines: the non-empty lines completed so far, and the bytes of
/// the line in progress.
pub open spec fn scan_lines(s: Seq<u8>) -> (Seq<Seq<u8>>, Seq<u8>)
    decreases s.len(),
{
    if s.len() == 0 {
        (Seq::empty(), Seq::empty())
    } else {
        let prev = scan_lines(s.drop_last());
        if s.last() == 10u8 {
            (
                if prev.1.len() > 0 {
                    prev.0.push(prev.1)
                } else {
                    prev.0
                },
                Seq::empty(),
            )
        } else {
            (prev.0, prev.1.push(s.last()))
        }
    }
}

/// The non-empty lines of a body split at each `\n`, in order.
pub open spec fn body_lines(s: Seq<u8>) -> Seq<Seq<u8>> {
    let st = scan_lines(s);
    if st.1.len() > 0 {
        st.0.push(st.1)
    } else {
        st.0
    }
}

/// The lines joined back together.
pub open spec fn joined(lines: Seq<Seq<u8>>) -> Seq<u8>
    decreases lines.len(),
{
    if lines.len() == 0 {
        Seq::empty()
    } else {
        joined(lines.drop_last()) + lines.last()
    }
}

/// The body with its newline bytes removed.
pub open spec fn without_newlines(s: Seq<u8>) -> Seq<u8>
    decreases s.len(),
{
    if s.len() == 0 {
        Seq::empty()
    } else if s.last() == 10u8 {
        without_newlines(s.drop_last())
    } else {
        without_newlines(s.drop_last()).push(s.last())
    }
}

proof fn lemma_scan_lines(s: Seq<u8>)
    ensures
        forall|i: int|
            0 <= i < scan_lines(s).0.len() ==> #[trigger] scan_lines(s).0[i].len() > 0
                && !scan_lines(s).0[i].contains(10u8),
        !scan_lines(s).1.contains(10u8),
        joined(scan_lines(s).0) + scan_lines(s).1 == without_newlines(s),
    decreases s.len(),
{
    if s.len() > 0 {
        let prev = scan_lines(s.drop_last());
        lemma_scan_lines(s.drop_last());
        if s.last() == 10u8 {
            if prev.1.len() > 0 {
                let d = prev.0.push(prev.1);
                assert(d.drop_last() =~= prev.0);
                assert forall|i: int| 0 <= i < d.len() implies #[trigger] d[i].len() > 0
                    && !d[i].contains(10u8) by {
                    if i < prev.0.len() {
                        assert(d[i] == prev.0[i]);
                    }
                }
                assert(joined(d) + Seq::<u8>::empty() =~= joined(prev.0) + prev.1);
            } else {
                assert(joined(prev.0) + Seq::<u8>::empty() =~= joined(prev.0) + prev.1);
            }
        } else {
            let c = prev.1.push(s.last());
            assert(!c.contains(10u8)) by {
                if c.contains(10u8) {
                    let j = choose|j: int| 0 <= j < c.len() && c[j] == 10u8;
                    if j < prev.1.len() {
                        assert(prev.1[j] == c[j]);
                    }
                }
            }
            assert(joined(prev.0) + c =~= (joined(prev.0) + prev.1).push(s.last()));
        }
    }
}

/// Splitting a body into lines keeps every byte but the newlines, in order, and yields
/// only non-empty lines free of newlines.
pub proof fn law_lines_partition_body(s: Seq<u8>)
    ensures
        forall|i: int|
            0 <= i < body_lines(s).len() ==> #[trigger] body_lines(s)[i].len() > 0
                && !body_lines(s)[i].contains(10u8),
        joined(body_lines(s)) == without_newlines(s),
{
    lemma_scan_lines(s);
    let st = scan_lines(s);
    if st.1.len() > 0 {
        let d = st.0.push(st.1);
        assert(d.drop_last() =~= st.0);
        assert forall|i: int| 0 <= i < d.len() implies #[trigger] d[i].len() > 0 && !d[i].contains(
            10u8,
        ) by {
            if i < st.0.len() {
                assert(d[i] == st.0[i]);
            }
        }
    } else {
        assert(joined(st.0) + st.1 =~= joined(st.0));
    }
}

/// The byte contents of a sequence of byte vectors.
pub open spec fn byte_views(v: Seq<Vec<u8>>) -> Seq<Seq<u8>> {
    Seq::new(v.len(), |i: int| v[i]@)
}

/// Splits a body at each `\n`, dropping empty lines.
pub fn body_to_lines(body: &[u8]) -> (r: Vec<Vec<u8>>)
    ensures
        byte_views(r@) == body_lines(body@),
{
    let mut lines: Vec<Vec<u8>> = Vec::new();
    let mut current: Vec<u8> = Vec::new();
    let n = body.len();
    let mut i: usize = 0;
    while i < n
        invariant
            n == body@.len(),
            0 <= i <= n,
            byte_views(lines@) == scan_lines(body@.take(i as int)).0,
            current@ == scan_lines(body@.take(i as int)).1,
        decreases n - i,
    {
        proof {
            assert(body@.take(i + 1).drop_last() =~= body@.take(i as int));
        }
        let b = body[i];
        if b == 10u8 {
            if current.len() > 0 {
                let ghost before = lines@;
                let line = current;
                lines.push(line);
                current = Vec::new();
                proof {
                    assert(byte_views(lines@) =~= byte_views(before).push(line@));
                }
            } else {
                current = Vec::new();
            }
        } else {
            current.push(b);
        }
        i = i + 1;
    }
    proof {
        assert(body@.take(n as int) =~= body@);
    }
    if current.len() > 0 {
        let ghost before = lines@;
        let line = current;
        lines.push(line);
        proof {
            assert(byte_views(lines@) =~= byte_views(before).push(line@));
        }
    }
    lines
}

/// The fields of an event made of `message` received at `now`.
pub open spec fn message_fields(message: Seq<u8>, now: Instant, schema: LogSchema) -> Seq<
    (Seq<char>, ValueModel),
> {
    set_field(
        set_field(Seq::empty(), schema.message_key@, ValueModel::Bytes(message)),
        schema.timestamp_key@,
        ValueModel::Timestamp(now),
    )
}

/// An event holding `message`, stamped with `now`.
pub fn message_log(message: Vec<u8>, now: Instant, schema: &LogSchema) -> (r: LogEvent)
    ensures
        r@ == message_fields(message@, now, *schema),
{
    let mut log = LogEvent::new();
    log.insert(schema.message_key.as_str(), LogValue::Bytes(message));
    log.insert(schema.timestamp_key.as_str(), LogValue::Timestamp(now));
    log
}

/// Decodes a text body: one event per non-empty line.
pub fn decode_text_body(body: &[u8], now: Instant, schema: &LogSchema) -> (r: Vec<LogEvent>)
    ensures
        r@.len() == body_lines(body@).len(),
        forall|i: int|
            0 <= i < r@.len() ==> #[trigger] r@[i]@ == message_fields(
                body_lines(body@)[i],
                now,
                *schema,
            ),
{
    let lines = body_to_lines(body);
    let ghost line_views = byte_views(lines@);
    let mut events: Vec<LogEvent> = Vec::new();
    let n = lines.len();
    let mut i: usize = 0;
    while i < n
        invariant
            n == lines@.len(),
            0 <= i <= n,
            line_views == byte_views(lines@),
            events@.len() == i,
            forall|j: int|
                0 <= j < i ==> #[trigger] events@[j]@ == message_fields(
                    line_views[j],
                    now,
                    *schema,
                ),
        decreases n - i,
    {
        let event = message_log(lines[i].clone(), now, schema);
        events.push(event);
        i = i + 1;
    }
    events
}

/// Decodes a binary body: a single event holding the whole body.
pub fn decode_binary_body(body: &[u8], now: Instant, schema: &LogSchema) -> (r: Vec<LogEvent>)
    ensures
        r@.len() == 1,
        r@[0]@ == message_fields(body@, now, *schema),
{
    let mut events: Vec<LogEvent> = Vec::new();
    events.push(message_log(vstd::slice::slice_to_vec(body), now, schema));
    events
}

// ---------------------------------------------------------------------------
// JSON bodies
// ---------------------------------------------------------------------------

/// The fields of a log event.
pub type Fields = Seq<(Seq<char>, ValueModel)>;

/// A refusal: the status code and the message.
pub type Refusal = (u16, Seq<char>);

/// The model of a decoded JSON document: its value, or the parser's description of
/// why the text is not JSON.
pub open spec fn parsed_model(p: Result<LogValue, String>) -> Result<ValueModel, Seq<char>> {
    match p {
        Ok(v) => Ok(crate::event::value_model(v)),
        Err(d) => Err(d@),
    }
}

/// The model of one decoded event or of a refusal.
pub open spec fn event_result_model(r: Result<LogEvent, ErrorMessage>) -> Result<Fields, Refusal> {
    match r {
        Ok(e) => Ok(e@),
        Err(m) => Err((m.code, m.message@)),
    }
}

/// The model of decoded events or of a refusal.
pub open spec fn events_result_model(r: Result<Vec<LogEvent>, ErrorMessage>) -> Result<
    Seq<Fields>,
    Refusal,
> {
    match r {
        Ok(v) => Ok(Seq::new(v@.len(), |i: int| v@[i]@)),
        Err(m) => Err((m.code, m.message@)),
    }
}

/// The name of a JSON value's type, as refusals give it.
pub open spec fn json_type_name(v: ValueModel) -> Seq<char> {
    match v {
        ValueModel::Null => "Null"@,
        ValueModel::Boolean(_) => "Bool"@,
        ValueModel::Integer(_) => "Number"@,
        ValueModel::Float(_) => "Number"@,
        ValueModel::Bytes(_) => "String"@,
        ValueModel::Timestamp(_) => "Timestamp"@,
        ValueModel::Array(_) => "Array"@,
        ValueModel::Object(_) => "Object"@,
    }
}

/// The event made of a JSON object's entries: stamped with `now`, then each
/// entry written in turn under its own name.
pub open spec fn object_fields(entries: Fields, now: Instant, schema: LogSchema) -> Fields
    decreases entries.len(),
{
    if entries.len() == 0 {
        set_field(Seq::empty(), schema.timestamp_key@, ValueModel::Timestamp(now))
    } else {
        assoc_insert(
            object_fields(entries.drop_last(), now, schema),
            entries.last().0,
            entries.last().1,
        )
    }
}

/// What a JSON value that must be an object gives: its event, or a refusal.
pub open spec fn object_result(v: ValueModel, now: Instant, schema: LogSchema) -> Result<
    Fields,
    Refusal,
> {
    match v {
        ValueModel::Object(entries) => Ok(object_fields(entries, now, schema)),
        _ => Err((400u16, "Expected Object, got "@ + json_type_name(v))),
    }
}

/// The events of a sequence of results, in order, or the first refusal among them.
pub open spec fn all_or_first_refusal(rs: Seq<Result<Fields, Refusal>>) -> Result<
    Seq<Fields>,
    Refusal,
>
    decreases rs.len(),
{
    if rs.len() == 0 {
        Ok(Seq::empty())
    } else {
        match all_or_first_refusal(rs.drop_last()) {
            Err(e) => Err(e),
            Ok(events) => match rs.last() {
                Err(e) => Err(e),
                Ok(event) => Ok(events.push(event)),
            },
        }
    }
}

/// What a JSON body gives: an object is one event, an array of objects one event each;
/// anything else, or text that is not JSON, is refused.
pub open spec fn json_body_result(
    parsed: Result<ValueModel, Seq<char>>,
    now: Instant,
    schema: LogSchema,
) -> Result<Seq<Fields>, Refusal> {
    match parsed {
        Err(d) => Err((400u16, "Error parsing Json: "@ + d)),
        Ok(v) => match v {
            ValueModel::Object(entries) => Ok(seq![object_fields(entries, now, schema)]),
            ValueModel::Array(items) => all_or_first_refusal(
                Seq::new(items.len(), |i: int| object_result(items[i], now, schema)),
            ),
            _ => Err((400u16, "Expected Object or Array, got "@ + json_type_name(v))),
        },
    }
}

/// What one line of an NDJSON body gives: the event of its object, or a refusal.
pub open spec fn ndjson_line_result(
    line: Result<ValueModel, Seq<char>>,
    now: Instant,
    schema: LogSchema,
) -> Result<Fields, Refusal> {
    match line {
        Err(d) => Err((400u16, "Error parsing Ndjson: "@ + d)),
        Ok(v) => object_result(v, now, schema),
    }
}

/// `serde_json::Value`, the JSON parser's document tree.
#[verifier::external_type_specification]
#[verifier::external_body]
pub struct ExJsonDocument(serde_json::Value);

/// What the JSON parser makes of `text`, read as an event value: the document, or the
/// parser's description of why the text is not JSON.
pub uninterp spec fn json_document(text: Seq<u8>) -> Result<ValueModel, Seq<char>>;

/// `serde_json::from_slice::<serde_json::Value>`: the parsed document converted variant by
/// variant into an event value (`from_json`), or the `Debug` text of the parse error.
/// The contract only names the result: how the parser reads a given text is not stated.
#[verifier::external_body]
pub(crate) fn parse_json(text: &[u8]) -> (r: Result<LogValue, String>)
    ensures
        parsed_model(r) == json_document(text@),
{
    serde_json::from_slice::<serde_json::Value>(text).map(from_json).map_err(|e| format!("{:?}", e))
}

/// Converts a `serde_json::Value` into an event value, one variant for one: null, bool,
/// a number as an integer when it fits `i64` (else the bits of its `f64`), a string as its
/// bytes, arrays and objects element by element. Only `parse_json` calls it; what the
/// pair gives is named by `json_document`.
#[verifier::external_body]
fn from_json(v: serde_json::Value) -> LogValue {
    match v {
        serde_json::Value::Null => LogValue::Null,
        serde_json::Value::Bool(b) => LogValue::Boolean(b),
        serde_json::Value::Number(n) => match n.as_i64() {
            Some(i) => LogValue::Integer(i),
            None => LogValue::Float(n.as_f64().map(|x| x.to_bits()).unwrap_or(0)),
        },
        serde_json::Value::String(t) => LogValue::Bytes(t.into_bytes()),
        serde_json::Value::Array(items) => LogValue::Array(items.into_iter().map(from_json).collect()),
        serde_json::Value::Object(m) => LogValue::Object(m.into_iter().map(|(k, x)| (k, from_json(x))).collect()),
    }
}

/// What a request body gives under an encoding: text, one event per non-empty line;
/// binary, one event holding the whole body; JSON, the events of the document; NDJSON,
/// the event of each non-empty line's object, or the first refusal.
pub open spec fn body_result(body: Seq<u8>, encoding: Encoding, now: Instant, schema: LogSchema) -> Result<
    Seq<Fields>,
    Refusal,
> {
    match encoding {
        Encoding::Text => Ok(
            Seq::new(
                body_lines(body).len(),
                |i: int| message_fields(body_lines(body)[i], now, schema),
            ),
        ),
        Encoding::Binary => Ok(seq![message_fields(body, now, schema)]),
        Encoding::Json => json_body_result(json_document(body), now, schema),
        Encoding::Ndjson => all_or_first_refusal(
            Seq::new(
                body_lines(body).len(),
                |i: int| ndjson_line_result(json_document(body_lines(body)[i]), now, schema),
            ),
        ),
    }
}

/// A refusal persists: once a prefix of the results holds one, the whole sequence gives it.
proof fn lemma_refusal_persists(rs: Seq<Result<Fields, Refusal>>, k: int)
    requires
        0 <= k <= rs.len(),
        all_or_first_refusal(rs.take(k)) is Err,
    ensures
        all_or_first_refusal(rs) == all_or_first_refusal(rs.take(k)),
    decreases rs.len(),
{
    if k == rs.len() {
        assert(rs.take(k) =~= rs);
    } else {
        let t = rs.drop_last();
        assert(t.take(k) =~= rs.take(k));
        lemma_refusal_persists(t, k);
    }
}

/// Every event decoded from a JSON object carries a timestamp: the time of receipt, or
/// the object's own `timestamp` entry.
pub proof fn law_json_events_stamped(entries: Fields, now: Instant, schema: LogSchema)
    requires
        !schema.timestamp_key@.contains('.'),
    ensures
        field_at(object_fields(entries, now, schema), schema.timestamp_key@) is Some,
    decreases entries.len(),
{
    let ts = schema.timestamp_key@;
    crate::event::lemma_split_dots_plain(ts);
    if entries.len() == 0 {
        crate::event::law_get_after_insert(
            Seq::empty(),
            ts,
            ValueModel::Timestamp(now),
            ts,
        );
    } else {
        law_json_events_stamped(entries.drop_last(), now, schema);
        crate::event::law_get_after_insert(
            object_fields(entries.drop_last(), now, schema),
            entries.last().0,
            entries.last().1,
            ts,
        );
    }
}

fn json_type(v: &LogValue) -> (r: &'static str)
    ensures
        r@ == json_type_name(crate::event::value_model(*v)),
{
    match v {
        LogValue::Null => "Null",
        LogValue::Boolean(_) => "Bool",
        LogValue::Integer(_) => "Number",
        LogValue::Float(_) => "Number",
        LogValue::Bytes(_) => "String",
        LogValue::Timestamp(_) => "Timestamp",
        LogValue::Array(_) => "Array",
        LogValue::Object(_) => "Object",
    }
}

fn bad_request(prefix: &str, detail: &str) -> (r: ErrorMessage)
    ensures
        r.code == 400,
        r.message@ == prefix@ + detail@,
{
    ErrorMessage { code: 400, message: String::from_str(prefix).concat(detail) }
}

/// The event made of a JSON object's entries, stamped with `now`.
pub fn object_event(entries: Vec<(String, LogValue)>, now: Instant, schema: &LogSchema) -> (r: LogEvent)
    ensures
        r@ == object_fields(crate::event::entries_model(entries@), now, *schema),
{
    let mut log = LogEvent::new();
    log.insert(schema.timestamp_key.as_str(), LogValue::Timestamp(now));
    let mut entries = entries;
    let ghost original = entries@;
    let ghost model = crate::event::entries_model(original);
    proof {
        crate::event::lemma_entries_model(original);
        assert(model.take(0) =~= Seq::<(Seq<char>, ValueModel)>::empty());
    }
    let n = entries.len();
    let mut i: usize = 0;
    while i < n
        invariant
            n == original.len(),
            model == crate::event::entries_model(original),
            model.len() == n,
            forall|j: int| 0 <= j < n ==> #[trigger] model[j] == (
                original[j].0@,
                crate::event::value_model(original[j].1),
            ),
            entries@.len() == n,
            0 <= i <= n,
            forall|j: int| i <= j < n ==> #[trigger] entries@[j] == original[j],
            log@ == object_fields(model.take(i as int), now, *schema),
        decreases n - i,
    {
        let mut slot: (String, LogValue) = (String::new(), LogValue::Null);
        entries.set_and_swap(i, &mut slot);
        let (key, value) = slot;
        log.insert_flat(key.as_str(), value);
        proof {
            assert(model.take(i + 1).drop_last() =~= model.take(i as int));
            assert(model.take(i + 1).last() == model[i as int]);
        }
        i = i + 1;
    }
    proof {
        assert(model.take(n as int) =~= model);
    }
    log
}

/// The event of a JSON value that must be an object; any other value is refused.
pub fn decode_json_object(v: LogValue, now: Instant, schema: &LogSchema) -> (r: Result<
    LogEvent,
    ErrorMessage,
>)
    ensures
        event_result_model(r) == object_result(crate::event::value_model(v), now, *schema),
{
    match v {
        LogValue::Object(entries) => Ok(object_event(entries, now, schema)),
        other => Err(bad_request("Expected Object, got ", json_type(&other))),
    }
}

#[verifier::loop_isolation(false)]
fn decode_json_items(items: Vec<LogValue>, now: Instant, schema: &LogSchema) -> (r: Result<
    Vec<LogEvent>,
    ErrorMessage,
>)
    ensures
        events_result_model(r) == all_or_first_refusal(
            Seq::new(
                items@.len(),
                |i: int| object_result(crate::event::value_model(items@[i]), now, *schema),
            ),
        ),
{
    let ghost rs = Seq::new(
        items@.len(),
        |i: int| object_result(crate::event::value_model(items@[i]), now, *schema),
    );
    let mut items = items;
    let ghost original = items@;
    let mut out: Vec<LogEvent> = Vec::new();
    let n = items.len();
    let mut i: usize = 0;
    proof {
        assert(rs.take(0) =~= Seq::<Result<Fields, Refusal>>::empty());
        assert(Seq::new(out@.len(), |j: int| out@[j]@) =~= Seq::<Fields>::empty());
        assert(all_or_first_refusal(rs.take(0)) == Ok::<Seq<Fields>, Refusal>(Seq::empty()));
    }
    while i < n
        invariant
            n == original.len(),
            rs.len() == n,
            forall|j: int| 0 <= j < n ==> #[trigger] rs[j] == object_result(
                crate::event::value_model(original[j]),
                now,
                *schema,
            ),
            items@.len() == n,
            0 <= i <= n,
            forall|j: int| i <= j < n ==> #[trigger] items@[j] == original[j],
            all_or_first_refusal(rs.take(i as int)) == Ok::<Seq<Fields>, Refusal>(
                Seq::new(out@.len(), |j: int| out@[j]@),
            ),
        decreases n - i,
    {
        let mut slot = LogValue::Null;
        items.set_and_swap(i, &mut slot);
        let r = decode_json_object(slot, now, schema);
        proof {
            assert(rs.take(i + 1).drop_last() =~= rs.take(i as int));
            assert(rs.take(i + 1).last() == rs[i as int]);
            assert(rs[i as int] == event_result_model(r));
        }
        match r {
            Err(e) => {
                proof {
                    assert(all_or_first_refusal(rs.take(i + 1)) == Err::<Seq<Fields>, Refusal>(
                        (e.code, e.message@),
                    ));
                    lemma_refusal_persists(rs, i + 1);
                }
                return Err(e);
            },
            Ok(event) => {
                let ghost before = out@;
                out.push(event);
                proof {
                    assert(Seq::new(out@.len(), |j: int| out@[j]@) =~= Seq::new(
                        before.len(),
                        |j: int| before[j]@,
                    ).push(event@));
                }
            },
        }
        i = i + 1;
    }
    proof {
        assert(rs.take(n as int) =~= rs);
    }
    Ok(out)
}

/// Decodes a JSON body, given as what the JSON parser made of it: an object is one
/// event, an array of objects one event each; anything else is refused.
pub fn decode_json_body(parsed: Result<LogValue, String>, now: Instant, schema: &LogSchema) -> (r:
    Result<Vec<LogEvent>, ErrorMessage>)
    ensures
        events_result_model(r) == json_body_result(parsed_model(parsed), now, *schema),
{
    match parsed {
        Err(detail) => Err(bad_request("Error parsing Json: ", detail.as_str())),
        Ok(v) => match v {
            LogValue::Object(entries) => {
                let event = object_event(entries, now, schema);
                let mut out: Vec<LogEvent> = Vec::new();
                out.push(event);
                proof {
                    assert(Seq::new(out@.len(), |j: int| out@[j]@) =~= seq![event@]);
                }
                Ok(out)
            },
            LogValue::Array(items) => {
                proof {
                    crate::event::lemma_values_model(items@);
                    let m = crate::event::values_model(items@);
                    assert(Seq::new(m.len(), |i: int| object_result(m[i], now, *schema))
                        =~= Seq::new(
                        items@.len(),
                        |i: int| object_result(crate::event::value_model(items@[i]), now, *schema),
                    ));
                }
                decode_json_items(items, now, schema)
            },
            other => Err(bad_request("Expected Object or Array, got ", json_type(&other))),
        },
    }
}

/// Decodes an NDJSON body, given as what the JSON parser made of each of its non-empty
/// lines: each line's object is one event; the first line that is not an object is refused.
#[verifier::loop_isolation(false)]
pub fn decode_ndjson_body(
    lines: Vec<Result<LogValue, String>>,
    now: Instant,
    schema: &LogSchema,
) -> (r: Result<Vec<LogEvent>, ErrorMessage>)
    ensures
        events_result_model(r) == all_or_first_refusal(
            Seq::new(
                lines@.len(),
                |i: int| ndjson_line_result(parsed_model(lines@[i]), now, *schema),
            ),
        ),
{
    let ghost rs = Seq::new(
        lines@.len(),
        |i: int| ndjson_line_result(parsed_model(lines@[i]), now, *schema),
    );
    let mut lines = lines;
    let ghost original = lines@;
    let mut out: Vec<LogEvent> = Vec::new();
    let n = lines.len();
    let mut i: usize = 0;
    proof {
        assert(rs.take(0) =~= Seq::<Result<Fields, Refusal>>::empty());
        assert(Seq::new(out@.len(), |j: int| out@[j]@) =~= Seq::<Fields>::empty());
        assert(all_or_first_refusal(rs.take(0)) == Ok::<Seq<Fields>, Refusal>(Seq::empty()));
    }
    while i < n
        invariant
            n == original.len(),
            rs.len() == n,
            forall|j: int| 0 <= j < n ==> #[trigger] rs[j] == ndjson_line_result(
                parsed_model(original[j]),
                now,
                *schema,
            ),
            lines@.len() == n,
            0 <= i <= n,
            forall|j: int| i <= j < n ==> #[trigger] lines@[j] == original[j],
            all_or_first_refusal(rs.take(i as int)) == Ok::<Seq<Fields>, Refusal>(
                Seq::new(out@.len(), |j: int| out@[j]@),
            ),
        decreases n - i,
    {
        let mut slot: Result<LogValue, String> = Err(String::new());
        lines.set_and_swap(i, &mut slot);
        let r = match slot {
            Err(detail) => Err(bad_request("Error parsing Ndjson: ", detail.as_str())),
            Ok(v) => decode_json_object(v, now, schema),
        };
        proof {
            assert(rs.take(i + 1).drop_last() =~= rs.take(i as int));
            assert(rs.take(i + 1).last() == rs[i as int]);
            assert(rs[i as int] == event_result_model(r));
        }
        match r {
            Err(e) => {
                proof {
                    assert(all_or_first_refusal(rs.take(i + 1)) == Err::<Seq<Fields>, Refusal>(
                        (e.code, e.message@),
                    ));
                    lemma_refusal_persists(rs, i + 1);
                }
                return Err(e);
            },
            Ok(event) => {
                let ghost before = out@;
                out.push(event);
                proof {
                    assert(Seq::new(out@.len(), |j: int| out@[j]@) =~= Seq::new(
                        before.len(),
                        |j: int| before[j]@,
                    ).push(event@));
                }
            },
        }
        i = i + 1;
    }
    proof {
        assert(rs.take(n as int) =~= rs);
    }
    Ok(out)
}

/// Decodes a request body under `encoding`, stamping its events with `now`.
pub fn decode_body(body: &[u8], encoding: Encoding, now: Instant, schema: &LogSchema) -> (r: Result<
    Vec<LogEvent>,
    ErrorMessage,
>)
    ensures
        events_result_model(r) == body_result(body@, encoding, now, *schema),
{
    match encoding {
        Encoding::Text => {
            let events = decode_text_body(body, now, schema);
            proof {
                assert(Seq::new(events@.len(), |i: int| events@[i]@) =~= Seq::new(
                    body_lines(body@).len(),
                    |i: int| message_fields(body_lines(body@)[i], now, *schema),
                ));
            }
            Ok(events)
        },
        Encoding::Binary => {
            let events = decode_binary_body(body, now, schema);
            proof {
                assert(Seq::new(events@.len(), |i: int| events@[i]@) =~= seq![
                    message_fields(body@, now, *schema),
                ]);
            }
            Ok(events)
        },
        Encoding::Json => decode_json_body(parse_json(body), now, schema),
        Encoding::Ndjson => {
            let lines = body_to_lines(body);
            let ghost views = byte_views(lines@);
            let mut parsed: Vec<Result<LogValue, String>> = Vec::new();
            let n = lines.len();
            let mut i: usize = 0;
            while i < n
                invariant
                    n == lines@.len(),
                    views == byte_views(lines@),
                    views == body_lines(body@),
                    0 <= i <= n,
                    parsed@.len() == i,
                    forall|j: int| 0 <= j < i ==> #[trigger] parsed_model(parsed@[j]) == json_document(
                        views[j],
                    ),
                decreases n - i,
            {
                parsed.push(parse_json(lines[i].as_slice()));
                i = i + 1;
            }
            proof {
                assert(Seq::new(
                    parsed@.len(),
                    |j: int| ndjson_line_result(parsed_model(parsed@[j]), now, *schema),
                ) =~= Seq::new(
                    body_lines(body@).len(),
                    |j: int| ndjson_line_result(json_document(body_lines(body@)[j]), now, *schema),
                ));
            }
            decode_ndjson_body(parsed, now, schema)
        },
    }
}

// ---------------------------------------------------------------------------
// Request fields
// ---------------------------------------------------------------------------

/// ASCII upper-case letters mapped to lower case, other bytes kept.
pub open spec fn ascii_lower(b: Seq<u8>) -> Seq<u8> {
    Seq::new(b.len(), |i: int| if 65 <= b[i] <= 90 { (b[i] + 32) as u8 } else { b[i] })
}

/// The value of the first request header whose name equals `name` once the ASCII letters
/// of both are lowered: header names match without regard to case.
pub open spec fn header_value(headers: Seq<(String, Vec<u8>)>, name: Seq<char>) -> Option<Seq<u8>>
    decreases headers.len(),
{
    if headers.len() == 0 {
        None
    } else {
        match header_value(headers.drop_last(), name) {
            Some(v) => Some(v),
            None => if ascii_lower(encode_utf8(headers.last().0@)) == ascii_lower(encode_utf8(name)) {
                Some(headers.last().1@)
            } else {
                None
            },
        }
    }
}

/// The value of the first query parameter named `name`.
pub open spec fn query_value(query: Seq<(String, String)>, name: Seq<char>) -> Option<Seq<char>>
    decreases query.len(),
{
    if query.len() == 0 {
        None
    } else {
        match query_value(query.drop_last(), name) {
            Some(v) => Some(v),
            None => if query.last().0@ == name {
                Some(query.last().1@)
            } else {
                None
            },
        }
    }
}

/// The value a possibly missing field value is written as.
pub open spec fn bytes_or_null(v: Option<Seq<u8>>) -> ValueModel {
    match v {
        Some(b) => ValueModel::Bytes(b),
        None => ValueModel::Null,
    }
}

/// An event after each name in `names` is set, in order, to the corresponding value in
/// `vals` (null for a missing value).
pub open spec fn with_fields(
    e: Seq<(Seq<char>, ValueModel)>,
    names: Seq<String>,
    vals: Seq<Option<Seq<u8>>>,
) -> Seq<(Seq<char>, ValueModel)>
    decreases names.len(),
{
    if names.len() == 0 {
        e
    } else {
        set_field(
            with_fields(e, names.drop_last(), vals),
            names.last()@,
            bytes_or_null(vals[names.len() - 1]),
        )
    }
}

/// The request's value of each configured header.
pub open spec fn header_values(names: Seq<String>, headers: Seq<(String, Vec<u8>)>) -> Seq<
    Option<Seq<u8>>,
> {
    Seq::new(names.len(), |j: int| header_value(headers, names[j]@))
}

/// The request's value of each configured query parameter, as UTF-8 bytes.
pub open spec fn query_values(names: Seq<String>, query: Seq<(String, String)>) -> Seq<
    Option<Seq<u8>>,
> {
    Seq::new(
        names.len(),
        |j: int|
            match query_value(query, names[j]@) {
                Some(v) => Some(encode_utf8(v)),
                None => None,
            },
    )
}

/// An event after each configured header is written to a field of its name: the header's
/// value, or null when the request lacks it.
pub open spec fn with_headers(
    e: Seq<(Seq<char>, ValueModel)>,
    names: Seq<String>,
    headers: Seq<(String, Vec<u8>)>,
) -> Seq<(Seq<char>, ValueModel)> {
    with_fields(e, names, header_values(names, headers))
}

/// An event after each configured query parameter is written to a field of its name: the
/// parameter's value, or null when the request lacks it.
pub open spec fn with_query_parameters(
    e: Seq<(Seq<char>, ValueModel)>,
    names: Seq<String>,
    query: Seq<(String, String)>,
) -> Seq<(Seq<char>, ValueModel)> {
    with_fields(e, names, query_values(names, query))
}

/// An event after the request path is written to the field `key`.
pub open spec fn with_path(e: Seq<(Seq<char>, ValueModel)>, key: Seq<char>, path: Seq<char>) -> Seq<
    (Seq<char>, ValueModel),
> {
    set_field(e, key, ValueModel::Bytes(encode_utf8(path)))
}

fn lower_ascii_bytes(b: &[u8]) -> (r: Vec<u8>)
    ensures
        r@ == ascii_lower(b@),
{
    let mut out: Vec<u8> = Vec::new();
    let n = b.len();
    let mut i: usize = 0;
    while i < n
        invariant
            n == b@.len(),
            0 <= i <= n,
            out@ =~= ascii_lower(b@).take(i as int),
        decreases n - i,
    {
        let c = b[i];
        if 65 <= c && c <= 90 {
            out.push(c + 32);
        } else {
            out.push(c);
        }
        i = i + 1;
    }
    out
}

/// The value of the first request header named `name`, regardless of case.
pub fn find_header(headers: &Vec<(String, Vec<u8>)>, name: &str) -> (r: Option<Vec<u8>>)
    ensures
        match r {
            Some(v) => header_value(headers@, name@) == Some(v@),
            None => header_value(headers@, name@) is None,
        },
{
    let wanted = lower_ascii_bytes(name.as_bytes());
    let n = headers.len();
    let mut i: usize = 0;
    while i < n
        invariant
            n == headers@.len(),
            0 <= i <= n,
            wanted@ == ascii_lower(encode_utf8(name@)),
            header_value(headers@.take(i as int), name@) is None,
        decreases n - i,
    {
        proof {
            assert(headers@.take(i + 1).drop_last() =~= headers@.take(i as int));
        }
        let stored = lower_ascii_bytes(headers[i].0.as_str().as_bytes());
        if crate::event::bytes_eq(stored.as_slice(), wanted.as_slice()) {
            proof {
                lemma_header_value_prefix(headers@, i + 1, name@);
            }
            return Some(headers[i].1.clone());
        }
        i = i + 1;
    }
    proof {
        assert(headers@.take(n as int) =~= headers@);
    }
    None
}

proof fn lemma_header_value_prefix(headers: Seq<(String, Vec<u8>)>, k: int, name: Seq<char>)
    requires
        0 <= k <= headers.len(),
        header_value(headers.take(k), name) is Some,
    ensures
        header_value(headers, name) == header_value(headers.take(k), name),
    decreases headers.len() - k,
{
    if k < headers.len() {
        assert(headers.take(k + 1).drop_last() =~= headers.take(k));
        lemma_header_value_prefix(headers, k + 1, name);
    } else {
        assert(headers.take(k) =~= headers);
    }
}

proof fn lemma_query_value_prefix(query: Seq<(String, String)>, k: int, name: Seq<char>)
    requires
        0 <= k <= query.len(),
        query_value(query.take(k), name) is Some,
    ensures
        query_value(query, name) == query_value(query.take(k), name),
    decreases query.len() - k,
{
    if k < query.len() {
        assert(query.take(k + 1).drop_last() =~= query.take(k));
        lemma_query_value_prefix(query, k + 1, name);
    } else {
        assert(query.take(k) =~= query);
    }
}

/// The value of the first query parameter named `name`.
pub fn find_query_parameter(query: &Vec<(String, String)>, name: &str) -> (r: Option<String>)
    ensures
        match r {
            Some(v) => query_value(query@, name@) == Some(v@),
            None => query_value(query@, name@) is None,
        },
{
    let n = query.len();
    let mut i: usize = 0;
    while i < n
        invariant
            n == query@.len(),
            0 <= i <= n,
            query_value(query@.take(i as int), name@) is None,
        decreases n - i,
    {
        proof {
            assert(query@.take(i + 1).drop_last() =~= query@.take(i as int));
        }
        if str_eq(query[i].0.as_str(), name) {
            proof {
                lemma_query_value_prefix(query@, i + 1, name@);
            }
            return Some(query[i].1.clone());
        }
        i = i + 1;
    }
    proof {
        assert(query@.take(n as int) =~= query@);
    }
    None
}

/// The contents of optional byte vectors.
pub open spec fn option_bytes_seq(v: Seq<Option<Vec<u8>>>) -> Seq<Option<Seq<u8>>> {
    Seq::new(v.len(), |i: int| option_bytes(v[i]))
}

fn set_fields(e: &mut LogEvent, names: &Vec<String>, vals: &Vec<Option<Vec<u8>>>)
    requires
        vals@.len() == names@.len(),
    ensures
        final(e)@ == with_fields(old(e)@, names@, option_bytes_seq(vals@)),
{
    let ghost start = e@;
    let ghost ovals = option_bytes_seq(vals@);
    let n = names.len();
    let mut j: usize = 0;
    while j < n
        invariant
            n == names@.len(),
            vals@.len() == n,
            ovals == option_bytes_seq(vals@),
            0 <= j <= n,
            e@ == with_fields(start, names@.take(j as int), ovals),
        decreases n - j,
    {
        proof {
            assert(names@.take(j + 1).drop_last() =~= names@.take(j as int));
        }
        let value = match &vals[j] {
            Some(v) => LogValue::Bytes(v.clone()),
            None => LogValue::Null,
        };
        e.insert(names[j].as_str(), value);
        j = j + 1;
    }
    proof {
        assert(names@.take(n as int) =~= names@);
    }
}

fn set_fields_all(events: Vec<LogEvent>, names: &Vec<String>, vals: &Vec<Option<Vec<u8>>>) -> (r: Vec<
    LogEvent,
>)
    requires
        vals@.len() == names@.len(),
    ensures
        r@.len() == events@.len(),
        forall|i: int|
            0 <= i < r@.len() ==> #[trigger] r@[i]@ == with_fields(
                events@[i]@,
                names@,
                option_bytes_seq(vals@),
            ),
{
    let mut events = events;
    let ghost original = events@;
    let n = events.len();
    let mut i: usize = 0;
    while i < n
        invariant
            n == original.len(),
            events@.len() == n,
            vals@.len() == names@.len(),
            0 <= i <= n,
            forall|j: int|
                0 <= j < i ==> #[trigger] events@[j]@ == with_fields(
                    original[j]@,
                    names@,
                    option_bytes_seq(vals@),
                ),
            forall|j: int| i <= j < n ==> #[trigger] events@[j] == original[j],
        decreases n - i,
    {
        let mut e = LogEvent::new();
        events.set_and_swap(i, &mut e);
        set_fields(&mut e, names, vals);
        events.set_and_swap(i, &mut e);
        i = i + 1;
    }
    events
}

/// Writes each configured header of the request to a field of its name in every event:
/// the header's value, or null when the request lacks it.
pub fn add_headers(
    events: Vec<LogEvent>,
    headers_config: &Vec<String>,
    headers: &Vec<(String, Vec<u8>)>,
) -> (r: Vec<LogEvent>)
    ensures
        r@.len() == events@.len(),
        forall|i: int|
            0 <= i < r@.len() ==> #[trigger] r@[i]@ == with_headers(
                events@[i]@,
                headers_config@,
                headers@,
            ),
{
    let mut values: Vec<Option<Vec<u8>>> = Vec::new();
    let m = headers_config.len();
    let mut k: usize = 0;
    while k < m
        invariant
            m == headers_config@.len(),
            0 <= k <= m,
            values@.len() == k,
            forall|j: int|
                0 <= j < k ==> #[trigger] option_bytes(values@[j]) == header_value(
                    headers@,
                    headers_config@[j]@,
                ),
        decreases m - k,
    {
        let v = find_header(headers, headers_config[k].as_str());
        values.push(v);
        k = k + 1;
    }
    proof {
        assert(option_bytes_seq(values@) =~= header_values(headers_config@, headers@));
    }
    set_fields_all(events, headers_config, &values)
}

/// Writes each configured query parameter of the request to a field of its name in every
/// event: the parameter's value, or null when the request lacks it.
pub fn add_query_parameters(
    events: Vec<LogEvent>,
    query_parameters_config: &Vec<String>,
    query_parameters: &Vec<(String, String)>,
) -> (r: Vec<LogEvent>)
    ensures
        r@.len() == events@.len(),
        forall|i: int|
            0 <= i < r@.len() ==> #[trigger] r@[i]@ == with_query_parameters(
                events@[i]@,
                query_parameters_config@,
                query_parameters@,
            ),
{
    let mut values: Vec<Option<Vec<u8>>> = Vec::new();
    let m = query_parameters_config.len();
    let mut k: usize = 0;
    while k < m
        invariant
            m == query_parameters_config@.len(),
            0 <= k <= m,
            values@.len() == k,
            forall|j: int|
                0 <= j < k ==> #[trigger] option_bytes(values@[j]) == query_values(
                    query_parameters_config@,
                    query_parameters@,
                )[j],
        decreases m - k,
    {
        let v = match find_query_parameter(query_parameters, query_parameters_config[k].as_str()) {
            Some(s) => Some(str_bytes(s.as_str())),
            None => None,
        };
        values.push(v);
        k = k + 1;
    }
    proof {
        assert(option_bytes_seq(values@) =~= query_values(
            query_parameters_config@,
            query_parameters@,
        ));
    }
    set_fields_all(events, query_parameters_config, &values)
}

/// The contents of an optional byte vector.
pub open spec fn option_bytes(v: Option<Vec<u8>>) -> Option<Seq<u8>> {
    match v {
        Some(b) => Some(b@),
        None => None,
    }
}

/// Writes the request path to the field `key` of every event.
pub fn add_path(events: Vec<LogEvent>, key: &str, path: &str) -> (r: Vec<LogEvent>)
    ensures
        r@.len() == events@.len(),
        forall|i: int| 0 <= i < r@.len() ==> #[trigger] r@[i]@ == with_path(events@[i]@, key@, path@),
{
    let mut events = events;
    let ghost original = events@;
    let n = events.len();
    let mut i: usize = 0;
    while i < n
        invariant
            n == original.len(),
            events@.len() == n,
            0 <= i <= n,
            forall|j: int| 0 <= j < i ==> #[trigger] events@[j]@ == with_path(original[j]@, key@, path@),
            forall|j: int| i <= j < n ==> #[trigger] events@[j] == original[j],
        decreases n - i,
    {
        let mut e = LogEvent::new();
        events.set_and_swap(i, &mut e);
        e.insert(key, LogValue::Bytes(str_bytes(path)));
        events.set_and_swap(i, &mut e);
        i = i + 1;
    }
    events
}

/// An event after the source type is written to its field, unless that field is already set.
pub open spec fn with_source_type(e: Seq<(Seq<char>, ValueModel)>, key: Seq<char>) -> Seq<
    (Seq<char>, ValueModel),
> {
    set_field_if_absent(e, key, ValueModel::Bytes(encode_utf8("http"@)))
}

fn add_source_type(events: Vec<LogEvent>, key: &str) -> (r: Vec<LogEvent>)
    ensures
        r@.len() == events@.len(),
        forall|i: int| 0 <= i < r@.len() ==> #[trigger] r@[i]@ == with_source_type(events@[i]@, key@),
{
    let mut events = events;
    let ghost original = events@;
    let n = events.len();
    let mut i: usize = 0;
    while i < n
        invariant
            n == original.len(),
            events@.len() == n,
            0 <= i <= n,
            forall|j: int| 0 <= j < i ==> #[trigger] events@[j]@ == with_source_type(original[j]@, key@),
            forall|j: int| i <= j < n ==> #[trigger] events@[j] == original[j],
        decreases n - i,
    {
        let mut e = LogEvent::new();
        events.set_and_swap(i, &mut e);
        e.try_insert(key, LogValue::Bytes(str_bytes("http")));
        events.set_and_swap(i, &mut e);
        i = i + 1;
    }
    events
}

/// The HTTP source as built from its configuration: how bodies are decoded and which
/// request details each event receives.
#[derive(Debug, Clone)]
pub struct SimpleHttpSource {
    pub encoding: Encoding,
    pub headers: Vec<String>,
    pub query_parameters: Vec<String>,
    pub path_key: String,
}

/// An event after everything the request tells is written to it: the configured headers,
/// then the configured query parameters, then the path, then the source type.
pub open spec fn enriched_event(
    e: Seq<(Seq<char>, ValueModel)>,
    source: SimpleHttpSource,
    headers: Seq<(String, Vec<u8>)>,
    query: Seq<(String, String)>,
    path: Seq<char>,
    schema: LogSchema,
) -> Seq<(Seq<char>, ValueModel)> {
    with_source_type(
        with_path(
            with_query_parameters(
                with_headers(e, source.headers@, headers),
                source.query_parameters@,
                query,
            ),
            source.path_key@,
            path,
        ),
        schema.source_type_key@,
    )
}

impl SimpleHttpSource {
    /// The events of a request: the body decoded under the source's encoding (a refusal
    /// is answered as it is), then every event receives the configured headers and query
    /// parameters, the request path and the source type.
    pub fn build_events(
        &self,
        body: &[u8],
        header_map: &Vec<(String, Vec<u8>)>,
        query_parameters: &Vec<(String, String)>,
        request_path: &str,
        schema: &LogSchema,
        now: Instant,
    ) -> (r: Result<Vec<LogEvent>, ErrorMessage>)
        ensures
            match body_result(body@, self.encoding, now, *schema) {
                Err(e) => r matches Err(m) && (m.code, m.message@) == e,
                Ok(events) => r matches Ok(out) && out@.len() == events.len() && (forall|i: int|
                    0 <= i < out@.len() ==> #[trigger] out@[i]@ == enriched_event(
                        events[i],
                        *self,
                        header_map@,
                        query_parameters@,
                        request_path@,
                        *schema,
                    )),
            },
    {
        match decode_body(body, self.encoding, now, schema) {
            Err(m) => Err(m),
            Ok(events) => {
                let ghost decoded = events@;
                proof {
                    assert forall|i: int| 0 <= i < decoded.len() implies decoded[i]@ == Seq::new(
                        decoded.len(),
                        |j: int| decoded[j]@,
                    )[i] by {}
                }
                let events = add_headers(events, &self.headers, header_map);
                let events = add_query_parameters(events, &self.query_parameters, query_parameters);
                let events = add_path(events, self.path_key.as_str(), request_path);
                let events = add_source_type(events, schema.source_type_key.as_str());
                Ok(events)
            },
        }
    }
}

/// Every configured name ends up set in the event: to the value given for its last
/// occurrence among the configured names, or null when no value is given (so a header or
/// query parameter the request lacks still appears, as null).
pub proof fn law_configured_fields_present(
    e: Seq<(Seq<char>, ValueModel)>,
    names: Seq<String>,
    vals: Seq<Option<Seq<u8>>>,
    j: int,
)
    requires
        0 <= j < names.len(),
        forall|l: int|
            j < l < names.len() ==> crate::event::paths_diverge(
                crate::event::split_dots(#[trigger] names[l]@),
                crate::event::split_dots(names[j]@),
            ),
    ensures
        field_at(with_fields(e, names, vals), names[j]@) == Some(bytes_or_null(vals[j])),
    decreases names.len(),
{
    let n = names.len();
    let prefix = names.drop_last();
    crate::event::lemma_split_dots_len(names[j]@);
    if j == n - 1 {
        crate::event::law_path_get_after_insert(
            with_fields(e, prefix, vals),
            crate::event::split_dots(names[j]@),
            bytes_or_null(vals[n - 1]),
        );
    } else {
        assert forall|l: int| j < l < prefix.len() implies crate::event::paths_diverge(
            crate::event::split_dots(#[trigger] prefix[l]@),
            crate::event::split_dots(prefix[j]@),
        ) by {
            assert(prefix[l] == names[l] && prefix[j] == names[j]);
        }
        law_configured_fields_present(e, prefix, vals, j);
        assert(prefix[j] == names[j]);
        crate::event::law_path_insert_frame(
            with_fields(e, prefix, vals),
            crate::event::split_dots(names[n - 1]@),
            crate::event::split_dots(names[j]@),
            bytes_or_null(vals[n - 1]),
        );
    }
}

/// Every event the source emits names its source: the field keeps a source type the
/// event already had, and is otherwise `http`.
pub proof fn law_events_name_their_source(
    e: Seq<(Seq<char>, ValueModel)>,
    source: SimpleHttpSource,
    headers: Seq<(String, Vec<u8>)>,
    query: Seq<(String, String)>,
    path: Seq<char>,
    schema: LogSchema,
)
    ensures
        ({
            let before = with_path(
                with_query_parameters(
                    with_headers(e, source.headers@, headers),
                    source.query_parameters@,
                    query,
                ),
                source.path_key@,
                path,
            );
            let after = enriched_event(e, source, headers, query, path, schema);
            &&& field_at(after, schema.source_type_key@) is Some
            &&& field_at(before, schema.source_type_key@) is Some ==> after == before
            &&& field_at(before, schema.source_type_key@) is None
                ==> field_at(after, schema.source_type_key@) == Some(
                ValueModel::Bytes(encode_utf8("http"@)),
            )
        }),
{
    let before = with_path(
        with_query_parameters(
            with_headers(e, source.headers@, headers),
            source.query_parameters@,
            query,
        ),
        source.path_key@,
        path,
    );
    crate::event::lemma_split_dots_len(schema.source_type_key@);
    crate::event::law_path_try_insert_keeps_existing(
        before,
        crate::event::split_dots(schema.source_type_key@),
        ValueModel::Bytes(encode_utf8("http"@)),
    );
}


/// The last path written wins: writing the path a second time leaves what a single write
/// of the second path leaves.
pub proof fn law_add_path_last_wins(
    e: Seq<(Seq<char>, ValueModel)>,
    key: Seq<char>,
    first: Seq<char>,
    second: Seq<char>,
)
    ensures
        with_path(with_path(e, key, first), key, second) == with_path(e, key, second),
{
    crate::event::law_path_insert_last_wins(
        e,
        crate::event::split_dots(key),
        ValueModel::Bytes(encode_utf8(first)),
        ValueModel::Bytes(encode_utf8(second)),
    );
}


/// Every entry of a JSON object is a field of its event, with its value: for each entry
/// that no later entry names again, reading its name gives its value (whatever its value,
/// null included, and even when it is named like the timestamp).
pub proof fn law_json_entries_kept(entries: Fields, now: Instant, schema: LogSchema, j: int)
    requires
        0 <= j < entries.len(),
        forall|l: int| j < l < entries.len() ==> #[trigger] entries[l].0 != entries[j].0,
    ensures
        crate::event::assoc_get(object_fields(entries, now, schema), entries[j].0) == Some(entries[j].1),
    decreases entries.len(),
{
    let n = entries.len();
    let prefix = entries.drop_last();
    if j == n - 1 {
        crate::event::law_get_after_insert(
            object_fields(prefix, now, schema),
            entries.last().0,
            entries.last().1,
            entries[j].0,
        );
    } else {
        assert forall|l: int| j < l < prefix.len() implies #[trigger] prefix[l].0 != prefix[j].0 by {
            assert(prefix[l] == entries[l] && prefix[j] == entries[j]);
        }
        law_json_entries_kept(prefix, now, schema, j);
        assert(prefix[j] == entries[j]);
        assert(entries[n - 1].0 != entries[j].0);
        crate::event::law_get_after_insert(
            object_fields(prefix, now, schema),
            entries.last().0,
            entries.last().1,
            entries[j].0,
        );
    }
}

/// Scanning past a newline: the lines before it are complete, and the scan goes on over
/// what follows as if from the start.
proof fn lemma_scan_after_newline(a: Seq<u8>, b: Seq<u8>)
    ensures
        scan_lines(a + seq![10u8] + b) == (body_lines(a) + scan_lines(b).0, scan_lines(b).1),
    decreases b.len(),
{
    let s = a + seq![10u8] + b;
    if b.len() == 0 {
        assert(s.drop_last() =~= a);
        assert(s.last() == 10u8);
        assert(scan_lines(b) == (Seq::<Seq<u8>>::empty(), Seq::<u8>::empty()));
        assert(body_lines(a) + Seq::<Seq<u8>>::empty() =~= body_lines(a));
    } else {
        assert(s.drop_last() =~= a + seq![10u8] + b.drop_last());
        assert(s.last() == b.last());
        lemma_scan_after_newline(a, b.drop_last());
        let p = scan_lines(b.drop_last());
        if b.last() == 10u8 {
            if p.1.len() > 0 {
                assert((body_lines(a) + p.0).push(p.1) =~= body_lines(a) + p.0.push(p.1));
            }
        }
    }
}

/// Lines break exactly at newlines: the lines of a body with a newline in it are the lines
/// before the newline followed by the lines after it.
pub proof fn law_lines_break_at_newlines(a: Seq<u8>, b: Seq<u8>)
    ensures
        body_lines(a + seq![10u8] + b) == body_lines(a) + body_lines(b),
{
    lemma_scan_after_newline(a, b);
    let st = scan_lines(b);
    if st.1.len() > 0 {
        assert((body_lines(a) + st.0).push(st.1) =~= body_lines(a) + st.0.push(st.1));
    }
}

proof fn lemma_scan_without_newline(a: Seq<u8>)
    requires
        !a.contains(10u8),
    ensures
        scan_lines(a) == (Seq::<Seq<u8>>::empty(), a),
    decreases a.len(),
{
    if a.len() == 0 {
        assert(a =~= Seq::<u8>::empty());
    } else {
        assert(!a.drop_last().contains(10u8)) by {
            if a.drop_last().contains(10u8) {
                let j = choose|j: int| 0 <= j < a.drop_last().len() && a.drop_last()[j] == 10u8;
                assert(a[j] == 10u8);
            }
        }
        assert(a.last() != 10u8) by {
            assert(a[a.len() - 1] == a.last());
        }
        lemma_scan_without_newline(a.drop_last());
        assert(a.drop_last().push(a.last()) =~= a);
    }
}

/// A non-empty body without a newline is a single line: itself.
pub proof fn law_line_without_newline(a: Seq<u8>)
    requires
        a.len() > 0,
        !a.contains(10u8),
    ensures
        body_lines(a) == seq![a],
{
    lemma_scan_without_newline(a);
    assert(Seq::<Seq<u8>>::empty().push(a) =~= seq![a]);
}
} // verus!
