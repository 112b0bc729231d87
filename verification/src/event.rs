//! Log events: an ordered set of named fields, each holding a `LogValue`.
use vstd::prelude::*;
use vstd::utf8::*;

verus! {

broadcast use vstd::utf8::group_utf8_lib;

/// An instant of UTC time: whole seconds since the Unix epoch and the nanoseconds past them.
#[derive(Debug, Clone, Copy, PartialEq, Eq, Structural)]
pub struct Instant {
    pub seconds: i64,
    pub nanos: u32,
}

/// A field value of a log event.
#[derive(Debug)]
pub enum LogValue {
    Null,
    Boolean(bool),
    Integer(i64),
    /// The IEEE-754 binary64 bit pattern of a floating point number, carried unchanged.
    Float(u64),
    Bytes(Vec<u8>),
    /// An instant of UTC time, to the nanosecond.
    Timestamp(Instant),
    Array(Vec<LogValue>),
    Object(Vec<(String, LogValue)>),
}

/// The mathematical model of a `LogValue`.
pub enum ValueModel {
    Null,
    Boolean(bool),
    Integer(int),
    Float(u64),
    Bytes(Seq<u8>),
    Timestamp(Instant),
    Array(Seq<ValueModel>),
    Object(Seq<(Seq<char>, ValueModel)>),
}

pub open spec fn value_model(v: LogValue) -> ValueModel
    decreases v, 1nat,
{
    match v {
        LogValue::Null => ValueModel::Null,
        LogValue::Boolean(b) => ValueModel::Boolean(b),
        LogValue::Integer(i) => ValueModel::Integer(i as int),
        LogValue::Float(bits) => ValueModel::Float(bits),
        LogValue::Bytes(b) => ValueModel::Bytes(b@),
        LogValue::Timestamp(t) => ValueModel::Timestamp(t),
        LogValue::Array(items) => ValueModel::Array(values_model(items@)),
        LogValue::Object(entries) => ValueModel::Object(entries_model(entries@)),
    }
}

pub open spec fn values_model(s: Seq<LogValue>) -> Seq<ValueModel>
    decreases s, 0nat,
{
    if s.len() == 0 {
        Seq::empty()
    } else {
        values_model(s.drop_last()).push(value_model(s.last()))
    }
}

pub open spec fn entries_model(s: Seq<(String, LogValue)>) -> Seq<(Seq<char>, ValueModel)>
    decreases s, 0nat,
{
    if s.len() == 0 {
        Seq::empty()
    } else {
        entries_model(s.drop_last()).push((s.last().0@, value_model(s.last().1)))
    }
}

pub proof fn lemma_entries_model(s: Seq<(String, LogValue)>)
    ensures
        entries_model(s).len() == s.len(),
        forall|i: int|
            0 <= i < s.len() ==> #[trigger] entries_model(s)[i] == (s[i].0@, value_model(s[i].1)),
    decreases s.len(),
{
    if s.len() > 0 {
        lemma_entries_model(s.drop_last());
    }
}

pub proof fn lemma_values_model(s: Seq<LogValue>)
    ensures
        values_model(s).len() == s.len(),
        forall|i: int| 0 <= i < s.len() ==> #[trigger] values_model(s)[i] == value_model(s[i]),
    decreases s.len(),
{
    if s.len() > 0 {
        lemma_values_model(s.drop_last());
    }
}

pub proof fn lemma_entries_model_update(s: Seq<(String, LogValue)>, i: int, e: (String, LogValue))
    requires
        0 <= i < s.len(),
    ensures
        entries_model(s.update(i, e)) == entries_model(s).update(i, (e.0@, value_model(e.1))),
{
    lemma_entries_model(s);
    lemma_entries_model(s.update(i, e));
    assert(entries_model(s.update(i, e)) =~= entries_model(s).update(i, (e.0@, value_model(e.1))));
}

pub proof fn lemma_entries_model_insert(s: Seq<(String, LogValue)>, i: int, e: (String, LogValue))
    requires
        0 <= i <= s.len(),
    ensures
        entries_model(s.insert(i, e)) == entries_model(s).insert(i, (e.0@, value_model(e.1))),
{
    lemma_entries_model(s);
    lemma_entries_model(s.insert(i, e));
    s.insert_ensures(i, e);
    entries_model(s).insert_ensures(i, (e.0@, value_model(e.1)));
    assert(entries_model(s.insert(i, e)) =~= entries_model(s).insert(i, (e.0@, value_model(e.1))));
}

/// Position of the first entry named `k`, or -1 when there is none.
pub open spec fn key_position<V>(s: Seq<(Seq<char>, V)>, k: Seq<char>) -> int
    decreases s.len(),
{
    if s.len() == 0 {
        -1
    } else {
        let p = key_position(s.drop_last(), k);
        if p >= 0 {
            p
        } else if s.last().0 == k {
            s.len() - 1
        } else {
            -1
        }
    }
}

pub proof fn lemma_key_position<V>(s: Seq<(Seq<char>, V)>, k: Seq<char>)
    ensures
        -1 <= key_position(s, k) < s.len(),
        key_position(s, k) == -1 <==> (forall|i: int| 0 <= i < s.len() ==> s[i].0 != k),
        key_position(s, k) >= 0 ==> s[key_position(s, k)].0 == k,
        forall|i: int| 0 <= i < key_position(s, k) ==> s[i].0 != k,
    decreases s.len(),
{
    if s.len() > 0 {
        lemma_key_position(s.drop_last(), k);
        assert forall|i: int| 0 <= i < s.len() - 1 implies s.drop_last()[i] == s[i] by {}
    }
}

/// Byte strings in lexicographic order: `a` comes strictly before `b`.
pub open spec fn bytes_lt(a: Seq<u8>, b: Seq<u8>) -> bool
    decreases a.len(),
{
    if b.len() == 0 {
        false
    } else if a.len() == 0 {
        true
    } else if a[0] != b[0] {
        a[0] < b[0]
    } else {
        bytes_lt(a.drop_first(), b.drop_first())
    }
}

/// Field names in the order of their UTF-8 bytes, the order of `str`.
pub open spec fn key_lt(a: Seq<char>, b: Seq<char>) -> bool {
    bytes_lt(encode_utf8(a), encode_utf8(b))
}

proof fn lemma_bytes_lt_irreflexive(a: Seq<u8>)
    ensures
        !bytes_lt(a, a),
    decreases a.len(),
{
    if a.len() > 0 {
        lemma_bytes_lt_irreflexive(a.drop_first());
    }
}

proof fn lemma_bytes_lt_transitive(a: Seq<u8>, b: Seq<u8>, c: Seq<u8>)
    requires
        bytes_lt(a, b),
        bytes_lt(b, c),
    ensures
        bytes_lt(a, c),
    decreases a.len(),
{
    if a.len() > 0 && b.len() > 0 && c.len() > 0 && a[0] == b[0] && b[0] == c[0] {
        lemma_bytes_lt_transitive(a.drop_first(), b.drop_first(), c.drop_first());
    }
}

proof fn lemma_bytes_lt_total(a: Seq<u8>, b: Seq<u8>)
    requires
        a != b,
    ensures
        bytes_lt(a, b) || bytes_lt(b, a),
    decreases a.len(),
{
    if a.len() == 0 && b.len() == 0 {
        assert(a =~= b);
    }
    if a.len() > 0 && b.len() > 0 && a[0] == b[0] {
        if a.drop_first() =~= b.drop_first() {
            assert(a.len() == b.len());
            assert forall|i: int| 0 <= i < a.len() implies a[i] == b[i] by {
                if i > 0 {
                    assert(a[i] == a.drop_first()[i - 1]);
                    assert(b[i] == b.drop_first()[i - 1]);
                }
            }
            assert(a =~= b);
        }
        lemma_bytes_lt_total(a.drop_first(), b.drop_first());
    }
}

/// `key_lt` is a strict total order.
pub proof fn lemma_key_lt_order(a: Seq<char>, b: Seq<char>, c: Seq<char>)
    ensures
        !key_lt(a, a),
        key_lt(a, b) && key_lt(b, c) ==> key_lt(a, c),
        a != b ==> key_lt(a, b) || key_lt(b, a),
{
    lemma_bytes_lt_irreflexive(encode_utf8(a));
    if key_lt(a, b) && key_lt(b, c) {
        lemma_bytes_lt_transitive(encode_utf8(a), encode_utf8(b), encode_utf8(c));
    }
    if a != b {
        assert(decode_utf8(encode_utf8(a)) == a);
        assert(decode_utf8(encode_utf8(b)) == b);
        lemma_bytes_lt_total(encode_utf8(a), encode_utf8(b));
    }
}

/// The names strictly increase along the entries (so no two entries share a name).
pub open spec fn keys_sorted<V>(s: Seq<(Seq<char>, V)>) -> bool {
    forall|i: int, j: int| #![trigger s[i], s[j]] 0 <= i < j < s.len() ==> key_lt(s[i].0, s[j].0)
}

/// Position of the first entry whose name does not come before `k`; the length when
/// every name comes before it.
pub open spec fn lower_bound<V>(s: Seq<(Seq<char>, V)>, k: Seq<char>) -> int
    decreases s.len(),
{
    if s.len() == 0 {
        0
    } else {
        let p = lower_bound(s.drop_last(), k);
        if p < s.len() - 1 {
            p
        } else if key_lt(s.last().0, k) {
            s.len() as int
        } else {
            s.len() - 1
        }
    }
}

pub proof fn lemma_lower_bound<V>(s: Seq<(Seq<char>, V)>, k: Seq<char>)
    ensures
        0 <= lower_bound(s, k) <= s.len(),
        forall|j: int| #![trigger s[j]] 0 <= j < lower_bound(s, k) ==> key_lt(s[j].0, k),
        lower_bound(s, k) < s.len() ==> !key_lt(s[lower_bound(s, k)].0, k),
    decreases s.len(),
{
    if s.len() > 0 {
        lemma_lower_bound(s.drop_last(), k);
        assert forall|j: int| 0 <= j < s.len() - 1 implies s.drop_last()[j] == s[j] by {}
    }
}

/// Sets the entry named `k` to `v`, keeping the entries in name order: the entry with that
/// name is replaced, or a new one goes in before the first name that comes after `k`.
pub open spec fn assoc_insert<V>(s: Seq<(Seq<char>, V)>, k: Seq<char>, v: V) -> Seq<(Seq<char>, V)> {
    let p = lower_bound(s, k);
    if p < s.len() && s[p].0 == k {
        s.update(p, (k, v))
    } else {
        s.insert(p, (k, v))
    }
}

/// The value of the first entry named `k`.
pub open spec fn assoc_get<V>(s: Seq<(Seq<char>, V)>, k: Seq<char>) -> Option<V> {
    let p = key_position(s, k);
    if p >= 0 {
        Some(s[p].1)
    } else {
        None
    }
}

/// No two entries share a name.
pub open spec fn keys_unique<V>(s: Seq<(Seq<char>, V)>) -> bool {
    forall|i: int, j: int| 0 <= i < j < s.len() ==> s[i].0 != s[j].0
}

/// The UTF-8 bytes of a string.
pub fn str_bytes(s: &str) -> (r: Vec<u8>)
    ensures
        r@ == encode_utf8(s@),
{
    vstd::slice::slice_to_vec(s.as_bytes())
}

/// Byte-wise equality of two byte slices.
pub fn bytes_eq(a: &[u8], b: &[u8]) -> (r: bool)
    ensures
        r == (a@ == b@),
{
    if a.len() != b.len() {
        return false;
    }
    let n = a.len();
    let mut i: usize = 0;
    while i < n
        invariant
            n == a@.len(),
            n == b@.len(),
            0 <= i <= n,
            forall|j: int| 0 <= j < i ==> a@[j] == b@[j],
        decreases n - i,
    {
        if a[i] != b[i] {
            return false;
        }
        i = i + 1;
    }
    assert(a@ =~= b@);
    true
}

/// Equality of two strings.
pub fn str_eq(a: &str, b: &str) -> (r: bool)
    ensures
        r == (a@ == b@),
{
    let r = bytes_eq(a.as_bytes(), b.as_bytes());
    proof {
        if r {
            encode_utf8_decode_utf8(a@);
            encode_utf8_decode_utf8(b@);
        }
    }
    r
}

/// Whether `a` comes strictly before `b` in lexicographic byte order.
pub fn bytes_before(a: &[u8], b: &[u8]) -> (r: bool)
    ensures
        r == bytes_lt(a@, b@),
{
    let n = a.len();
    let m = b.len();
    let mut i: usize = 0;
    proof {
        assert(a@.skip(0) =~= a@);
        assert(b@.skip(0) =~= b@);
    }
    while i < n && i < m && a[i] == b[i]
        invariant
            n == a@.len(),
            m == b@.len(),
            0 <= i <= n,
            i <= m,
            bytes_lt(a@, b@) == bytes_lt(a@.skip(i as int), b@.skip(i as int)),
        decreases n - i,
    {
        proof {
            assert(a@.skip(i as int).drop_first() =~= a@.skip(i + 1));
            assert(b@.skip(i as int).drop_first() =~= b@.skip(i + 1));
        }
        i = i + 1;
    }
    if i == m {
        false
    } else if i == n {
        true
    } else {
        a[i] < b[i]
    }
}

/// Whether the name `a` comes strictly before the name `b`.
pub fn str_before(a: &str, b: &str) -> (r: bool)
    ensures
        r == key_lt(a@, b@),
{
    bytes_before(a.as_bytes(), b.as_bytes())
}

/// The fields without any named `k`, the others in their order.
pub open spec fn without_all<V>(s: Seq<(Seq<char>, V)>, k: Seq<char>) -> Seq<(Seq<char>, V)>
    decreases s.len(),
{
    if s.len() == 0 {
        s
    } else if s.last().0 == k {
        without_all(s.drop_last(), k)
    } else {
        without_all(s.drop_last(), k).push(s.last())
    }
}

/// The segments of a field path: the name split at each `.` (empty segments included).
pub open spec fn split_dots(k: Seq<char>) -> Seq<Seq<char>>
    decreases k.len(),
{
    if k.len() == 0 {
        seq![Seq::empty()]
    } else {
        let prev = split_dots(k.drop_last());
        if k.last() == '.' {
            prev.push(Seq::empty())
        } else {
            prev.update(prev.len() - 1, prev.last().push(k.last()))
        }
    }
}

pub proof fn lemma_split_dots_len(k: Seq<char>)
    ensures
        split_dots(k).len() >= 1,
    decreases k.len(),
{
    if k.len() > 0 {
        lemma_split_dots_len(k.drop_last());
    }
}

/// The contents of the object held by the first field named `k`; empty when that field
/// is missing or holds no object.
pub open spec fn child_fields(s: Seq<(Seq<char>, ValueModel)>, k: Seq<char>) -> Seq<
    (Seq<char>, ValueModel),
> {
    match assoc_get(s, k) {
        Some(ValueModel::Object(e)) => e,
        _ => Seq::empty(),
    }
}

/// The value at a path: each segment but the last names a field holding an object.
pub open spec fn path_get(s: Seq<(Seq<char>, ValueModel)>, path: Seq<Seq<char>>) -> Option<
    ValueModel,
>
    decreases path.len(),
{
    if path.len() == 0 {
        None
    } else if path.len() == 1 {
        assoc_get(s, path[0])
    } else {
        match assoc_get(s, path[0]) {
            Some(ValueModel::Object(e)) => path_get(e, path.drop_first()),
            _ => None,
        }
    }
}

/// Sets the value at a path: the last segment is set in the innermost object; every
/// segment before it names an object, created (or replacing a value that is no object)
/// when needed, and left as the only field of its name at its level.
pub open spec fn path_insert(s: Seq<(Seq<char>, ValueModel)>, path: Seq<Seq<char>>, v: ValueModel) -> Seq<
    (Seq<char>, ValueModel),
>
    decreases path.len(),
{
    if path.len() == 0 {
        s
    } else if path.len() == 1 {
        assoc_insert(s, path[0], v)
    } else {
        assoc_insert(
            without_all(s, path[0]),
            path[0],
            ValueModel::Object(path_insert(child_fields(s, path[0]), path.drop_first(), v)),
        )
    }
}

/// Sets the value at a path only when nothing is there yet.
pub open spec fn path_try_insert(
    s: Seq<(Seq<char>, ValueModel)>,
    path: Seq<Seq<char>>,
    v: ValueModel,
) -> Seq<(Seq<char>, ValueModel)> {
    if path_get(s, path) is Some {
        s
    } else {
        path_insert(s, path, v)
    }
}

/// Sets the field named by the path `key` (`a.b` is the field `b` of the object in `a`).
pub open spec fn set_field(s: Seq<(Seq<char>, ValueModel)>, key: Seq<char>, v: ValueModel) -> Seq<
    (Seq<char>, ValueModel),
> {
    path_insert(s, split_dots(key), v)
}

/// Sets the field named by the path `key` only when it holds no value yet.
pub open spec fn set_field_if_absent(s: Seq<(Seq<char>, ValueModel)>, key: Seq<char>, v: ValueModel) -> Seq<
    (Seq<char>, ValueModel),
> {
    path_try_insert(s, split_dots(key), v)
}

/// The value of the field named by the path `key`.
pub open spec fn field_at(s: Seq<(Seq<char>, ValueModel)>, key: Seq<char>) -> Option<ValueModel> {
    path_get(s, split_dots(key))
}

/// A name without a dot is a path of one segment: itself.
pub proof fn lemma_split_dots_plain(k: Seq<char>)
    requires
        !k.contains('.'),
    ensures
        split_dots(k) == seq![k],
    decreases k.len(),
{
    if k.len() == 0 {
        assert(k =~= Seq::<char>::empty());
        assert(split_dots(k) =~= seq![k]);
    } else {
        assert(!k.drop_last().contains('.')) by {
            if k.drop_last().contains('.') {
                let j = choose|j: int| 0 <= j < k.drop_last().len() && k.drop_last()[j] == '.';
                assert(k[j] == '.');
            }
        }
        lemma_split_dots_plain(k.drop_last());
        assert(k.last() != '.') by {
            assert(k[k.len() - 1] == k.last());
        }
        assert(k.drop_last().push(k.last()) =~= k);
        assert(split_dots(k) =~= seq![k]);
    }
}

/// Two paths lead to places neither of which holds the other: they differ in some
/// segment before either ends.
pub open spec fn paths_diverge(p: Seq<Seq<char>>, q: Seq<Seq<char>>) -> bool
    decreases p.len(),
{
    p.len() > 0 && q.len() > 0 && (p[0] != q[0] || paths_diverge(p.drop_first(), q.drop_first()))
}

/// The views of a sequence of strings.
pub open spec fn strs(v: Seq<String>) -> Seq<Seq<char>> {
    Seq::new(v.len(), |i: int| v[i]@)
}

/// Splits a field name into its path segments.
pub fn path_segments(key: &str) -> (r: Vec<String>)
    ensures
        strs(r@) == split_dots(key@),
{
    let n = key.unicode_len();
    let mut segs: Vec<String> = Vec::new();
    let mut start: usize = 0;
    let mut i: usize = 0;
    proof {
        assert(key@.take(0) =~= Seq::<char>::empty());
        assert(strs(segs@).push(key@.subrange(0, 0)) =~= seq![Seq::<char>::empty()]);
    }
    while i < n
        invariant
            n == key@.len(),
            0 <= start <= i <= n,
            split_dots(key@.take(i as int)) == strs(segs@).push(key@.subrange(start as int, i as int)),
        decreases n - i,
    {
        let c = key.get_char(i);
        proof {
            assert(key@.take(i + 1).drop_last() =~= key@.take(i as int));
            assert(key@.take(i + 1).last() == c);
        }
        if c == '.' {
            let ghost before = segs@;
            segs.push(String::from_str(key.substring_char(start, i)));
            proof {
                assert(strs(segs@) =~= strs(before).push(key@.subrange(start as int, i as int)));
                assert(key@.subrange(i + 1, i + 1) =~= Seq::<char>::empty());
            }
            start = i + 1;
        } else {
            proof {
                let prev = strs(segs@).push(key@.subrange(start as int, i as int));
                assert(key@.subrange(start as int, i as int).push(c) =~= key@.subrange(
                    start as int,
                    i + 1,
                ));
                assert(prev.update(prev.len() - 1, prev.last().push(c)) =~= strs(segs@).push(
                    key@.subrange(start as int, i + 1),
                ));
            }
        }
        i = i + 1;
    }
    let ghost before = segs@;
    segs.push(String::from_str(key.substring_char(start, n)));
    proof {
        assert(key@.take(n as int) =~= key@);
        assert(strs(segs@) =~= strs(before).push(key@.subrange(start as int, n as int)));
    }
    segs
}

/// Position of the first field named `key`.
fn fields_find(fields: &Vec<(String, LogValue)>, key: &str) -> (r: Option<usize>)
    ensures
        r matches Some(i) ==> i < fields@.len(),
        key_position(entries_model(fields@), key@) == (match r {
            Some(i) => i as int,
            None => -1,
        }),
{
    let ghost m = entries_model(fields@);
    proof {
        lemma_entries_model(fields@);
        lemma_key_position(m, key@);
    }
    let n = fields.len();
    let mut i: usize = 0;
    while i < n
        invariant
            n == fields@.len(),
            m == entries_model(fields@),
            m.len() == n,
            0 <= i <= n,
            forall|j: int| 0 <= j < i ==> m[j].0 != key@,
            forall|j: int|
                0 <= j < n ==> #[trigger] m[j] == (fields@[j].0@, value_model(fields@[j].1)),
            key_position(m, key@) == -1 <==> (forall|j: int| 0 <= j < m.len() ==> m[j].0 != key@),
            key_position(m, key@) >= 0 ==> m[key_position(m, key@)].0 == key@,
            forall|j: int| 0 <= j < key_position(m, key@) ==> m[j].0 != key@,
            -1 <= key_position(m, key@) < n,
        decreases n - i,
    {
        if str_eq(fields[i].0.as_str(), key) {
            assert(m[i as int].0 == key@);
            return Some(i);
        }
        i = i + 1;
    }
    None
}

/// Sets the field named `key` among `fields`, keeping them in name order when they are.
fn fields_insert(fields: &mut Vec<(String, LogValue)>, key: &str, value: LogValue)
    ensures
        entries_model(final(fields)@) == assoc_insert(entries_model(old(fields)@), key@, value_model(value)),
{
    let ghost before = entries_model(fields@);
    proof {
        lemma_entries_model(fields@);
        lemma_lower_bound(before, key@);
    }
    let n = fields.len();
    let mut i: usize = 0;
    while i < n && str_before(fields[i].0.as_str(), key)
        invariant
            n == fields@.len(),
            before == entries_model(fields@),
            before.len() == n,
            0 <= i <= n,
            forall|j: int| 0 <= j < n ==> #[trigger] before[j] == (
                fields@[j].0@,
                value_model(fields@[j].1),
            ),
            forall|j: int| 0 <= j < i ==> key_lt(#[trigger] before[j].0, key@),
            0 <= lower_bound(before, key@) <= n,
            forall|j: int| #![trigger before[j]] 0 <= j < lower_bound(before, key@) ==> key_lt(before[j].0, key@),
            lower_bound(before, key@) < n ==> !key_lt(before[lower_bound(before, key@)].0, key@),
        decreases n - i,
    {
        i = i + 1;
    }
    proof {
        if i < lower_bound(before, key@) {
            assert(key_lt(before[i as int].0, key@));
        }
        if lower_bound(before, key@) < i {
            assert(key_lt(before[lower_bound(before, key@)].0, key@));
        }
        assert(i == lower_bound(before, key@));
    }
    let entry = (key.to_owned(), value);
    if i < n && str_eq(fields[i].0.as_str(), key) {
        proof {
            lemma_entries_model_update(fields@, i as int, entry);
        }
        fields.set(i, entry);
    } else {
        proof {
            lemma_entries_model_insert(fields@, i as int, entry);
        }
        fields.insert(i, entry);
    }
}

/// Takes every field named `key` out of `fields`, handing back the others in their order
/// and the value of the first one taken.
fn take_key(fields: Vec<(String, LogValue)>, key: &str) -> (r: (Vec<(String, LogValue)>, Option<LogValue>))
    ensures
        entries_model(r.0@) == without_all(entries_model(fields@), key@),
        match r.1 {
            Some(v) => assoc_get(entries_model(fields@), key@) == Some(value_model(v)),
            None => assoc_get(entries_model(fields@), key@) is None,
        },
{
    let ghost model = entries_model(fields@);
    proof {
        lemma_entries_model(fields@);
        assert(model.take(0) =~= Seq::<(Seq<char>, ValueModel)>::empty());
        lemma_key_position(model.take(0), key@);
    }
    let mut fields = fields;
    let ghost original = fields@;
    let mut rest: Vec<(String, LogValue)> = Vec::new();
    let mut found: Option<LogValue> = None;
    let n = fields.len();
    let mut i: usize = 0;
    while i < n
        invariant
            n == original.len(),
            model == entries_model(original),
            model.len() == n,
            forall|j: int| 0 <= j < n ==> #[trigger] model[j] == (
                original[j].0@,
                value_model(original[j].1),
            ),
            fields@.len() == n,
            0 <= i <= n,
            forall|j: int| i <= j < n ==> #[trigger] fields@[j] == original[j],
            entries_model(rest@) == without_all(model.take(i as int), key@),
            match found {
                Some(v) => assoc_get(model.take(i as int), key@) == Some(value_model(v)),
                None => assoc_get(model.take(i as int), key@) is None,
            },
        decreases n - i,
    {
        let mut slot: (String, LogValue) = (String::new(), LogValue::Null);
        fields.set_and_swap(i, &mut slot);
        proof {
            assert(model.take(i + 1).drop_last() =~= model.take(i as int));
            assert(model.take(i + 1).last() == model[i as int]);
            lemma_assoc_get_last(model.take(i + 1), key@);
        }
        if str_eq(slot.0.as_str(), key) {
            match found {
                Some(_) => {},
                None => {
                    found = Some(slot.1);
                },
            }
        } else {
            proof {
                lemma_entries_model_push(rest@, slot);
            }
            rest.push(slot);
        }
        i = i + 1;
    }
    proof {
        assert(model.take(n as int) =~= model);
    }
    (rest, found)
}

pub proof fn lemma_entries_model_push(s: Seq<(String, LogValue)>, e: (String, LogValue))
    ensures
        entries_model(s.push(e)) == entries_model(s).push((e.0@, value_model(e.1))),
{
    assert(s.push(e).drop_last() =~= s);
}

/// Sets the value at the path `segs[i..]` among `fields`.
fn fields_insert_path(fields: &mut Vec<(String, LogValue)>, segs: &Vec<String>, i: usize, value: LogValue)
    requires
        i < segs@.len(),
    ensures
        entries_model(final(fields)@) == path_insert(
            entries_model(old(fields)@),
            strs(segs@).skip(i as int),
            value_model(value),
        ),
    decreases segs@.len() - i,
{
    let ghost path = strs(segs@).skip(i as int);
    let ghost s = entries_model(fields@);
    proof {
        assert(path[0] == segs@[i as int]@);
    }
    if i == segs.len() - 1 {
        fields_insert(fields, segs[i].as_str(), value);
    } else {
        proof {
            assert(path.drop_first() =~= strs(segs@).skip(i + 1));
            lemma_entries_model(fields@);
        }
        let mut taken: Vec<(String, LogValue)> = Vec::new();
        std::mem::swap(&mut taken, fields);
        let (rest, found) = take_key(taken, segs[i].as_str());
        let mut inner: Vec<(String, LogValue)> = match found {
            Some(LogValue::Object(e)) => e,
            _ => Vec::new(),
        };
        proof {
            assert(entries_model(inner@) == child_fields(s, path[0]));
        }
        *fields = rest;
        fields_insert_path(&mut inner, segs, i + 1, value);
        fields_insert(fields, segs[i].as_str(), LogValue::Object(inner));
    }
}

/// The value at the path `segs[i..]` among `fields`.
fn fields_get<'a>(fields: &'a Vec<(String, LogValue)>, segs: &Vec<String>, i: usize) -> (r: Option<
    &'a LogValue,
>)
    requires
        i < segs@.len(),
    ensures
        match r {
            Some(v) => path_get(entries_model(fields@), strs(segs@).skip(i as int)) == Some(
                value_model(*v),
            ),
            None => path_get(entries_model(fields@), strs(segs@).skip(i as int)) is None,
        },
    decreases segs@.len() - i,
{
    let ghost path = strs(segs@).skip(i as int);
    proof {
        assert(path[0] == segs@[i as int]@);
        lemma_entries_model(fields@);
    }
    match fields_find(fields, segs[i].as_str()) {
        None => None,
        Some(p) => {
            if i == segs.len() - 1 {
                Some(&fields[p].1)
            } else {
                proof {
                    assert(path.drop_first() =~= strs(segs@).skip(i + 1));
                }
                match &fields[p].1 {
                    LogValue::Object(e) => fields_get(e, segs, i + 1),
                    _ => None,
                }
            }
        },
    }
}

/// A log event: named fields kept in name order, as in a sorted map. A field name is read
/// as a path: `a.b` names the field `b` of the object held by the field `a`.
#[derive(Debug)]
pub struct LogEvent {
    fields: Vec<(String, LogValue)>,
}

impl View for LogEvent {
    type V = Seq<(Seq<char>, ValueModel)>;

    closed spec fn view(&self) -> Seq<(Seq<char>, ValueModel)> {
        entries_model(self.fields@)
    }
}

impl LogEvent {
    /// The fields are kept in name order.
    #[verifier::type_invariant]
    spec fn fields_in_order(self) -> bool {
        keys_sorted(entries_model(self.fields@))
    }

    /// An event with no fields.
    pub fn new() -> (r: LogEvent)
        ensures
            r@ == Seq::<(Seq<char>, ValueModel)>::empty(),
    {
        LogEvent { fields: Vec::new() }
    }

    /// The value of the top-level field named exactly `key` (dots included).
    pub fn get_flat(&self, key: &str) -> (r: Option<&LogValue>)
        ensures
            match r {
                Some(v) => assoc_get(self@, key@) == Some(value_model(*v)),
                None => assoc_get(self@, key@) is None,
            },
    {
        proof {
            lemma_entries_model(self.fields@);
        }
        match fields_find(&self.fields, key) {
            Some(i) => Some(&self.fields[i].1),
            None => None,
        }
    }

    /// The value at the path `key`.
    pub fn get(&self, key: &str) -> (r: Option<&LogValue>)
        ensures
            match r {
                Some(v) => field_at(self@, key@) == Some(value_model(*v)),
                None => field_at(self@, key@) is None,
            },
    {
        let segs = path_segments(key);
        proof {
            lemma_split_dots_len(key@);
            assert(strs(segs@).skip(0) =~= strs(segs@));
        }
        fields_get(&self.fields, &segs, 0)
    }

    /// Whether a value is present at the path `key`.
    pub fn contains(&self, key: &str) -> (r: bool)
        ensures
            r == (field_at(self@, key@) is Some),
    {
        self.get(key).is_some()
    }

    /// Sets the top-level field named exactly `key` (dots included) to `value`.
    pub fn insert_flat(&mut self, key: &str, value: LogValue)
        ensures
            final(self)@ == assoc_insert(old(self)@, key@, value_model(value)),
    {
        proof {
            use_type_invariant(&*self);
            law_insert_keeps_keys_sorted(self@, key@, value_model(value));
        }
        let mut fields: Vec<(String, LogValue)> = Vec::new();
        std::mem::swap(&mut fields, &mut self.fields);
        fields_insert(&mut fields, key, value);
        self.fields = fields;
    }

    /// Sets the value at the path `key`, replacing any value it held.
    pub fn insert(&mut self, key: &str, value: LogValue)
        ensures
            final(self)@ == set_field(old(self)@, key@, value_model(value)),
    {
        let segs = path_segments(key);
        proof {
            use_type_invariant(&*self);
            lemma_split_dots_len(key@);
            assert(strs(segs@).skip(0) =~= strs(segs@));
            law_path_insert_keeps_keys_sorted(self@, split_dots(key@), value_model(value));
        }
        let mut fields: Vec<(String, LogValue)> = Vec::new();
        std::mem::swap(&mut fields, &mut self.fields);
        fields_insert_path(&mut fields, &segs, 0, value);
        self.fields = fields;
    }

    /// Sets the value at the path `key` only when no value is there.
    pub fn try_insert(&mut self, key: &str, value: LogValue)
        ensures
            final(self)@ == set_field_if_absent(old(self)@, key@, value_model(value)),
    {
        if !self.contains(key) {
            self.insert(key, value);
        }
    }
}

impl LogEvent {
    /// The fields of the event, in name order.
    pub fn entries(&self) -> (r: &Vec<(String, LogValue)>)
        ensures
            entries_model(r@) == self@,
            keys_sorted(self@),
    {
        proof {
            use_type_invariant(self);
        }
        &self.fields
    }

    /// Turns the event into its fields, in name order.
    pub fn into_entries(self) -> (r: Vec<(String, LogValue)>)
        ensures
            entries_model(r@) == self@,
            keys_sorted(self@),
    {
        proof {
            use_type_invariant(&self);
        }
        self.fields
    }
}

/// An event flowing through the pipeline.
#[derive(Debug)]
pub enum Event {
    Log(LogEvent),
}

impl Event {
    /// The log event this event carries.
    pub fn as_log(&self) -> (r: &LogEvent)
        ensures
            *self == Event::Log(*r),
    {
        match self {
            Event::Log(log) => log,
        }
    }

    /// Turns the event into the log event it carries.
    pub fn into_log(self) -> (r: LogEvent)
        ensures
            self == Event::Log(r),
    {
        match self {
            Event::Log(log) => log,
        }
    }
}

/// The names of the fields that every source fills in.
#[derive(Debug, Clone)]
pub struct LogSchema {
    pub message_key: String,
    pub timestamp_key: String,
    pub host_key: String,
    pub source_type_key: String,
}

impl LogSchema {
    /// The standard field names: `message`, `timestamp`, `host` and `source_type`.
    pub fn standard() -> (r: LogSchema)
        ensures
            r.message_key@ == "message"@,
            r.timestamp_key@ == "timestamp"@,
            r.host_key@ == "host"@,
            r.source_type_key@ == "source_type"@,
    {
        LogSchema {
            message_key: String::from_str("message"),
            timestamp_key: String::from_str("timestamp"),
            host_key: String::from_str("host"),
            source_type_key: String::from_str("source_type"),
        }
    }
}

/// `t`'s first entry named `k` is at `c`.
proof fn lemma_first_at<V>(t: Seq<(Seq<char>, V)>, k: Seq<char>, c: int)
    requires
        0 <= c < t.len(),
        t[c].0 == k,
        forall|j: int| 0 <= j < c ==> t[j].0 != k,
    ensures
        key_position(t, k) == c,
{
    lemma_key_position(t, k);
    let q = key_position(t, k);
    if q < c {
        assert(t[q].0 != k);
    }
    if q > c {
        assert(t[c].0 != k);
    }
}

/// Reading a field gives what was last written to it, and writing one field leaves every
/// other field as it was.
pub proof fn law_get_after_insert<V>(s: Seq<(Seq<char>, V)>, k: Seq<char>, v: V, other: Seq<char>)
    ensures
        assoc_get(assoc_insert(s, k, v), k) == Some(v),
        other != k ==> assoc_get(assoc_insert(s, k, v), other) == assoc_get(s, other),
{
    lemma_lower_bound(s, k);
    lemma_key_lt_order(k, k, k);
    lemma_key_position(s, other);
    let p = lower_bound(s, k);
    let t = assoc_insert(s, k, v);
    let replaced = p < s.len() && s[p].0 == k;
    if !replaced {
        s.insert_ensures(p, (k, v));
    }
    assert forall|j: int| 0 <= j < p implies t[j].0 != k by {
        assert(t[j] == s[j]);
        assert(key_lt(s[j].0, k));
    }
    lemma_first_at(t, k, p);
    if other != k {
        lemma_key_position(t, other);
        let q = key_position(s, other);
        if q >= 0 {
            let c = if replaced || q < p { q } else { q + 1 };
            assert(t[c] == s[q]);
            assert forall|j: int| 0 <= j < c implies t[j].0 != other by {
                if j == p {
                } else if replaced || j < p {
                    assert(t[j] == s[j]);
                } else {
                    assert(t[j] == s[j - 1]);
                }
            }
            lemma_first_at(t, other, c);
        } else {
            assert forall|j: int| 0 <= j < t.len() implies t[j].0 != other by {
                if j == p {
                } else if replaced || j < p {
                    assert(t[j] == s[j]);
                } else {
                    assert(t[j] == s[j - 1]);
                }
            }
        }
    }
}

/// Fields in name order have distinct names.
pub proof fn lemma_sorted_keys_unique<V>(s: Seq<(Seq<char>, V)>)
    requires
        keys_sorted(s),
    ensures
        keys_unique(s),
{
    assert forall|i: int, j: int| 0 <= i < j < s.len() implies s[i].0 != s[j].0 by {
        assert(key_lt(s[i].0, s[j].0));
        lemma_key_lt_order(s[i].0, s[i].0, s[i].0);
    }
}

/// Writing fields keeps them in name order, so no two fields ever share a name.
pub proof fn law_insert_keeps_keys_sorted<V>(s: Seq<(Seq<char>, V)>, k: Seq<char>, v: V)
    requires
        keys_sorted(s),
    ensures
        keys_sorted(assoc_insert(s, k, v)),
        keys_unique(assoc_insert(s, k, v)),
{
    lemma_lower_bound(s, k);
    let p = lower_bound(s, k);
    let t = assoc_insert(s, k, v);
    if p < s.len() && s[p].0 == k {
        assert forall|i: int, j: int| #![trigger t[i], t[j]] 0 <= i < j < t.len() implies key_lt(
            t[i].0,
            t[j].0,
        ) by {
            assert(t[i].0 == s[i].0 && t[j].0 == s[j].0);
            assert(key_lt(s[i].0, s[j].0));
        }
    } else {
        s.insert_ensures(p, (k, v));
        if p < s.len() {
            lemma_key_lt_order(s[p].0, k, k);
        }
        assert forall|i: int, j: int| #![trigger t[i], t[j]] 0 <= i < j < t.len() implies key_lt(
            t[i].0,
            t[j].0,
        ) by {
            if j < p {
                assert(t[i] == s[i] && t[j] == s[j]);
                assert(key_lt(s[i].0, s[j].0));
            } else if j == p {
                assert(t[i] == s[i]);
                assert(key_lt(s[i].0, k));
            } else if i < p {
                assert(t[i] == s[i] && t[j] == s[j - 1]);
                assert(key_lt(s[i].0, s[j - 1].0));
            } else if i == p {
                assert(t[j] == s[j - 1]);
                assert(key_lt(k, s[p].0));
                if j - 1 > p {
                    assert(key_lt(s[p].0, s[j - 1].0));
                    lemma_key_lt_order(k, s[p].0, s[j - 1].0);
                }
            } else {
                assert(t[i] == s[i - 1] && t[j] == s[j - 1]);
                assert(key_lt(s[i - 1].0, s[j - 1].0));
            }
        }
    }
    lemma_sorted_keys_unique(t);
    lemma_sorted_keys_unique(s);
}


/// Setting a value at a path keeps the top-level fields in name order.
pub proof fn law_path_insert_keeps_keys_sorted(s: Seq<(Seq<char>, ValueModel)>, path: Seq<Seq<char>>, v: ValueModel)
    requires
        keys_sorted(s),
    ensures
        keys_sorted(path_insert(s, path, v)),
{
    if path.len() == 1 {
        law_insert_keeps_keys_sorted(s, path[0], v);
    } else if path.len() > 1 {
        lemma_without_all_sorted(s, path[0]);
        law_insert_keeps_keys_sorted(
            without_all(s, path[0]),
            path[0],
            ValueModel::Object(path_insert(child_fields(s, path[0]), path.drop_first(), v)),
        );
    }
}

/// Reading a name among fields goes by the fields before the last one first.
pub proof fn lemma_assoc_get_last<V>(s: Seq<(Seq<char>, V)>, o: Seq<char>)
    requires
        s.len() > 0,
    ensures
        assoc_get(s, o) == (match assoc_get(s.drop_last(), o) {
            Some(v) => Some(v),
            None => if s.last().0 == o {
                Some(s.last().1)
            } else {
                None
            },
        }),
{
    lemma_key_position(s.drop_last(), o);
    let p = key_position(s.drop_last(), o);
    if p >= 0 {
        assert(s[p] == s.drop_last()[p]);
    }
}

/// Taking out the fields named `k` leaves every other name readable as before.
proof fn lemma_without_all_get<V>(s: Seq<(Seq<char>, V)>, k: Seq<char>, o: Seq<char>)
    requires
        o != k,
    ensures
        assoc_get(without_all(s, k), o) == assoc_get(s, o),
    decreases s.len(),
{
    if s.len() > 0 {
        let d = s.drop_last();
        lemma_without_all_get(d, k, o);
        lemma_assoc_get_last(s, o);
        if s.last().0 != k {
            let wd = without_all(d, k);
            assert(wd.push(s.last()).drop_last() =~= wd);
            lemma_assoc_get_last(wd.push(s.last()), o);
        }
    }
}

/// No field named `k` is left.
proof fn lemma_without_all_none<V>(s: Seq<(Seq<char>, V)>, k: Seq<char>)
    ensures
        forall|j: int| 0 <= j < without_all(s, k).len() ==> (#[trigger] without_all(s, k)[j]).0 != k,
    decreases s.len(),
{
    if s.len() > 0 {
        let d = s.drop_last();
        lemma_without_all_none(d, k);
        let wd = without_all(d, k);
        let w = without_all(s, k);
        assert forall|j: int| 0 <= j < w.len() implies (#[trigger] w[j]).0 != k by {
            if j < wd.len() {
                assert(w[j] == wd[j]);
            }
        }
    }
}

/// Every field left was a field before.
proof fn lemma_without_all_from<V>(s: Seq<(Seq<char>, V)>, k: Seq<char>)
    ensures
        forall|j: int| 0 <= j < without_all(s, k).len() ==> exists|i: int| 0 <= i < s.len() && s[i]
            == #[trigger] without_all(s, k)[j],
    decreases s.len(),
{
    if s.len() > 0 {
        let d = s.drop_last();
        lemma_without_all_from(d, k);
        let w = without_all(s, k);
        assert forall|j: int| 0 <= j < w.len() implies exists|i: int| 0 <= i < s.len() && s[i]
            == #[trigger] w[j] by {
            if j < without_all(d, k).len() {
                assert(w[j] == without_all(d, k)[j]);
                let i = choose|i: int| 0 <= i < d.len() && d[i] == without_all(d, k)[j];
                assert(s[i] == d[i]);
            } else {
                assert(w[j] == s[s.len() - 1]);
            }
        }
    }
}

/// Taking out the fields named `k` keeps the others in name order.
proof fn lemma_without_all_sorted<V>(s: Seq<(Seq<char>, V)>, k: Seq<char>)
    requires
        keys_sorted(s),
    ensures
        keys_sorted(without_all(s, k)),
    decreases s.len(),
{
    if s.len() > 0 {
        let d = s.drop_last();
        assert forall|a: int, b: int| #![trigger d[a], d[b]] 0 <= a < b < d.len() implies key_lt(
            d[a].0,
            d[b].0,
        ) by {
            assert(d[a] == s[a] && d[b] == s[b]);
            assert(key_lt(s[a].0, s[b].0));
        }
        lemma_without_all_sorted(d, k);
        lemma_without_all_from(d, k);
        let wd = without_all(d, k);
        let w = without_all(s, k);
        if s.last().0 != k {
            assert forall|a: int, b: int| #![trigger w[a], w[b]] 0 <= a < b < w.len() implies key_lt(
                w[a].0,
                w[b].0,
            ) by {
                if b < wd.len() {
                    assert(w[a] == wd[a] && w[b] == wd[b]);
                    assert(key_lt(wd[a].0, wd[b].0));
                } else {
                    assert(w[a] == wd[a]);
                    let i = choose|i: int| 0 <= i < d.len() && d[i] == wd[a];
                    assert(s[i] == d[i]);
                    assert(w[b] == s[s.len() - 1]);
                    assert(key_lt(s[i].0, s[s.len() - 1].0));
                }
            }
        }
    }
}

/// Taking out names from a concatenation takes them out of each part.
proof fn lemma_without_all_concat<V>(x: Seq<(Seq<char>, V)>, y: Seq<(Seq<char>, V)>, k: Seq<char>)
    ensures
        without_all(x + y, k) == without_all(x, k) + without_all(y, k),
    decreases y.len(),
{
    if y.len() == 0 {
        assert(x + y =~= x);
        assert(without_all(x, k) + without_all(y, k) =~= without_all(x, k));
    } else {
        assert((x + y).drop_last() =~= x + y.drop_last());
        assert((x + y).last() == y.last());
        lemma_without_all_concat(x, y.drop_last(), k);
        if y.last().0 != k {
            assert(without_all(x, k) + without_all(y.drop_last(), k).push(y.last()) =~= (without_all(
                x,
                k,
            ) + without_all(y.drop_last(), k)).push(y.last()));
        }
    }
}

/// Fields without the name `k` are left as they are.
proof fn lemma_without_all_absent<V>(s: Seq<(Seq<char>, V)>, k: Seq<char>)
    requires
        forall|j: int| 0 <= j < s.len() ==> (#[trigger] s[j]).0 != k,
    ensures
        without_all(s, k) == s,
    decreases s.len(),
{
    if s.len() > 0 {
        lemma_without_all_absent(s.drop_last(), k);
        assert(s.drop_last().push(s.last()) =~= s);
    }
}

/// Reading a path right after writing it gives what was written.
pub proof fn law_path_get_after_insert(s: Seq<(Seq<char>, ValueModel)>, path: Seq<Seq<char>>, v: ValueModel)
    requires
        path.len() >= 1,
    ensures
        path_get(path_insert(s, path, v), path) == Some(v),
    decreases path.len(),
{
    if path.len() == 1 {
        law_get_after_insert(s, path[0], v, path[0]);
    } else {
        let inner = path_insert(child_fields(s, path[0]), path.drop_first(), v);
        law_get_after_insert(without_all(s, path[0]), path[0], ValueModel::Object(inner), path[0]);
        law_path_get_after_insert(child_fields(s, path[0]), path.drop_first(), v);
    }
}

/// Writing at a path leaves the value at every path that diverges from it as it was.
pub proof fn law_path_insert_frame(
    s: Seq<(Seq<char>, ValueModel)>,
    p: Seq<Seq<char>>,
    q: Seq<Seq<char>>,
    v: ValueModel,
)
    requires
        paths_diverge(p, q),
    ensures
        path_get(path_insert(s, p, v), q) == path_get(s, q),
    decreases p.len(),
{
    let k = p[0];
    if p.len() == 1 {
        assert(p.drop_first().len() == 0);
        assert(!paths_diverge(p.drop_first(), q.drop_first()));
        assert(q[0] != k);
        law_get_after_insert(s, k, v, q[0]);
    } else if p[0] != q[0] {
        let inner = path_insert(child_fields(s, k), p.drop_first(), v);
        law_get_after_insert(without_all(s, k), k, ValueModel::Object(inner), q[0]);
        lemma_without_all_get(s, k, q[0]);
    } else {
        let rest_q = q.drop_first();
        assert(paths_diverge(p.drop_first(), rest_q));
        let inner = path_insert(child_fields(s, k), p.drop_first(), v);
        law_get_after_insert(without_all(s, k), k, ValueModel::Object(inner), k);
        law_path_insert_frame(child_fields(s, k), p.drop_first(), rest_q, v);
        assert(key_position(Seq::<(Seq<char>, ValueModel)>::empty(), rest_q[0]) == -1);
    }
}

/// A conditional write at a path never replaces a value that is there, and sets one that
/// is not.
pub proof fn law_path_try_insert_keeps_existing(
    s: Seq<(Seq<char>, ValueModel)>,
    path: Seq<Seq<char>>,
    v: ValueModel,
)
    requires
        path.len() >= 1,
    ensures
        path_get(s, path) is Some ==> path_try_insert(s, path, v) == s,
        path_get(s, path) is None ==> path_get(path_try_insert(s, path, v), path) == Some(v),
{
    if path_get(s, path) is None {
        law_path_get_after_insert(s, path, v);
    }
}


proof fn lemma_lower_bound_at<V>(t: Seq<(Seq<char>, V)>, k: Seq<char>, p: int)
    requires
        0 <= p <= t.len(),
        forall|j: int| 0 <= j < p ==> key_lt(#[trigger] t[j].0, k),
        p < t.len() ==> !key_lt(t[p].0, k),
    ensures
        lower_bound(t, k) == p,
{
    lemma_lower_bound(t, k);
    let q = lower_bound(t, k);
    if q < p {
        assert(key_lt(t[q].0, k));
    }
    if p < q {
        assert(key_lt(t[p].0, k));
    }
}

/// A second flat write of the same name replaces the first.
proof fn lemma_assoc_insert_twice<V>(s: Seq<(Seq<char>, V)>, k: Seq<char>, v1: V, v2: V)
    ensures
        assoc_insert(assoc_insert(s, k, v1), k, v2) == assoc_insert(s, k, v2),
{
    lemma_lower_bound(s, k);
    lemma_key_lt_order(k, k, k);
    let p = lower_bound(s, k);
    let t = assoc_insert(s, k, v1);
    if !(p < s.len() && s[p].0 == k) {
        s.insert_ensures(p, (k, v1));
        s.insert_ensures(p, (k, v2));
    }
    assert forall|j: int| 0 <= j < p implies key_lt(#[trigger] t[j].0, k) by {
        assert(t[j] == s[j]);
    }
    lemma_lower_bound_at(t, k, p);
    if p < s.len() && s[p].0 == k {
        assert(t.update(p, (k, v2)) =~= s.update(p, (k, v2)));
    } else {
        assert(t.update(p, (k, v2)) =~= s.insert(p, (k, v2)));
    }
}

/// Writing twice at the same path leaves what the second write wrote, as if the first
/// had not happened.
pub proof fn law_path_insert_last_wins(
    s: Seq<(Seq<char>, ValueModel)>,
    path: Seq<Seq<char>>,
    v1: ValueModel,
    v2: ValueModel,
)
    ensures
        path_insert(path_insert(s, path, v1), path, v2) == path_insert(s, path, v2),
    decreases path.len(),
{
    if path.len() == 1 {
        lemma_assoc_insert_twice(s, path[0], v1, v2);
    } else if path.len() > 1 {
        let k = path[0];
        let rest = path.drop_first();
        let c = child_fields(s, k);
        let w = without_all(s, k);
        lemma_without_all_none(s, k);
        let x = ValueModel::Object(path_insert(c, rest, v1));
        let t1 = assoc_insert(w, k, x);
        lemma_lower_bound(w, k);
        let p = lower_bound(w, k);
        w.insert_ensures(p, (k, x));
        assert(t1 == w.insert(p, (k, x)));
        assert forall|j: int| 0 <= j < p implies t1[j].0 != k by {
            assert(t1[j] == w[j]);
        }
        lemma_first_at(t1, k, p);
        assert(child_fields(t1, k) == path_insert(c, rest, v1));
        let head = w.subrange(0, p).push((k, x));
        let tail = w.subrange(p, w.len() as int);
        assert(t1 =~= head + tail);
        lemma_without_all_concat(head, tail, k);
        assert(head.drop_last() =~= w.subrange(0, p));
        lemma_without_all_absent(w.subrange(0, p), k);
        lemma_without_all_absent(tail, k);
        assert(w.subrange(0, p) + tail =~= w);
        assert(without_all(t1, k) == w);
        law_path_insert_last_wins(c, rest, v1, v2);
    }
}

} // verus!
