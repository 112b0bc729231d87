//! Offset tracking for acknowledged Kafka messages: a message's offset may be
//! stored only once it and every message received before it are acknowledged.
use vstd::prelude::*;
use std::collections::HashMap;
use rdkafka::TopicPartitionList;
use crate::sources::kafka_client::{partition_list_add, partition_list_entries, partition_list_new};

verus! {

broadcast use vstd::std_specs::hash::group_hash_axioms;

/// A received message awaiting acknowledgement.
#[derive(Debug, Clone)]
pub struct CommitterEntry {
    pub done: bool,
    pub topic: String,
    pub partition: i32,
    pub offset: i64,
}

impl CommitterEntry {
    /// A not yet acknowledged entry for the message at `offset` of `topic`/`partition`.
    pub fn from_message(topic: &str, partition: i32, offset: i64) -> (r: CommitterEntry)
        ensures
            !r.done,
            r.topic@ == topic@,
            r.partition == partition,
            r.offset == offset,
    {
        CommitterEntry { done: false, topic: topic.to_owned(), partition, offset }
    }

    /// An entry that can be handed to a `TopicPartitionList`: its offset plus one is a
    /// non-negative offset and its topic holds no NUL character.
    pub open spec fn storable(&self) -> bool {
        &&& 0 <= self.offset < i64::MAX
        &&& !self.topic@.contains('\0')
    }
}

/// The element of a `TopicPartitionList` that storing `e`'s offset adds: the offset
/// of the next message to consume.
pub open spec fn stored_position(e: CommitterEntry) -> (Seq<char>, i32, i64) {
    (e.topic@, e.partition, (e.offset + 1) as i64)
}

/// The acknowledged entries from order `k` on, up to the first order that is missing
/// or not yet acknowledged.
pub open spec fn done_run(m: Map<u64, CommitterEntry>, k: int) -> Seq<CommitterEntry>
    decreases u64::MAX - k,
{
    if 0 <= k < u64::MAX && m.contains_key(k as u64) && m[k as u64].done {
        seq![m[k as u64]] + done_run(m, k + 1)
    } else {
        Seq::empty()
    }
}

/// The orders `lo..hi` removed from `m`.
pub open spec fn remove_orders(m: Map<u64, CommitterEntry>, lo: int, hi: int) -> Map<
    u64,
    CommitterEntry,
> {
    m.restrict(m.dom().filter(|k: u64| !(lo <= k < hi)))
}

/// Entries awaiting acknowledgement, by the order in which they were received.
#[derive(Debug)]
pub struct CommitterStore {
    next: u64,
    map: HashMap<u64, CommitterEntry>,
}

impl CommitterStore {
    /// The order of the oldest entry whose offset has not been stored yet.
    pub closed spec fn next_order(&self) -> u64 {
        self.next
    }

    /// The pending entries by order.
    pub closed spec fn pending(&self) -> Map<u64, CommitterEntry> {
        self.map@
    }

    /// Every pending entry is storable, and its order lies in `next..u64::MAX`.
    #[verifier::type_invariant]
    pub open spec fn wf(&self) -> bool {
        forall|k: u64|
            #[trigger] self.pending().contains_key(k) ==> {
                &&& self.next_order() <= k < u64::MAX
                &&& self.pending()[k].storable()
            }
    }

    /// A store with nothing pending.
    pub fn new() -> (r: CommitterStore)
        ensures
            r.next_order() == 0,
            r.pending() == Map::<u64, CommitterEntry>::empty(),
    {
        CommitterStore { next: 0, map: HashMap::new() }
    }

    /// The order of the oldest entry whose offset has not been stored yet.
    pub fn next(&self) -> (r: u64)
        ensures
            r == self.next_order(),
    {
        self.next
    }

    /// Records `entry` under `order`.
    pub fn insert(&mut self, order: u64, entry: CommitterEntry)
        requires
            old(self).next_order() <= order < u64::MAX,
            entry.storable(),
        ensures
            final(self).next_order() == old(self).next_order(),
            final(self).pending() == old(self).pending().insert(order, entry),
    {
        proof {
            use_type_invariant(&*self);
        }
        let mut map: HashMap<u64, CommitterEntry> = HashMap::new();
        std::mem::swap(&mut map, &mut self.map);
        map.insert(order, entry);
        proof {
            assert forall|k: u64| #[trigger] map@.contains_key(k) implies {
                &&& self.next <= k < u64::MAX
                &&& map@[k].storable()
            } by {
                if k != order {
                    assert(old(self).pending().contains_key(k));
                }
            }
        }
        self.map = map;
    }

    /// Marks the entry recorded under `order`, if any, as acknowledged.
    pub fn mark_done(&mut self, order: u64)
        ensures
            final(self).next_order() == old(self).next_order(),
            old(self).pending().contains_key(order) ==> final(self).pending() == old(
                self,
            ).pending().insert(
                order,
                (CommitterEntry { done: true, ..old(self).pending()[order] }),
            ),
            !old(self).pending().contains_key(order) ==> final(self).pending() == old(
                self,
            ).pending(),
    {
        proof {
            use_type_invariant(&*self);
        }
        let mut map: HashMap<u64, CommitterEntry> = HashMap::new();
        std::mem::swap(&mut map, &mut self.map);
        match map.remove(&order) {
            Some(entry) => {
                let marked = CommitterEntry { done: true, ..entry };
                map.insert(order, marked);
            },
            None => {},
        }
        proof {
            assert forall|k: u64| #[trigger] map@.contains_key(k) implies {
                &&& self.next <= k < u64::MAX
                &&& map@[k].storable()
            } by {
                assert(old(self).pending().contains_key(k));
            }
        }
        self.map = map;
    }

    /// Takes out the acknowledged entries from the oldest pending order on, up to the
    /// first order that is missing or not yet acknowledged, and lists the offsets to
    /// store for them, in order; `None` when there are none.
    pub fn extract_topic_partition_list(&mut self) -> (r: Option<TopicPartitionList>)
        ensures
            ({
                let run = done_run(old(self).pending(), old(self).next_order() as int);
                &&& final(self).next_order() == old(self).next_order() + run.len()
                &&& final(self).pending() == remove_orders(
                    old(self).pending(),
                    old(self).next_order() as int,
                    old(self).next_order() + run.len(),
                )
                &&& (r is None <==> run.len() == 0)
                &&& (r matches Some(l) ==> partition_list_entries(l) == run.map_values(
                    |e: CommitterEntry| stored_position(e),
                ))
            }),
    {
        proof {
            use_type_invariant(&*self);
        }
        let ghost start = self.next as int;
        let ghost old_map = self.map@;
        let ghost run = done_run(old_map, start);
        proof {
            lemma_done_run_len(old_map, start);
            assert forall|k: u64| #[trigger] old_map.contains_key(k) implies start <= k < u64::MAX
                && old_map[k].storable() by {
                assert(old(self).pending().contains_key(k));
            }
            assert(run.skip(0) =~= run);
        }
        let mut map: HashMap<u64, CommitterEntry> = HashMap::new();
        std::mem::swap(&mut map, &mut self.map);
        let mut next = self.next;
        let mut result: Option<TopicPartitionList> = None;
        loop
            invariant_except_break
                start <= next,
                next - start <= run.len(),
                done_run(old_map, next as int) == run.skip(next - start),
            invariant
                start <= next,
                next - start <= run.len(),
                run == done_run(old_map, start),
                forall|k: u64| #[trigger]
                    old_map.contains_key(k) ==> start <= k < u64::MAX
                        && old_map[k].storable(),
                map@ == remove_orders(old_map, start, next as int),
                result is None <==> next == start,
                result matches Some(l) ==> partition_list_entries(l) == run.take(
                    next - start,
                ).map_values(|e: CommitterEntry| stored_position(e)),
            ensures
                next - start == run.len(),
            decreases u64::MAX - next,
        {
            let present_done = match map.get(&next) {
                Some(entry) => entry.done,
                None => false,
            };
            if !present_done {
                proof {
                    assert(done_run(old_map, next as int) =~= Seq::<CommitterEntry>::empty());
                    assert(run.skip(next - start).len() == 0);
                }
                break;
            }
            let entry = map.remove(&next).unwrap();
            let mut list = match result {
                Some(l) => l,
                None => partition_list_new(),
            };
            proof {
                assert(old_map.contains_key(next));
                assert(done_run(old_map, next as int).len() > 0);
                assert(run.skip(next - start)[0] == old_map[next]);
                assert(run[next - start] == old_map[next]);
            }
            partition_list_add(&mut list, entry.topic.as_str(), entry.partition, entry.offset + 1);
            result = Some(list);
            proof {
                assert(run.take(next + 1 - start) =~= run.take(next - start).push(run[next - start]));
                assert(run.take(next + 1 - start).map_values(|e: CommitterEntry| stored_position(e))
                    =~= run.take(next - start).map_values(|e: CommitterEntry| stored_position(e)).push(
                    stored_position(run[next - start])));
                assert(run.skip(next + 1 - start) =~= run.skip(next - start).drop_first());
                assert(map@ =~= remove_orders(old_map, start, next + 1));
            }
            next = next + 1;
        }
        proof {
            assert forall|k: u64| #[trigger] map@.contains_key(k) implies {
                &&& self.next <= k < u64::MAX
                &&& map@[k].storable()
            } by {
                assert(old_map.contains_key(k));
            }
        }
        self.map = map;
        proof {
            assert forall|k: u64| #[trigger] self.map@.contains_key(k) implies next <= k by {
                if k < next {
                    assert(!remove_orders(old_map, start, next as int).contains_key(k));
                }
            }
        }
        self.next = next;
        result
    }
}

/// `done_run` is no longer than the orders left below `u64::MAX`.
pub proof fn lemma_done_run_len(m: Map<u64, CommitterEntry>, k: int)
    requires
        0 <= k,
    ensures
        done_run(m, k).len() <= if k <= u64::MAX { u64::MAX - k } else { 0 },
        forall|i: int| 0 <= i < done_run(m, k).len() ==> #[trigger] in_run(m, k, i),
    decreases u64::MAX - k,
{
    if 0 <= k < u64::MAX && m.contains_key(k as u64) && m[k as u64].done {
        lemma_done_run_len(m, k + 1);
        let r = done_run(m, k);
        let r1 = done_run(m, k + 1);
        assert(r == seq![m[k as u64]] + r1);
        assert forall|i: int| 0 <= i < r.len() implies #[trigger] in_run(m, k, i) by {
            if i > 0 {
                assert(in_run(m, k + 1, i - 1));
                assert(r[i] == r1[i - 1]);
                assert(k + 1 + (i - 1) == k + i);
            }
        }
    }
}

/// The `i`-th entry of `done_run(m, k)` is the acknowledged entry of order `k + i`.
pub open spec fn in_run(m: Map<u64, CommitterEntry>, k: int, i: int) -> bool {
    &&& m.contains_key((k + i) as u64)
    &&& done_run(m, k)[i] == m[(k + i) as u64]
    &&& m[(k + i) as u64].done
}

/// Orders received messages and stores offsets as acknowledgements come in.
#[derive(Debug)]
pub struct Committer {
    order: u64,
    store: CommitterStore,
}

impl Committer {
    /// The order the next pushed entry receives.
    pub closed spec fn next_push(&self) -> u64 {
        self.order
    }

    /// The entries awaiting acknowledgement or storing.
    pub closed spec fn store(&self) -> CommitterStore {
        self.store
    }

    /// Every pending order was handed out by `push`.
    #[verifier::type_invariant]
    pub open spec fn wf(&self) -> bool {
        &&& self.store().next_order() <= self.next_push()
        &&& forall|k: u64| #[trigger]
            self.store().pending().contains_key(k) ==> k < self.next_push()
    }

    /// A committer that has seen no message.
    pub fn new() -> (r: Committer)
        ensures
            r.next_push() == 0,
            r.store().next_order() == 0,
            r.store().pending() == Map::<u64, CommitterEntry>::empty(),
    {
        Committer { order: 0, store: CommitterStore::new() }
    }

    /// The order the next pushed entry receives.
    pub fn next_order(&self) -> (r: u64)
        ensures
            r == self.next_push(),
    {
        self.order
    }

    /// Records a received message; returns the order under which it awaits acknowledgement.
    pub fn push(&mut self, entry: CommitterEntry) -> (order: u64)
        requires
            old(self).next_push() < u64::MAX,
            entry.storable(),
        ensures
            order == old(self).next_push(),
            final(self).next_push() == old(self).next_push() + 1,
            final(self).store().next_order() == old(self).store().next_order(),
            final(self).store().pending() == old(self).store().pending().insert(order, entry),
    {
        proof {
            use_type_invariant(&*self);
        }
        let order = self.order;
        let mut store = CommitterStore::new();
        std::mem::swap(&mut store, &mut self.store);
        self.order = order + 1;
        store.insert(order, entry);
        proof {
            use_type_invariant(&store);
            assert forall|k: u64| #[trigger] store.pending().contains_key(k) implies k < order + 1 by {
                if k != order {
                    assert(old(self).store().pending().contains_key(k));
                }
            }
        }
        self.store = store;
        order
    }

    /// Records the acknowledgement of the message pushed under `order`, and lists the
    /// offsets that may now be stored (see `CommitterStore::extract_topic_partition_list`).
    pub fn acknowledge(&mut self, order: u64) -> (r: Option<TopicPartitionList>)
        ensures
            final(self).next_push() == old(self).next_push(),
            ({
                let marked = if old(self).store().pending().contains_key(order) {
                    old(self).store().pending().insert(
                        order,
                        (CommitterEntry { done: true, ..old(self).store().pending()[order] }),
                    )
                } else {
                    old(self).store().pending()
                };
                let start = old(self).store().next_order();
                let run = done_run(marked, start as int);
                &&& final(self).store().next_order() == start + run.len()
                &&& final(self).store().pending() == remove_orders(marked, start as int, start + run.len())
                &&& (r is None <==> run.len() == 0)
                &&& (r matches Some(l) ==> partition_list_entries(l) == run.map_values(
                    |e: CommitterEntry| stored_position(e),
                ))
            }),
    {
        proof {
            use_type_invariant(&*self);
        }
        let mut store = CommitterStore::new();
        std::mem::swap(&mut store, &mut self.store);
        store.mark_done(order);
        let ghost marked = store.pending();
        let ghost start = store.next_order() as int;
        let r = store.extract_topic_partition_list();
        proof {
            use_type_invariant(&store);
            let n = done_run(marked, start).len();
            lemma_done_run_len(marked, start);
            if n > 0 {
                assert(in_run(marked, start, n - 1));
                assert(marked.contains_key((start + n - 1) as u64));
                if !old(self).store().pending().contains_key((start + n - 1) as u64) {
                    assert((start + n - 1) as u64 == order);
                }
            }
            assert forall|k: u64| #[trigger] store.pending().contains_key(k) implies k
                < self.next_push() by {
                assert(old(self).store().pending().contains_key(k));
            }
        }
        self.store = store;
        r
    }
}

/// Storing is exhaustive: once the acknowledged run from the oldest pending order has
/// been taken out, the run from the new oldest pending order is empty, so a second
/// extraction right after stores nothing.
pub proof fn law_extraction_exhausts_run(m: Map<u64, CommitterEntry>, start: int)
    requires
        0 <= start,
    ensures
        done_run(
            remove_orders(m, start, start + done_run(m, start).len()),
            start + done_run(m, start).len(),
        ).len() == 0,
{
    let n = done_run(m, start).len();
    lemma_done_run_tail(m, start);
    let m2 = remove_orders(m, start, start + n);
    if 0 <= start + n < u64::MAX && m2.contains_key((start + n) as u64) && m2[(start + n) as u64].done {
        assert(m.contains_key((start + n) as u64));
        assert(m[(start + n) as u64] == m2[(start + n) as u64]);
        assert(false);
    }
}

/// The run stops at the first order that is missing or not acknowledged.
proof fn lemma_done_run_tail(m: Map<u64, CommitterEntry>, k: int)
    requires
        0 <= k,
    ensures
        !(0 <= k + done_run(m, k).len() < u64::MAX && m.contains_key((k + done_run(m, k).len()) as u64)
            && m[(k + done_run(m, k).len()) as u64].done),
    decreases u64::MAX - k,
{
    if 0 <= k < u64::MAX && m.contains_key(k as u64) && m[k as u64].done {
        lemma_done_run_tail(m, k + 1);
    }
}

/// Offsets are stored in the order messages arrived: while the oldest pending message is
/// unacknowledged, no offset is stored, whatever else has been acknowledged.
pub proof fn law_oldest_pending_blocks_storing(m: Map<u64, CommitterEntry>, start: int)
    requires
        0 <= start < u64::MAX,
        m.contains_key(start as u64),
        !m[start as u64].done,
    ensures
        done_run(m, start).len() == 0,
{
}

/// Every entry whose offset is stored was acknowledged, and so was every entry received
/// between the oldest pending one and it.
pub proof fn law_stored_entries_acknowledged(m: Map<u64, CommitterEntry>, start: int, i: int)
    requires
        0 <= start,
        0 <= i < done_run(m, start).len(),
    ensures
        forall|j: int| 0 <= j <= i ==> #[trigger] acknowledged_at(m, start + j),
        done_run(m, start)[i] == m[(start + i) as u64],
{
    lemma_done_run_len(m, start);
    assert(in_run(m, start, i));
    assert forall|j: int| 0 <= j <= i implies #[trigger] acknowledged_at(m, start + j) by {
        assert(in_run(m, start, j));
    }
}

/// The entry of order `k` is pending and acknowledged.
pub open spec fn acknowledged_at(m: Map<u64, CommitterEntry>, k: int) -> bool {
    m.contains_key(k as u64) && m[k as u64].done
}

/// Nothing is left behind: once every message received from the oldest pending order on
/// has been acknowledged, all of their offsets are stored at once and nothing stays pending.
pub proof fn law_all_acknowledged_all_stored(m: Map<u64, CommitterEntry>, start: int, end: int)
    requires
        0 <= start <= end <= u64::MAX,
        forall|k: int| start <= k < end ==> #[trigger] acknowledged_at(m, k),
        forall|k: u64| #[trigger] m.contains_key(k) ==> start <= k < end,
    ensures
        done_run(m, start).len() == end - start,
        remove_orders(m, start, end) == Map::<u64, CommitterEntry>::empty(),
{
    lemma_done_run_covers(m, start, end);
    assert(remove_orders(m, start, end) =~= Map::<u64, CommitterEntry>::empty());
}

/// `done_run(m, k)` covers every order from `k` up to `end` when all of them are pending
/// and acknowledged and the order `end` is not pending.
proof fn lemma_done_run_covers(m: Map<u64, CommitterEntry>, k: int, end: int)
    requires
        0 <= k <= end <= u64::MAX,
        forall|j: int| k <= j < end ==> #[trigger] acknowledged_at(m, j),
        forall|j: u64| #[trigger] m.contains_key(j) ==> j < end,
    ensures
        done_run(m, k).len() == end - k,
    decreases end - k,
{
    if k < end {
        assert(acknowledged_at(m, k));
        lemma_done_run_covers(m, k + 1, end);
    }
}


/// The committer's pending entries and oldest pending order after the acknowledgement of
/// `order`: the entry of `order` is marked, then the acknowledged run is stored
/// (as `Committer::acknowledge` does).
pub open spec fn ack_step(st: (int, Map<u64, CommitterEntry>), order: u64) -> (int, Map<u64, CommitterEntry>) {
    let marked = if st.1.contains_key(order) {
        st.1.insert(order, (CommitterEntry { done: true, ..st.1[order] }))
    } else {
        st.1
    };
    let n = done_run(marked, st.0).len();
    (st.0 + n, remove_orders(marked, st.0, st.0 + n))
}

/// The run stored by the acknowledgement of `order` (as `Committer::acknowledge` lists it).
pub open spec fn ack_run(st: (int, Map<u64, CommitterEntry>), order: u64) -> Seq<CommitterEntry> {
    let marked = if st.1.contains_key(order) {
        st.1.insert(order, (CommitterEntry { done: true, ..st.1[order] }))
    } else {
        st.1
    };
    done_run(marked, st.0)
}

/// The state after a history of acknowledgements, in the order they came in.
pub open spec fn replay(st: (int, Map<u64, CommitterEntry>), history: Seq<u64>) -> (int, Map<
    u64,
    CommitterEntry,
>)
    decreases history.len(),
{
    if history.len() == 0 {
        st
    } else {
        ack_step(replay(st, history.drop_last()), history.last())
    }
}

/// The pending entries once `es` have been pushed in order (under orders `0..es.len()`),
/// none acknowledged yet.
pub open spec fn pushed(es: Seq<CommitterEntry>) -> Map<u64, CommitterEntry> {
    Map::new(|k: u64| k < es.len(), |k: u64| es[k as int])
}

/// The entries of orders `from..es.len()`, each marked acknowledged when its order is in
/// `history`.
pub open spec fn pending_after(es: Seq<CommitterEntry>, history: Seq<u64>, from: int) -> Map<
    u64,
    CommitterEntry,
> {
    Map::new(
        |k: u64| from <= k < es.len(),
        |k: u64| CommitterEntry { done: history.contains(k), ..es[k as int] },
    )
}

proof fn lemma_push_contains(h: Seq<u64>, o: u64, k: u64)
    ensures
        h.push(o).contains(k) <==> (h.contains(k) || k == o),
{
    if h.contains(k) {
        let i = choose|i: int| 0 <= i < h.len() && h[i] == k;
        assert(h.push(o)[i] == k);
    }
    if k == o {
        assert(h.push(o)[h.len() as int] == o);
    }
    if h.push(o).contains(k) {
        let j = choose|j: int| 0 <= j < h.push(o).len() && h.push(o)[j] == k;
        if j < h.len() {
            assert(h[j] == k);
        }
    }
}

/// Offsets are stored in push order, once each, and only once acknowledged: after any
/// history of acknowledgements of entries pushed in order, the offsets of orders
/// `0..stored` have been stored, every one of them and every order before it was
/// acknowledged, the next order is not, and the rest wait with their acknowledgements.
pub proof fn law_history_stores_acknowledged_prefix(es: Seq<CommitterEntry>, history: Seq<u64>)
    requires
        es.len() < u64::MAX,
        forall|i: int| 0 <= i < es.len() ==> !(#[trigger] es[i]).done,
    ensures
        ({
            let st = replay((0, pushed(es)), history);
            &&& 0 <= st.0 <= es.len()
            &&& forall|k: u64| k < st.0 ==> #[trigger] history.contains(k)
            &&& st.0 < es.len() ==> !history.contains(st.0 as u64)
            &&& st.1 == pending_after(es, history, st.0)
        }),
    decreases history.len(),
{
    if history.len() == 0 {
        assert(pushed(es) =~= pending_after(es, history, 0));
    } else {
        let h0 = history.drop_last();
        let o = history.last();
        assert(h0.push(o) =~= history);
        law_history_stores_acknowledged_prefix(es, h0);
        let st = replay((0, pushed(es)), h0);
        let s = st.0;
        let m = st.1;
        assert forall|k: u64| history.contains(k) <==> (h0.contains(k) || k == o) by {
            lemma_push_contains(h0, o, k);
        }
        let marked = if m.contains_key(o) {
            m.insert(o, (CommitterEntry { done: true, ..m[o] }))
        } else {
            m
        };
        assert(marked =~= pending_after(es, history, s));
        let n = done_run(marked, s).len();
        lemma_done_run_len(marked, s);
        lemma_done_run_tail(marked, s);
        if n > 0 {
            assert(in_run(marked, s, n - 1));
        }
        assert forall|k: u64| k < s + n implies #[trigger] history.contains(k) by {
            if k >= s {
                assert(in_run(marked, s, k - s));
            } else {
                assert(h0.contains(k));
            }
        }
        assert(remove_orders(marked, s, s + n) =~= pending_after(es, history, s + n));
    }
}

/// The offsets stored by one acknowledgement form the contiguous run of entries, in push
/// order, from the oldest pending one on, each marked acknowledged.
pub proof fn law_history_step_stores_run(es: Seq<CommitterEntry>, history: Seq<u64>, order: u64)
    requires
        es.len() < u64::MAX,
        forall|i: int| 0 <= i < es.len() ==> !(#[trigger] es[i]).done,
    ensures
        ({
            let st = replay((0, pushed(es)), history);
            let next = replay((0, pushed(es)), history.push(order));
            let run = ack_run(st, order);
            &&& next.0 == st.0 + run.len()
            &&& run == Seq::new(
                run.len(),
                |i: int| CommitterEntry { done: true, ..es[st.0 + i] },
            )
        }),
{
    law_history_stores_acknowledged_prefix(es, history);
    let h = history.push(order);
    assert(h.drop_last() =~= history);
    let st = replay((0, pushed(es)), history);
    let run = ack_run(st, order);
    let marked = if st.1.contains_key(order) {
        st.1.insert(order, (CommitterEntry { done: true, ..st.1[order] }))
    } else {
        st.1
    };
    lemma_done_run_len(marked, st.0);
    assert forall|i: int| 0 <= i < run.len() implies run[i] == (CommitterEntry {
        done: true,
        ..es[st.0 + i]
    }) by {
        assert(in_run(marked, st.0, i));
    }
    assert(run =~= Seq::new(run.len(), |i: int| CommitterEntry { done: true, ..es[st.0 + i] }));
}

/// Nothing is left behind: once every pushed entry has been acknowledged, in any order,
/// all offsets have been stored and nothing is pending.
pub proof fn law_history_all_acknowledged_all_stored(es: Seq<CommitterEntry>, history: Seq<u64>)
    requires
        es.len() < u64::MAX,
        forall|i: int| 0 <= i < es.len() ==> !(#[trigger] es[i]).done,
        forall|k: u64| k < es.len() ==> #[trigger] history.contains(k),
    ensures
        replay((0, pushed(es)), history).0 == es.len(),
        replay((0, pushed(es)), history).1 == Map::<u64, CommitterEntry>::empty(),
{
    law_history_stores_acknowledged_prefix(es, history);
    let st = replay((0, pushed(es)), history);
    if st.0 < es.len() {
        assert(history.contains(st.0 as u64));
    }
    assert(st.1 =~= Map::<u64, CommitterEntry>::empty());
}

} // verus!
