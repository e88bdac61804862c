//! The time-indexed event store: an embedded ordered byte-keyed store,
//! partitioned into one namespace per event name, holding each event
//! under a key whose byte order agrees with timestamp order.

use vstd::prelude::*;
use crate::codec::{
    append_bytes, be64_at, deserialize_event, event_wf, key_ts, lemma_key_in_range,
    lemma_key_order, lemma_key_split, lemma_lex_between, lex_le, lex_lt, serialize_event,
    lemma_event_round_trip, spec_be64_val, spec_deserialize, spec_key, spec_serialize,
    u64_to_be_bytes,
};
use crate::event::{Event, EventView};

verus! {

#[verifier::external_type_specification]
#[verifier::external_body]
pub struct ExSledDb(sled::Db);

/// The byte entries an embedded database holds under a named tree.
pub uninterp spec fn db_tree_contents(db: sled::Db, name: Seq<char>) -> Map<Seq<u8>, Seq<u8>>;

/// A storage failure: the embedded store refused an operation, or a
/// stored entry did not decode back into an event.
#[derive(Debug, Clone, PartialEq, Eq)]
pub enum StoreError {
    Backend,
    Corrupt,
}

/// Relies on sled::Db::open_tree and sled::Tree::insert: opening the
/// named tree (creating it on first use) and setting the key to the
/// value changes that tree and no other.
#[verifier::external_body]
fn db_insert(db: &mut sled::Db, name: &str, key: &Vec<u8>, value: &Vec<u8>) -> (r: Result<
    (),
    StoreError,
>)
    ensures
        r is Ok ==> db_tree_contents(*final(db), name@) == db_tree_contents(
            *old(db),
            name@,
        ).insert(key@, value@) && forall|m: Seq<char>|
            m != name@ ==> db_tree_contents(*final(db), m) == db_tree_contents(*old(db), m),
        r is Err ==> forall|m: Seq<char>|
            m != name@ ==> db_tree_contents(*final(db), m) == db_tree_contents(*old(db), m),
{
    let tree = match db.open_tree(name) {
        Ok(t) => t,
        Err(_) => return Err(StoreError::Backend),
    };
    match tree.insert(key.as_slice(), value.as_slice()) {
        Ok(_) => Ok(()),
        Err(_) => Err(StoreError::Backend),
    }
}

/// Relies on sled::Db::open_tree and sled::Tree::range: the entries of
/// the named tree with keys in `[lo, hi)`, each exactly once, in
/// ascending byte-lexicographic key order.
#[verifier::external_body]
fn db_range(db: &sled::Db, name: &str, lo: &Vec<u8>, hi: &Vec<u8>) -> (r: Result<
    Vec<(Vec<u8>, Vec<u8>)>,
    StoreError,
>)
    requires
        lex_le(lo@, hi@),
    ensures
        r matches Ok(es) ==> ({
            let m = db_tree_contents(*db, name@);
            &&& forall|j: int|
                0 <= j < es.len() ==> m.contains_pair(
                    (#[trigger] es[j]).0@,
                    es[j].1@,
                ) && lex_le(lo@, es[j].0@) && lex_lt(es[j].0@, hi@)
            &&& forall|i: int, j: int| 0 <= i < j < es.len() ==> lex_lt(es[i].0@, es[j].0@)
            &&& forall|k: Seq<u8>|
                #[trigger] m.dom().contains(k) && lex_le(lo@, k) && lex_lt(k, hi@)
                    ==> exists|j: int| 0 <= j < es.len() && (#[trigger] es[j]).0@ == k
            &&& es@.len() == m.dom().filter(
                (|k: Seq<u8>| lex_le(lo@, k) && lex_lt(k, hi@)),
            ).len()
        }),
{
    let tree = match db.open_tree(name) {
        Ok(t) => t,
        Err(_) => return Err(StoreError::Backend),
    };
    let mut out = Vec::new();
    for entry in tree.range(lo.as_slice()..hi.as_slice()) {
        match entry {
            Ok((k, v)) => out.push((k.to_vec(), v.to_vec())),
            Err(_) => return Err(StoreError::Backend),
        }
    }
    Ok(out)
}

/// The event store: an open database handle and the next sequence
/// number. Within one store, two events inserted at the same timestamp
/// get distinct keys, so neither overwrites the other.
pub struct EventStore {
    db: sled::Db,
    seq: u64,
}

/// The stored keys of the namespace lying in the byte range spanned by
/// the two timestamp bounds.
pub open spec fn keys_in_range(m: Map<Seq<u8>, Seq<u8>>, start: u64, end: u64) -> Set<Seq<u8>> {
    m.dom().filter(|k: Seq<u8>| lex_le(spec_key(start, 0), k) && lex_lt(k, spec_key(end, 0)))
}

/// The namespace holds this event under some sixteen-byte key carrying
/// the event's timestamp.
pub open spec fn stored_event(m: Map<Seq<u8>, Seq<u8>>, ev: EventView) -> bool {
    exists|k: Seq<u8>|
        {
            &&& #[trigger] m.dom().contains(k)
            &&& k.len() == 16
            &&& key_ts(k) == ev.timestamp
            &&& spec_deserialize(m[k]) == Some(ev)
        }
}

/// The event this stored value decodes to appears in the result.
pub open spec fn appears(evs: Seq<EventView>, val: Seq<u8>) -> bool {
    exists|j: int| 0 <= j < evs.len() && Some(#[trigger] evs[j]) == spec_deserialize(val)
}

/// What a successful range query returns, relative to the byte contents
/// of the queried namespace: every entry is a stored event whose
/// timestamp, also carried by its key, lies in `[start, end)`; entries
/// come in ascending timestamp order; and every stored key in range is
/// a well-formed event that appears in the result.
pub open spec fn range_result_ok(
    m: Map<Seq<u8>, Seq<u8>>,
    start: u64,
    end: u64,
    evs: Seq<EventView>,
) -> bool {
    &&& forall|j: int|
        0 <= j < evs.len() ==> start <= (#[trigger] evs[j]).timestamp
            && evs[j].timestamp < end
    &&& forall|i: int, j: int|
        0 <= i < j < evs.len() ==> (#[trigger] evs[i]).timestamp <= (#[trigger] evs[j]).timestamp
    &&& evs.len() == keys_in_range(m, start, end).len()
    &&& forall|j: int| 0 <= j < evs.len() ==> stored_event(m, #[trigger] evs[j])
    &&& forall|k: Seq<u8>|
        #[trigger] m.dom().contains(k) && lex_le(spec_key(start, 0), k) && lex_lt(
            k,
            spec_key(end, 0),
        ) ==> appears(evs, m[k])
}

impl EventStore {
    /// The next sequence number.
    pub closed spec fn seq_no(self) -> u64 {
        self.seq
    }

    /// The byte entries stored under a namespace.
    pub closed spec fn contents(self, n: Seq<char>) -> Map<Seq<u8>, Seq<u8>> {
        db_tree_contents(self.db, n)
    }

    /// Opens a store over a database handle, with the sequence counter
    /// at zero.
    pub fn new(db: sled::Db) -> (r: EventStore)
        ensures
            r.seq_no() == 0,
            forall|n: Seq<char>| r.contents(n) == db_tree_contents(db, n),
    {
        EventStore { db, seq: 0 }
    }

    /// Appends one event under the namespace, keyed by its timestamp
    /// and the store's next sequence number; the event becomes
    /// retrievable by range queries over that namespace, and no other
    /// namespace changes.
    pub fn insert(&mut self, namespace: &str, timestamp: u64, event: &Event) -> (r: Result<
        (),
        StoreError,
    >)
        ensures
            r is Ok ==> ({
                &&& event_wf(event@)
                &&& old(self).seq_no() < u64::MAX
                &&& final(self).seq_no() == old(self).seq_no() + 1
                &&& final(self).contents(namespace@) == old(self).contents(namespace@).insert(
                    spec_key(timestamp, old(self).seq_no()),
                    spec_serialize(event@),
                )
                &&& forall|m: Seq<char>|
                    m != namespace@ ==> final(self).contents(m) == old(self).contents(m)
            }),
            r is Err ==> final(self).seq_no() == old(self).seq_no() && forall|m: Seq<char>|
                m != namespace@ ==> final(self).contents(m) == old(self).contents(m),
    {
        if self.seq == u64::MAX {
            return Err(StoreError::Backend);
        }
        let mut key = u64_to_be_bytes(timestamp);
        let seq_bytes = u64_to_be_bytes(self.seq);
        append_bytes(&mut key, seq_bytes.as_slice());
        proof {
            assert(key@ =~= spec_key(timestamp, self.seq));
        }
        let value = serialize_event(event);
        match db_insert(&mut self.db, namespace, &key, &value) {
            Ok(_) => {
                self.seq = self.seq + 1;
                Ok(())
            },
            Err(e) => Err(e),
        }
    }

    /// All events stored under the namespace with timestamps in
    /// `[start, end)`, in ascending timestamp order. A namespace never
    /// written to yields the empty sequence.
    pub fn range_query(&self, namespace: &str, start: u64, end: u64) -> (r: Result<
        Vec<Event>,
        StoreError,
    >)
        ensures
            start >= end ==> r is Ok,
            r matches Ok(v) ==> range_result_ok(
                self.contents(namespace@),
                start,
                end,
                v.deep_view(),
            ),
    {
        let m_ghost = Ghost(self.contents(namespace@));
        if start >= end {
            let empty: Vec<Event> = Vec::new();
            proof {
                lemma_key_order(start, 0, end, 0);
                assert forall|k: Seq<u8>|
                    #[trigger] m_ghost@.dom().contains(k) && lex_le(spec_key(start, 0), k)
                        && lex_lt(k, spec_key(end, 0)) implies false by {
                    lemma_lex_between(spec_key(start, 0), k, spec_key(end, 0));
                }
                assert(empty.deep_view().len() == 0);
                assert(keys_in_range(m_ghost@, start, end) =~= Set::<Seq<u8>>::empty());
                assert(Set::<Seq<u8>>::empty().len() == 0);
            }
            return Ok(empty);
        }
        let mut lo = u64_to_be_bytes(start);
        let zeros = u64_to_be_bytes(0);
        append_bytes(&mut lo, zeros.as_slice());
        let mut hi = u64_to_be_bytes(end);
        append_bytes(&mut hi, zeros.as_slice());
        proof {
            assert(lo@ =~= spec_key(start, 0));
            assert(hi@ =~= spec_key(end, 0));
            lemma_key_order(start, 0, end, 0);
        }
        let entries = match db_range(&self.db, namespace, &lo, &hi) {
            Ok(es) => es,
            Err(e) => {
                return Err(e);
            },
        };
        let events = match decode_entries(&entries) {
            Ok(v) => v,
            Err(e) => {
                return Err(e);
            },
        };
        proof {
            let m = m_ghost@;
            let evs = events.deep_view();
            assert(evs.len() == entries@.len());
            assert(m.dom().filter((|k: Seq<u8>| lex_le(lo@, k) && lex_lt(k, hi@))) =~= keys_in_range(
                m,
                start,
                end,
            ));
            assert forall|j: int| 0 <= j < evs.len() implies start <= (#[trigger] evs[j]).timestamp
                && evs[j].timestamp < end by {
                assert(evs[j] == events@[j]@);
                let k = entries@[j].0@;
                lemma_key_split(k);
                lemma_key_in_range(key_ts(k), spec_be64_val(k.skip(8)), start, end);
            }
            assert forall|i: int, j: int| 0 <= i < j < evs.len() implies (
            #[trigger] evs[i]).timestamp <= (#[trigger] evs[j]).timestamp by {
                let ki = entries@[i].0@;
                let kj = entries@[j].0@;
                lemma_key_split(ki);
                lemma_key_split(kj);
                lemma_key_order(
                    key_ts(ki),
                    spec_be64_val(ki.skip(8)),
                    key_ts(kj),
                    spec_be64_val(kj.skip(8)),
                );
            }
            assert forall|j: int| 0 <= j < evs.len() implies stored_event(
                m,
                #[trigger] evs[j],
            ) by {
                let k = entries@[j].0@;
                assert(m.contains_pair(k, entries@[j].1@));
                assert(m[k] == entries@[j].1@);
                assert(spec_deserialize(m[k]) == Some(evs[j]));
                assert(entry_ok(entries@[j].0@, entries@[j].1@));
                assert(k.len() == 16);
                assert(key_ts(k) == evs[j].timestamp);
                assert(stored_event(m, evs[j]));
            }
            assert forall|k: Seq<u8>|
                #[trigger] m.dom().contains(k) && lex_le(spec_key(start, 0), k) && lex_lt(
                    k,
                    spec_key(end, 0),
                ) implies appears(evs, m[k]) by {
                let j = choose|j: int| 0 <= j < entries@.len() && (#[trigger] entries@[j]).0@ == k;
                assert(m[k] == entries@[j].1@);
                assert(Some(evs[j]) == spec_deserialize(m[k]));
                assert(appears(evs, m[k]));
            }
        }
        Ok(events)
    }
}

/// One entry decodes back into the event it was stored as, and its key
/// carries the event's timestamp.
pub open spec fn entry_ok(k: Seq<u8>, val: Seq<u8>) -> bool {
    match spec_deserialize(val) {
        Some(ev) => k.len() == 16 && ev.timestamp == key_ts(k),
        None => false,
    }
}

/// Decodes raw store entries back into events; fails exactly when some
/// entry is not a well-formed stored event.
fn decode_entries(entries: &Vec<(Vec<u8>, Vec<u8>)>) -> (r: Result<Vec<Event>, StoreError>)
    ensures
        r is Ok <==> (forall|j: int|
            0 <= j < entries@.len() ==> entry_ok((#[trigger] entries@[j]).0@, entries@[j].1@)),
        r matches Ok(v) ==> ({
            &&& v.deep_view().len() == entries@.len()
            &&& forall|j: int|
                0 <= j < entries@.len() ==> spec_deserialize((#[trigger] entries@[j]).1@) == Some(
                    v.deep_view()[j],
                ) && v.deep_view()[j].timestamp == key_ts(entries@[j].0@)
        }),
{
    let mut out: Vec<Event> = Vec::new();
    let mut i: usize = 0;
    while i < entries.len()
        invariant
            i <= entries@.len(),
            out.deep_view().len() == i,
            forall|j: int|
                0 <= j < i ==> entry_ok((#[trigger] entries@[j]).0@, entries@[j].1@),
            forall|j: int|
                0 <= j < i ==> spec_deserialize((#[trigger] entries@[j]).1@) == Some(
                    out.deep_view()[j],
                ) && out.deep_view()[j].timestamp == key_ts(entries@[j].0@),
        decreases entries@.len() - i,
    {
        let entry = &entries[i];
        if entry.0.len() != 16 {
            proof {
                assert(!entry_ok(entries@[i as int].0@, entries@[i as int].1@));
            }
            return Err(StoreError::Corrupt);
        }
        let ev = match deserialize_event(&entry.1) {
            Some(ev) => ev,
            None => {
                proof {
                    assert(!entry_ok(entries@[i as int].0@, entries@[i as int].1@));
                }
                return Err(StoreError::Corrupt);
            },
        };
        let kts = be64_at(&entry.0, 0);
        proof {
            assert(entry.0@.subrange(0, 8) =~= entry.0@.take(8));
        }
        if ev.timestamp != kts {
            proof {
                assert(!entry_ok(entries@[i as int].0@, entries@[i as int].1@));
            }
            return Err(StoreError::Corrupt);
        }
        let ghost old_out = out.deep_view();
        out.push(ev);
        proof {
            assert(out.deep_view() =~= old_out.push(ev@));
        }
        i += 1;
    }
    Ok(out)
}


/// Law: an event inserted at a timestamp inside the queried range is in
/// every answer a later range query over its namespace gives for that
/// range — once `insert` returns, the event is retrievable.
pub proof fn lemma_inserted_event_is_served(
    before: Map<Seq<u8>, Seq<u8>>,
    ts: u64,
    sq: u64,
    e: EventView,
    start: u64,
    end: u64,
    evs: Seq<EventView>,
)
    requires
        event_wf(e),
        e.timestamp == ts,
        start <= ts < end,
        range_result_ok(
            before.insert(spec_key(ts, sq), spec_serialize(e)),
            start,
            end,
            evs,
        ),
    ensures
        exists|j: int| 0 <= j < evs.len() && evs[j] == e,
{
    let k = spec_key(ts, sq);
    let m = before.insert(k, spec_serialize(e));
    assert(m.dom().contains(k));
    assert(m[k] == spec_serialize(e));
    lemma_key_in_range(ts, sq, start, end);
    assert(appears(evs, m[k]));
    lemma_event_round_trip(e);
    let j = choose|j: int| 0 <= j < evs.len() && Some(#[trigger] evs[j]) == spec_deserialize(m[k]);
    assert(evs[j] == e);
}

} // verus!
