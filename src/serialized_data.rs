//! The append-only buffer that outbound messages are built in.

use vstd::prelude::*;

use crate::entity::{
    entity_bytes, lemma_entity_round_trip, parse_entity, serialize_entity, EntityId,
};
use crate::varint::{lemma_varint_round_trip, parse_varint, varint, write_varint};

verus! {

/// Identifies the serialize/deserialize/apply functions of one replicated type.
pub type FnsId = usize;

/// One value written into the buffer, as the reader sees it.
pub enum Record {
    Tick(u64),
    Entity(EntityId),
    /// Pairs of (authoritative id, replica id).
    Mappings(Seq<(EntityId, EntityId)>),
    FnIds(Seq<FnsId>),
    /// A function id and the bytes its serializer produced.
    Component(FnsId, Seq<u8>),
}

/// Which kind of record a reader expects at a place in a message.
#[derive(Clone, Copy, Debug, PartialEq, Eq, Structural)]
pub enum RecordKind {
    Tick,
    Entity,
    Mappings,
    FnIds,
    Component,
}

pub open spec fn record_kind(r: Record) -> RecordKind {
    match r {
        Record::Tick(_) => RecordKind::Tick,
        Record::Entity(_) => RecordKind::Entity,
        Record::Mappings(_) => RecordKind::Mappings,
        Record::FnIds(_) => RecordKind::FnIds,
        Record::Component(_, _) => RecordKind::Component,
    }
}

pub open spec fn pair_bytes(p: (EntityId, EntityId)) -> Seq<u8> {
    entity_bytes(p.0) + entity_bytes(p.1)
}

pub open spec fn mappings_bytes(m: Seq<(EntityId, EntityId)>) -> Seq<u8> {
    m.map_values(|p: (EntityId, EntityId)| pair_bytes(p)).flatten()
}

pub open spec fn fn_ids_bytes(ids: Seq<FnsId>) -> Seq<u8> {
    ids.map_values(|id: FnsId| varint(id as nat)).flatten()
}

/// The bytes a record occupies in the buffer.
pub open spec fn record_bytes(r: Record) -> Seq<u8> {
    match r {
        Record::Tick(t) => varint(t as nat),
        Record::Entity(e) => entity_bytes(e),
        Record::Mappings(m) => mappings_bytes(m),
        Record::FnIds(ids) => fn_ids_bytes(ids),
        Record::Component(id, payload) => varint(id as nat) + payload,
    }
}

/// The buffer after writing `rs` in order into an empty one.
pub open spec fn records_bytes(rs: Seq<Record>) -> Seq<u8> {
    rs.map_values(|r: Record| record_bytes(r)).flatten()
}

/// Where the `i`-th of `rs` starts (and the one before it ends).
pub open spec fn record_start(rs: Seq<Record>, i: int) -> int {
    records_bytes(rs.take(i)).len() as int
}

/// Function ids read back to back until `s` is used up.
pub open spec fn parse_fn_ids(s: Seq<u8>) -> Option<Seq<FnsId>>
    decreases s.len(),
{
    if s.len() == 0 {
        Some(Seq::empty())
    } else {
        match parse_varint(s) {
            Some((v, k)) => if v <= usize::MAX && 1 <= k <= s.len() {
                match parse_fn_ids(s.skip(k as int)) {
                    Some(rest) => Some(seq![v as FnsId] + rest),
                    None => None,
                }
            } else {
                None
            },
            None => None,
        }
    }
}

/// Id pairs read back to back until `s` is used up.
pub open spec fn parse_mappings(s: Seq<u8>) -> Option<Seq<(EntityId, EntityId)>>
    decreases s.len(),
{
    if s.len() == 0 {
        Some(Seq::empty())
    } else {
        match parse_entity(s) {
            Some((a, k)) => if 1 <= k <= s.len() {
                match parse_entity(s.skip(k as int)) {
                    Some((b, k2)) => if 1 <= k2 <= s.len() - k {
                        match parse_mappings(s.skip((k + k2) as int)) {
                            Some(rest) => Some(seq![(a, b)] + rest),
                            None => None,
                        }
                    } else {
                        None
                    },
                    None => None,
                }
            } else {
                None
            },
            None => None,
        }
    }
}

/// Reads `s` whole as one record of the given kind.
pub open spec fn parse_record(kind: RecordKind, s: Seq<u8>) -> Option<Record> {
    match kind {
        RecordKind::Tick => match parse_varint(s) {
            Some((v, k)) => if k == s.len() && v <= u64::MAX {
                Some(Record::Tick(v as u64))
            } else {
                None
            },
            None => None,
        },
        RecordKind::Entity => match parse_entity(s) {
            Some((e, k)) => if k == s.len() {
                Some(Record::Entity(e))
            } else {
                None
            },
            None => None,
        },
        RecordKind::Mappings => match parse_mappings(s) {
            Some(m) => Some(Record::Mappings(m)),
            None => None,
        },
        RecordKind::FnIds => match parse_fn_ids(s) {
            Some(ids) => Some(Record::FnIds(ids)),
            None => None,
        },
        RecordKind::Component => match parse_varint(s) {
            Some((v, k)) => if v <= usize::MAX && k <= s.len() {
                Some(Record::Component(v as FnsId, s.skip(k as int)))
            } else {
                None
            },
            None => None,
        },
    }
}

/// Flattening distributes over concatenation.
pub proof fn lemma_flatten_concat(a: Seq<Seq<u8>>, b: Seq<Seq<u8>>)
    ensures
        (a + b).flatten() == a.flatten() + b.flatten(),
    decreases a.len(),
{
    if a.len() == 0 {
        assert(a + b =~= b);
    } else {
        lemma_flatten_concat(a.drop_first(), b);
        assert((a + b).drop_first() =~= a.drop_first() + b);
    }
}

proof fn lemma_mappings_bytes_push(m: Seq<(EntityId, EntityId)>, p: (EntityId, EntityId))
    ensures
        mappings_bytes(m.push(p)) == mappings_bytes(m) + pair_bytes(p),
{
    let f = |p: (EntityId, EntityId)| pair_bytes(p);
    assert(m.push(p).map_values(f) =~= m.map_values(f).push(pair_bytes(p)));
    m.map_values(f).lemma_flatten_push(pair_bytes(p));
}

proof fn lemma_fn_ids_bytes_push(ids: Seq<FnsId>, id: FnsId)
    ensures
        fn_ids_bytes(ids.push(id)) == fn_ids_bytes(ids) + varint(id as nat),
{
    let f = |id: FnsId| varint(id as nat);
    assert(ids.push(id).map_values(f) =~= ids.map_values(f).push(varint(id as nat)));
    ids.map_values(f).lemma_flatten_push(varint(id as nat));
}

proof fn lemma_fn_ids_round_trip(ids: Seq<FnsId>)
    ensures
        parse_fn_ids(fn_ids_bytes(ids)) == Some(ids),
    decreases ids.len(),
{
    if ids.len() > 0 {
        let f = |id: FnsId| varint(id as nat);
        let tail = ids.drop_first();
        assert(ids.map_values(f).drop_first() =~= tail.map_values(f));
        let s = fn_ids_bytes(ids);
        assert(s == varint(ids[0] as nat) + fn_ids_bytes(tail));
        lemma_varint_round_trip(ids[0] as nat, fn_ids_bytes(tail));
        assert(s.skip(varint(ids[0] as nat).len() as int) =~= fn_ids_bytes(tail));
        lemma_fn_ids_round_trip(tail);
        assert(seq![ids[0]] + tail =~= ids);
    } else {
        assert(fn_ids_bytes(ids) =~= Seq::empty());
    }
}

proof fn lemma_mappings_round_trip(m: Seq<(EntityId, EntityId)>)
    ensures
        parse_mappings(mappings_bytes(m)) == Some(m),
    decreases m.len(),
{
    if m.len() > 0 {
        let f = |p: (EntityId, EntityId)| pair_bytes(p);
        let tail = m.drop_first();
        assert(m.map_values(f).drop_first() =~= tail.map_values(f));
        let rest = mappings_bytes(tail);
        let s = mappings_bytes(m);
        let a = entity_bytes(m[0].0);
        let b = entity_bytes(m[0].1);
        assert(s =~= a + (b + rest));
        lemma_entity_round_trip(m[0].0, b + rest);
        assert(s.skip(a.len() as int) =~= b + rest);
        lemma_entity_round_trip(m[0].1, rest);
        assert(s.skip((a.len() + b.len()) as int) =~= rest);
        assert(a.len() >= 1) by {
            lemma_varint_round_trip(2 * m[0].0.index as nat, Seq::empty());
            lemma_varint_round_trip(2 * m[0].0.index as nat + 1, Seq::empty());
        }
        assert(b.len() >= 1) by {
            lemma_varint_round_trip(2 * m[0].1.index as nat, Seq::empty());
            lemma_varint_round_trip(2 * m[0].1.index as nat + 1, Seq::empty());
        }
        lemma_mappings_round_trip(tail);
        assert(seq![m[0]] + tail =~= m);
    } else {
        assert(mappings_bytes(m) =~= Seq::empty());
    }
}

/// Every record reads back from its own bytes.
pub proof fn lemma_record_round_trip(r: Record)
    ensures
        parse_record(record_kind(r), record_bytes(r)) == Some(r),
{
    match r {
        Record::Tick(t) => {
            lemma_varint_round_trip(t as nat, Seq::empty());
            assert(varint(t as nat) + Seq::empty() =~= varint(t as nat));
        },
        Record::Entity(e) => {
            lemma_entity_round_trip(e, Seq::empty());
            assert(entity_bytes(e) + Seq::empty() =~= entity_bytes(e));
        },
        Record::Mappings(m) => {
            lemma_mappings_round_trip(m);
        },
        Record::FnIds(ids) => {
            lemma_fn_ids_round_trip(ids);
        },
        Record::Component(id, payload) => {
            lemma_varint_round_trip(id as nat, payload);
            let s = varint(id as nat) + payload;
            assert(s.skip(varint(id as nat).len() as int) =~= payload);
        },
    }
}

/// Writing records one after another: the ranges handed back tile the buffer
/// from its start to its end in write order, the bytes in each range are
/// exactly that record's, and each range decodes back to the record written.
pub proof fn lemma_record_ranges(rs: Seq<Record>, i: int)
    requires
        0 <= i < rs.len(),
    ensures
        record_start(rs, 0) == 0,
        record_start(rs, rs.len() as int) == records_bytes(rs).len(),
        record_start(rs, i) <= record_start(rs, i + 1),
        records_bytes(rs).subrange(record_start(rs, i), record_start(rs, i + 1)) == record_bytes(
            rs[i],
        ),
        parse_record(
            record_kind(rs[i]),
            records_bytes(rs).subrange(record_start(rs, i), record_start(rs, i + 1)),
        ) == Some(rs[i]),
{
    let f = |r: Record| record_bytes(r);
    assert(rs.take(0).map_values(f) =~= Seq::<Seq<u8>>::empty());
    assert(rs.take(rs.len() as int) =~= rs);
    let pre = rs.take(i).map_values(f);
    let mid = seq![record_bytes(rs[i])];
    let post = rs.skip(i + 1).map_values(f);
    assert(rs.map_values(f) =~= pre + mid + post);
    assert(rs.take(i + 1).map_values(f) =~= pre + mid);
    lemma_flatten_concat(pre + mid, post);
    lemma_flatten_concat(pre, mid);
    mid.lemma_flatten_one_element();
    let whole = records_bytes(rs);
    assert(whole =~= pre.flatten() + record_bytes(rs[i]) + post.flatten());
    assert(whole.subrange(record_start(rs, i), record_start(rs, i + 1)) =~= record_bytes(rs[i]));
    lemma_record_round_trip(rs[i]);
}

/// A single continuous buffer that one outbound message is built in. Each write
/// appends one record and returns the byte range it occupies.
pub struct SerializedData {
    bytes: Vec<u8>,
}

impl View for SerializedData {
    type V = Seq<u8>;

    closed spec fn view(&self) -> Seq<u8> {
        self.bytes@
    }
}

impl SerializedData {
    pub fn new() -> (r: SerializedData)
        ensures
            r@ == Seq::<u8>::empty(),
    {
        SerializedData { bytes: Vec::new() }
    }

    pub fn len(&self) -> (r: usize)
        ensures
            r == self@.len(),
    {
        self.bytes.len()
    }

    pub fn as_slice(&self) -> (r: &[u8])
        ensures
            r@ == self@,
    {
        self.bytes.as_slice()
    }

    /// Cuts the buffer back to its first `len` bytes, the end of the last
    /// record known to be good.
    pub fn truncate(&mut self, len: usize)
        ensures
            len <= old(self)@.len() ==> final(self)@ == old(self)@.take(len as int),
            len > old(self)@.len() ==> final(self)@ == old(self)@,
    {
        self.bytes.truncate(len);
    }

    pub fn write_tick(&mut self, tick: u64) -> (r: core::ops::Range<usize>)
        ensures
            final(self)@ == old(self)@ + record_bytes(Record::Tick(tick)),
            r.start == old(self)@.len(),
            r.end == final(self)@.len(),
    {
        let start = self.bytes.len();
        write_varint(&mut self.bytes, tick);
        let end = self.bytes.len();
        start..end
    }

    pub fn write_entity(&mut self, entity: EntityId) -> (r: core::ops::Range<usize>)
        ensures
            final(self)@ == old(self)@ + record_bytes(Record::Entity(entity)),
            r.start == old(self)@.len(),
            r.end == final(self)@.len(),
    {
        let start = self.bytes.len();
        serialize_entity(&mut self.bytes, entity);
        let end = self.bytes.len();
        start..end
    }

    /// Writes (authoritative id, replica id) pairs back to back.
    pub fn write_mappings(&mut self, mappings: &[(EntityId, EntityId)]) -> (r: core::ops::Range<
        usize,
    >)
        ensures
            final(self)@ == old(self)@ + record_bytes(Record::Mappings(mappings@)),
            r.start == old(self)@.len(),
            r.end == final(self)@.len(),
    {
        let start = self.bytes.len();
        let mut i: usize = 0;
        while i < mappings.len()
            invariant
                i <= mappings@.len(),
                start == old(self)@.len(),
                self@ == old(self)@ + mappings_bytes(mappings@.take(i as int)),
            decreases mappings@.len() - i,
        {
            let (server_entity, client_entity) = mappings[i];
            serialize_entity(&mut self.bytes, server_entity);
            serialize_entity(&mut self.bytes, client_entity);
            proof {
                assert(mappings@.take(i + 1) =~= mappings@.take(i as int).push(mappings@[i as int]));
                lemma_mappings_bytes_push(mappings@.take(i as int), mappings@[i as int]);
                assert(self@ =~= old(self)@ + mappings_bytes(mappings@.take(i + 1)));
            }
            i = i + 1;
        }
        proof {
            assert(mappings@.take(i as int) =~= mappings@);
        }
        let end = self.bytes.len();
        start..end
    }

    /// Writes function ids back to back.
    pub fn write_fn_ids(&mut self, fn_ids: &[FnsId]) -> (r: core::ops::Range<usize>)
        ensures
            final(self)@ == old(self)@ + record_bytes(Record::FnIds(fn_ids@)),
            r.start == old(self)@.len(),
            r.end == final(self)@.len(),
    {
        let start = self.bytes.len();
        let mut i: usize = 0;
        while i < fn_ids.len()
            invariant
                i <= fn_ids@.len(),
                start == old(self)@.len(),
                self@ == old(self)@ + fn_ids_bytes(fn_ids@.take(i as int)),
            decreases fn_ids@.len() - i,
        {
            write_varint(&mut self.bytes, fn_ids[i] as u64);
            proof {
                assert(fn_ids@.take(i + 1) =~= fn_ids@.take(i as int).push(fn_ids@[i as int]));
                lemma_fn_ids_bytes_push(fn_ids@.take(i as int), fn_ids@[i as int]);
                assert(self@ =~= old(self)@ + fn_ids_bytes(fn_ids@.take(i + 1)));
            }
            i = i + 1;
        }
        proof {
            assert(fn_ids@.take(i as int) =~= fn_ids@);
        }
        let end = self.bytes.len();
        start..end
    }

    /// Writes a component: its function id, then the bytes that the type's
    /// serializer produced for the value.
    pub fn write_component(&mut self, fns_id: FnsId, payload: &[u8]) -> (r: core::ops::Range<
        usize,
    >)
        ensures
            final(self)@ == old(self)@ + record_bytes(Record::Component(fns_id, payload@)),
            r.start == old(self)@.len(),
            r.end == final(self)@.len(),
    {
        let start = self.bytes.len();
        write_varint(&mut self.bytes, fns_id as u64);
        let ghost mid = self@;
        let mut i: usize = 0;
        while i < payload.len()
            invariant
                i <= payload@.len(),
                self@ == mid + payload@.take(i as int),
            decreases payload@.len() - i,
        {
            self.bytes.push(payload[i]);
            proof {
                assert(payload@.take(i + 1) =~= payload@.take(i as int).push(payload@[i as int]));
                assert(self@ =~= mid + payload@.take(i + 1));
            }
            i = i + 1;
        }
        proof {
            assert(payload@.take(i as int) =~= payload@);
            assert(self@ =~= old(self)@ + record_bytes(Record::Component(fns_id, payload@)));
        }
        let end = self.bytes.len();
        start..end
    }
}

} // verus!
