//! Entity identifiers and their encoding on the wire.

use vstd::prelude::*;

use crate::message::bytes_view;
use crate::varint::{
    lemma_varint_len, lemma_varint_round_trip, read_varint, varint, varint_len, varint_value, write_varint,
    DecodeError, parse_varint,
};

verus! {

/// An entity identifier: an index and the generation of that index. The two
/// sides of a connection allocate them independently.
#[derive(Clone, Copy, Debug, PartialEq, Eq, Structural, Hash)]
pub struct EntityId {
    pub index: u32,
    pub generation: u32,
}

/// The id that never names a live entity; as a destination it stands for the
/// authoritative side itself.
pub open spec fn placeholder_id() -> EntityId {
    EntityId { index: u32::MAX, generation: 1 }
}

pub const TWO_POW_32: u64 = 0x1_0000_0000;

impl EntityId {
    /// The id of `index` in its first generation.
    pub fn from_raw(index: u32) -> (r: EntityId)
        ensures
            r == (EntityId { index, generation: 1 }),
    {
        EntityId { index, generation: 1 }
    }

    pub fn new(index: u32, generation: u32) -> (r: EntityId)
        ensures
            r == (EntityId { index, generation }),
    {
        EntityId { index, generation }
    }

    /// The placeholder id; see [`placeholder_id`].
    pub fn placeholder() -> (r: EntityId)
        ensures
            r == placeholder_id(),
    {
        EntityId { index: u32::MAX, generation: 1 }
    }

    pub open spec fn bits_spec(self) -> u64 {
        (self.generation as int * TWO_POW_32 + self.index as int) as u64
    }

    /// The id packed in one integer: the generation above the index.
    pub fn to_bits(&self) -> (r: u64)
        ensures
            r == self.bits_spec(),
            r == self.generation as int * TWO_POW_32 + self.index as int,
    {
        self.generation as u64 * TWO_POW_32 + self.index as u64
    }
}

/// Packing into one integer keeps ids apart.
pub proof fn lemma_bits_injective(a: EntityId, b: EntityId)
    ensures
        a.bits_spec() == b.bits_spec() <==> a == b,
{
    let k = TWO_POW_32 as int;
    let x = a.generation as int * k + a.index as int;
    let y = b.generation as int * k + b.index as int;
    assert(0 <= x < 0x1_0000_0000_0000_0000) by (nonlinear_arith)
        requires
            x == a.generation as int * k + a.index as int,
            k == 0x1_0000_0000,
            a.generation <= u32::MAX,
            a.index <= u32::MAX,
    ;
    assert(0 <= y < 0x1_0000_0000_0000_0000) by (nonlinear_arith)
        requires
            y == b.generation as int * k + b.index as int,
            k == 0x1_0000_0000,
            b.generation <= u32::MAX,
            b.index <= u32::MAX,
    ;
    if x == y {
        assert(a.generation == b.generation && a.index == b.index) by (nonlinear_arith)
            requires
                a.generation as int * k + a.index as int == b.generation as int * k
                    + b.index as int,
                k == 0x1_0000_0000,
                0 <= a.index < k,
                0 <= b.index < k,
                0 <= a.generation,
                0 <= b.generation,
        ;
    }
}

/// What is written for a generation other than the first: the generation less
/// one, wrapping, so that every generation has an encoding.
pub open spec fn generation_delta(generation: u32) -> nat {
    if generation == 0 {
        u32::MAX as nat
    } else {
        (generation - 1) as nat
    }
}

/// The bytes of an entity id: the index shifted left by one with a flag in the
/// low bit telling whether a generation other than the first follows.
pub open spec fn entity_bytes(e: EntityId) -> Seq<u8> {
    if e.generation == 1 {
        varint(2 * e.index as nat)
    } else {
        varint(2 * e.index as nat + 1) + varint(generation_delta(e.generation))
    }
}

/// The entity id at the front of `s` and how many bytes it takes.
pub open spec fn parse_entity(s: Seq<u8>) -> Option<(EntityId, nat)> {
    match parse_varint(s) {
        None => None,
        Some((f, k)) => if f / 2 > u32::MAX {
            None
        } else if f % 2 == 0 {
            Some((EntityId { index: (f / 2) as u32, generation: 1 }, k))
        } else {
            match parse_varint(s.skip(k as int)) {
                None => None,
                Some((g, k2)) => if g > u32::MAX {
                    None
                } else {
                    Some(
                        (
                            EntityId {
                                index: (f / 2) as u32,
                                generation: if g == u32::MAX {
                                    0
                                } else {
                                    (g + 1) as u32
                                },
                            },
                            k + k2,
                        ),
                    )
                },
            }
        },
    }
}

pub open spec fn parsed_entity(s: Seq<u8>) -> EntityId {
    match parse_entity(s) {
        Some((e, _)) => e,
        None => placeholder_id(),
    }
}

pub open spec fn parsed_entity_len(s: Seq<u8>) -> nat {
    match parse_entity(s) {
        Some((_, k)) => k,
        None => 0,
    }
}

/// An entity id takes at least one byte and no more than there are.
pub proof fn lemma_entity_len(s: Seq<u8>)
    requires
        parse_entity(s) is Some,
    ensures
        1 <= parsed_entity_len(s) <= s.len(),
{
    lemma_varint_len(s);
    let k = varint_len(s);
    if parse_varint(s.skip(k as int)) is Some {
        lemma_varint_len(s.skip(k as int));
    }
}

/// Decoding what `entity_bytes` wrote gives back the id, whatever follows it.
pub proof fn lemma_entity_round_trip(e: EntityId, rest: Seq<u8>)
    ensures
        parse_entity(entity_bytes(e) + rest) == Some((e, entity_bytes(e).len())),
{
    let s = entity_bytes(e) + rest;
    if e.generation == 1 {
        lemma_varint_round_trip(2 * e.index as nat, rest);
    } else {
        let f = 2 * e.index as nat + 1;
        let g = generation_delta(e.generation);
        assert(s =~= varint(f) + (varint(g) + rest));
        lemma_varint_round_trip(f, varint(g) + rest);
        assert(s.skip(varint(f).len() as int) =~= varint(g) + rest);
        lemma_varint_round_trip(g, rest);
    }
}

/// Appends the encoding of `entity` to `message`.
pub fn serialize_entity(message: &mut Vec<u8>, entity: EntityId)
    ensures
        final(message)@ == old(message)@ + entity_bytes(entity),
{
    if entity.generation == 1 {
        write_varint(message, 2 * entity.index as u64);
    } else {
        write_varint(message, 2 * entity.index as u64 + 1);
        write_varint(message, entity.generation.wrapping_sub(1) as u64);
        assert(message@ =~= old(message)@ + entity_bytes(entity));
    }
}

/// Reads an entity id from the front of `message`.
pub fn deserialize_entity(message: &mut bytes::Bytes) -> (r: Result<EntityId, DecodeError>)
    ensures
        r is Ok <==> parse_entity(bytes_view(*old(message))) is Some,
        r is Ok ==> r->Ok_0 == parsed_entity(bytes_view(*old(message))),
        r is Ok ==> 1 <= parsed_entity_len(bytes_view(*old(message))) <= bytes_view(
            *old(message),
        ).len(),
        r is Ok ==> bytes_view(*final(message)) == bytes_view(*old(message)).skip(
            parsed_entity_len(bytes_view(*old(message))) as int,
        ),
{
    let ghost s = bytes_view(*message);
    let flagged = match read_varint(message) {
        Ok(v) => v,
        Err(e) => {
            return Err(e);
        },
    };
    let ghost k = varint_len(s);
    if flagged / 2 > u32::MAX as u64 {
        return Err(DecodeError);
    }
    let index = (flagged / 2) as u32;
    if flagged % 2 == 0 {
        return Ok(EntityId { index, generation: 1 });
    }
    let ghost t = bytes_view(*message);
    let delta = match read_varint(message) {
        Ok(v) => v,
        Err(e) => {
            return Err(e);
        },
    };
    if delta > u32::MAX as u64 {
        return Err(DecodeError);
    }
    proof {
        assert(t =~= s.skip(k as int));
        assert(bytes_view(*message) =~= s.skip((k + varint_len(t)) as int));
    }
    Ok(EntityId { index, generation: (delta as u32).wrapping_add(1) })
}

} // verus!
