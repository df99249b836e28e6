use replicon::entity::{deserialize_entity, serialize_entity, EntityId};
use replicon::serialized_data::SerializedData;
use replicon::varint::{read_varint, write_varint, DecodeError};

fn encode(n: u64) -> Vec<u8> {
    let mut buf = Vec::new();
    write_varint(&mut buf, n);
    buf
}

#[test]
fn varint_exact_bytes() {
    assert_eq!(encode(0), vec![0]);
    assert_eq!(encode(127), vec![127]);
    assert_eq!(encode(128), vec![0x80, 1]);
    assert_eq!(encode(300), vec![0xAC, 0x02]);
    assert_eq!(
        encode(u64::MAX),
        vec![0xFF, 0xFF, 0xFF, 0xFF, 0xFF, 0xFF, 0xFF, 0xFF, 0xFF, 0x01]
    );
}

#[test]
fn varint_round_trip_and_advance() {
    for n in [0u64, 1, 127, 128, 16383, 16384, 1 << 35, u64::MAX - 1, u64::MAX] {
        let mut buf = encode(n);
        buf.push(0x55);
        let mut bytes = bytes::Bytes::from(buf);
        assert_eq!(read_varint(&mut bytes), Ok(n));
        assert_eq!(&bytes[..], &[0x55]);
    }
}

#[test]
fn varint_rejects_malformed() {
    // Ends inside the varint.
    assert_eq!(read_varint(&mut bytes::Bytes::from(vec![0x80])), Err(DecodeError));
    assert_eq!(read_varint(&mut bytes::Bytes::new()), Err(DecodeError));
    // Redundant trailing zero group.
    assert_eq!(read_varint(&mut bytes::Bytes::from(vec![0x80, 0x00])), Err(DecodeError));
    // Above u64::MAX.
    assert_eq!(
        read_varint(&mut bytes::Bytes::from(vec![
            0xFF, 0xFF, 0xFF, 0xFF, 0xFF, 0xFF, 0xFF, 0xFF, 0xFF, 0x02
        ])),
        Err(DecodeError)
    );
    // Eleven bytes.
    assert_eq!(
        read_varint(&mut bytes::Bytes::from(vec![
            0x80, 0x80, 0x80, 0x80, 0x80, 0x80, 0x80, 0x80, 0x80, 0x80, 0x01
        ])),
        Err(DecodeError)
    );
}

#[test]
fn entity_exact_bytes() {
    let mut buf = Vec::new();
    serialize_entity(&mut buf, EntityId::from_raw(5));
    assert_eq!(buf, vec![10]);
    buf.clear();
    serialize_entity(&mut buf, EntityId::new(5, 3));
    assert_eq!(buf, vec![11, 2]);
    buf.clear();
    serialize_entity(&mut buf, EntityId::new(0, 0));
    assert_eq!(buf, vec![1, 0xFF, 0xFF, 0xFF, 0xFF, 0x0F]);
}

#[test]
fn entity_round_trip() {
    for e in [
        EntityId::from_raw(0),
        EntityId::new(u32::MAX, 1),
        EntityId::new(u32::MAX, u32::MAX),
        EntityId::new(12, 0),
        EntityId::new(70000, 2),
    ] {
        let mut buf = Vec::new();
        serialize_entity(&mut buf, e);
        let mut bytes = bytes::Bytes::from(buf);
        assert_eq!(deserialize_entity(&mut bytes), Ok(e));
        assert!(bytes.is_empty());
    }
}

#[test]
fn entity_rejects_large_index() {
    // Flagged index 2^33 does not fit.
    let mut buf = Vec::new();
    write_varint(&mut buf, 1 << 33);
    assert_eq!(deserialize_entity(&mut bytes::Bytes::from(buf)), Err(DecodeError));
}

#[test]
fn ranges_tile_buffer_and_decode() {
    let mut data = SerializedData::new();
    let tick = data.write_tick(1000);
    let entity = data.write_entity(EntityId::new(3, 4));
    let mappings = data.write_mappings(&[
        (EntityId::from_raw(1), EntityId::from_raw(2)),
        (EntityId::from_raw(3), EntityId::new(4, 5)),
    ]);
    let fn_ids = data.write_fn_ids(&[0, 5, 300]);
    let component = data.write_component(2, &[9, 8, 7]);

    let ranges = [tick, entity, mappings, fn_ids, component];
    assert_eq!(ranges[0].start, 0);
    for pair in ranges.windows(2) {
        assert_eq!(pair[0].end, pair[1].start);
    }
    assert_eq!(ranges[4].end, data.len());
    let mut joined = Vec::new();
    for r in &ranges {
        joined.extend_from_slice(&data.as_slice()[r.clone()]);
    }
    assert_eq!(joined, data.as_slice());

    let slice = |r: &core::ops::Range<usize>| bytes::Bytes::copy_from_slice(&data.as_slice()[r.clone()]);
    assert_eq!(read_varint(&mut slice(&ranges[0])), Ok(1000));
    assert_eq!(deserialize_entity(&mut slice(&ranges[1])), Ok(EntityId::new(3, 4)));
    let mut m = slice(&ranges[2]);
    assert_eq!(deserialize_entity(&mut m), Ok(EntityId::from_raw(1)));
    assert_eq!(deserialize_entity(&mut m), Ok(EntityId::from_raw(2)));
    assert_eq!(deserialize_entity(&mut m), Ok(EntityId::from_raw(3)));
    assert_eq!(deserialize_entity(&mut m), Ok(EntityId::new(4, 5)));
    assert!(m.is_empty());
    let mut f = slice(&ranges[3]);
    assert_eq!(read_varint(&mut f), Ok(0));
    assert_eq!(read_varint(&mut f), Ok(5));
    assert_eq!(read_varint(&mut f), Ok(300));
    assert!(f.is_empty());
    let mut c = slice(&ranges[4]);
    assert_eq!(read_varint(&mut c), Ok(2));
    assert_eq!(&c[..], &[9, 8, 7]);
}

#[test]
fn truncate_rolls_back_to_last_good_record() {
    let mut data = SerializedData::new();
    let good = data.write_tick(5);
    data.write_component(1, &[1, 2, 3]);
    data.truncate(good.end);
    assert_eq!(data.as_slice(), &[5]);
    data.truncate(10);
    assert_eq!(data.as_slice(), &[5]);
}
