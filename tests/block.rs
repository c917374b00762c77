use docstore::block::Block;
use docstore::checkpoint::Checkpoint;
use docstore::error::StoreError;
use docstore::varint::{deserialize_vint, serialize_vint};

#[test]
fn test_block_serialize() {
    let mut block = Block::default();
    let offsets: Vec<u64> = (0..11).map(|i| i * i * i).collect();
    let mut first_doc = 0;
    for i in 0..10 {
        let last_doc = (i * i) as u32;
        block.push(Checkpoint {
            first_doc,
            last_doc: (i * i) as u32,
            start_offset: offsets[i],
            end_offset: offsets[i + 1],
        });
        first_doc = last_doc + 1;
    }
    let mut buffer = Vec::new();
    block.serialize(&mut buffer);
    let mut block_deser = Block::default();
    let checkpoint = Checkpoint { first_doc: 0, last_doc: 1, start_offset: 2, end_offset: 3 };
    block_deser.push(checkpoint); // overwritten by deserialize
    let mut pos = 0usize;
    block_deser.deserialize(&buffer[..], &mut pos, 0).unwrap();
    assert!(pos == buffer.len());
    assert_eq!(&block.checkpoints[..], &block_deser.checkpoints[..]);
}

#[test]
fn test_block_deserialize_empty() {
    let mut block = Block::default();
    let empty: &[u8] = &[];
    let mut pos = 0usize;
    let err = block.deserialize(empty, &mut pos, 0).err().unwrap();
    assert_eq!(err, StoreError::Truncated);
}

#[test]
fn block_serialized_bytes_are_exact() {
    let mut block = Block::default();
    block.push(Checkpoint { first_doc: 3, last_doc: 4, start_offset: 0, end_offset: 200 });
    block.push(Checkpoint { first_doc: 5, last_doc: 5, start_offset: 200, end_offset: 201 });
    let mut buffer = Vec::new();
    block.serialize(&mut buffer);
    // count 2, first byte offset 0, (2 docs, 200 bytes), (1 doc, 1 byte)
    assert_eq!(buffer, vec![130, 128, 130, 72, 129, 129, 129]);
    let mut back = Block::default();
    let mut pos = 0usize;
    back.deserialize(&buffer[..], &mut pos, 3).unwrap();
    assert_eq!(back.checkpoints, block.checkpoints);
}

#[test]
fn empty_block_is_one_byte() {
    let block = Block::default();
    let mut buffer = Vec::new();
    block.serialize(&mut buffer);
    assert_eq!(buffer, vec![128]);
    let mut other = Block::default();
    other.push(Checkpoint { first_doc: 0, last_doc: 0, start_offset: 0, end_offset: 1 });
    let mut pos = 0usize;
    other.deserialize(&buffer[..], &mut pos, 0).unwrap();
    assert_eq!(pos, 1);
    assert_eq!(other.len(), 0);
}

#[test]
fn block_round_trip_of_period() {
    let mut block = Block::default();
    let mut doc = 17u32;
    let mut offset = 4096u64;
    for i in 0..8u32 {
        let n = i + 1;
        block.push(Checkpoint {
            first_doc: doc,
            last_doc: doc + n - 1,
            start_offset: offset,
            end_offset: offset + 1000 * n as u64,
        });
        doc += n;
        offset += 1000 * n as u64;
    }
    let mut buffer = vec![7u8];
    block.serialize(&mut buffer);
    let mut back = Block::default();
    let mut pos = 1usize;
    back.deserialize(&buffer[..], &mut pos, 17).unwrap();
    assert_eq!(pos, buffer.len());
    assert_eq!(back.checkpoints, block.checkpoints);
}

#[test]
fn block_short_input_is_truncated() {
    let mut block = Block::default();
    block.push(Checkpoint { first_doc: 0, last_doc: 9, start_offset: 0, end_offset: 5 });
    let mut buffer = Vec::new();
    block.serialize(&mut buffer);
    buffer.pop();
    let mut back = Block::default();
    let mut pos = 0usize;
    assert_eq!(back.deserialize(&buffer[..], &mut pos, 0), Err(StoreError::Truncated));
    assert_eq!(pos, 0);
}

#[test]
fn block_zero_doc_count_is_invalid() {
    // count 1, first doc 0, zero documents, 4 bytes
    let bytes = vec![129u8, 128, 128, 132];
    let mut back = Block::default();
    let mut pos = 0usize;
    assert_eq!(back.deserialize(&bytes[..], &mut pos, 0), Err(StoreError::InvalidData));
}

#[test]
fn block_first_last_doc() {
    let mut block = Block::default();
    assert_eq!(block.first_last_doc(), None);
    block.push(Checkpoint { first_doc: 2, last_doc: 4, start_offset: 0, end_offset: 1 });
    block.push(Checkpoint { first_doc: 5, last_doc: 9, start_offset: 1, end_offset: 2 });
    assert_eq!(block.first_last_doc(), Some((2, 9)));
    assert_eq!(block.get(1).first_doc, 5);
    block.clear();
    assert_eq!(block.len(), 0);
}

#[test]
fn varint_encodes_with_stop_bit_on_last_byte() {
    let mut buf = Vec::new();
    serialize_vint(2, &mut buf);
    assert_eq!(buf, vec![130]);
    buf.clear();
    serialize_vint(300, &mut buf);
    assert_eq!(buf, vec![44, 130]);
    let mut pos = 0usize;
    assert_eq!(deserialize_vint(&buf[..], &mut pos), Ok(300));
    assert_eq!(pos, 2);
}

#[test]
fn varint_round_trips_extremes() {
    for v in [0u64, 127, 128, 16383, 16384, u32::MAX as u64, u64::MAX] {
        let mut buf = vec![1u8];
        serialize_vint(v, &mut buf);
        let mut pos = 1usize;
        assert_eq!(deserialize_vint(&buf[..], &mut pos), Ok(v));
        assert_eq!(pos, buf.len());
    }
}

#[test]
fn varint_errors() {
    let mut pos = 0usize;
    assert_eq!(deserialize_vint(&[5u8, 6][..], &mut pos), Err(StoreError::Truncated));
    assert_eq!(pos, 0);
    // 2^70 does not fit in 64 bits
    let too_big = vec![0u8, 0, 0, 0, 0, 0, 0, 0, 0, 0, 129];
    assert_eq!(deserialize_vint(&too_big[..], &mut pos), Err(StoreError::InvalidData));
}
