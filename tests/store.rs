use docstore::checkpoint::Checkpoint;
use docstore::error::StoreError;
use docstore::skip_index_builder::SkipIndexBuilder;
use docstore::store::{split_file, StoreReader, StoreSpaceUsage};

/// A store of two blocks; the "decompressed" form of a block is taken to be
/// the block itself.
fn store_file() -> (Vec<u8>, Vec<Vec<u8>>) {
    let block0: Vec<u8> = vec![131, b'a', b'b', b'c', 129, b'd'];
    let block1: Vec<u8> = vec![130, b'x', b'y'];
    let mut file = Vec::new();
    file.extend_from_slice(&block0);
    file.extend_from_slice(&block1);
    let mut builder = SkipIndexBuilder::new();
    builder.insert(Checkpoint { first_doc: 0, last_doc: 1, start_offset: 0, end_offset: 6 });
    builder.insert(Checkpoint { first_doc: 2, last_doc: 2, start_offset: 6, end_offset: 9 });
    let offset = file.len() as u64;
    builder.write(&mut file);
    file.extend_from_slice(&offset.to_le_bytes());
    (file, vec![block0, block1])
}

#[test]
fn split_reads_the_trailer() {
    let (file, _) = store_file();
    assert_eq!(split_file(&file[..]), Ok(9));
    assert_eq!(split_file(&[1u8, 2, 3][..]), Err(StoreError::Truncated));
    let mut bad = vec![0u8; 4];
    bad.extend_from_slice(&100u64.to_le_bytes());
    assert_eq!(split_file(&bad[..]), Err(StoreError::InvalidData));
}

#[test]
fn store_reader_gets_documents() {
    let (file, blocks) = store_file();
    let total = file.len();
    let reader = StoreReader::open(file).unwrap();
    assert_eq!(reader.space_usage(), StoreSpaceUsage { data_usage: 9, offsets_usage: total - 8 - 9 });
    let cp = reader.block_offset(1).unwrap();
    assert_eq!(cp, Checkpoint { first_doc: 0, last_doc: 1, start_offset: 0, end_offset: 6 });
    assert_eq!(reader.compressed_block(cp).unwrap(), blocks[0]);
    assert_eq!(reader.get(0, &blocks[0]).unwrap(), b"abc".to_vec());
    assert_eq!(reader.get(1, &blocks[0]).unwrap(), b"d".to_vec());
    assert_eq!(reader.get(2, &blocks[1]).unwrap(), b"xy".to_vec());
    assert_eq!(reader.get(3, &blocks[1]), Err(StoreError::DocNotFound));
}

#[test]
fn store_reader_reports_short_blocks() {
    let (file, _) = store_file();
    let reader = StoreReader::open(file).unwrap();
    assert_eq!(reader.get(1, &[131u8, b'a', b'b', b'c'][..]), Err(StoreError::Truncated));
    assert_eq!(reader.get(0, &[133u8, b'a'][..]), Err(StoreError::Truncated));
    let far = Checkpoint { first_doc: 0, last_doc: 0, start_offset: 4, end_offset: 40 };
    assert_eq!(reader.compressed_block(far), Err(StoreError::InvalidData));
}

#[test]
fn store_reader_lists_blocks() {
    let (file, blocks) = store_file();
    let reader = StoreReader::open(file).unwrap();
    assert_eq!(reader.block_data().len(), blocks[0].len() + blocks[1].len());
    let mut cursor = reader.iter_blocks();
    assert_eq!(cursor.next(), Some(Checkpoint { first_doc: 0, last_doc: 1, start_offset: 0, end_offset: 6 }));
    assert_eq!(cursor.next(), Some(Checkpoint { first_doc: 2, last_doc: 2, start_offset: 6, end_offset: 9 }));
    assert_eq!(cursor.next(), None);
}

#[test]
fn store_file_too_short() {
    assert!(matches!(StoreReader::open(vec![1, 2, 3]), Err(StoreError::Truncated)));
}
