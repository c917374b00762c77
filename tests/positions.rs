use docstore::positions::{PositionReader, PositionSerializer};

fn create_stream_buffer(vals: &[u32]) -> (Vec<u8>, Vec<u8>) {
    let mut serializer = PositionSerializer::new();
    for (i, &val) in vals.iter().enumerate() {
        assert_eq!(serializer.positions_idx(), i as u64);
        serializer.write(val);
    }
    serializer.close()
}

#[test]
fn test_position_read() {
    let v: Vec<u32> = (0..1000).collect();
    let (stream, skip) = create_stream_buffer(&v[..]);
    assert_eq!(skip.len(), 12);
    assert_eq!(stream.len(), 1168);
    let mut position_reader = PositionReader::new(stream, skip, 0u64);
    let mut start = 0u32;
    for &n in &[1, 10, 127, 128, 130, 312] {
        let mut v = vec![0u32; n];
        position_reader.read(&mut v[..n]);
        for i in 0..n {
            assert_eq!(v[i], start + i as u32);
        }
        start += n as u32;
    }
}

#[test]
fn test_position_skip() {
    let v: Vec<u32> = (0..1_000).collect();
    let (stream, skip) = create_stream_buffer(&v[..]);
    assert_eq!(skip.len(), 12);
    assert_eq!(stream.len(), 1168);

    let mut position_reader = PositionReader::new(stream, skip, 0u64);
    position_reader.skip(10);
    for &n in &[127] {
        let mut v = vec![0u32; n];
        position_reader.read(&mut v[..n]);
        for i in 0..n {
            assert_eq!(v[i], 10u32 + i as u32);
        }
    }
}

#[test]
fn test_position_read_after_skip() {
    let v: Vec<u32> = (0..1_000).collect();
    let (stream, skip) = create_stream_buffer(&v[..]);
    assert_eq!(skip.len(), 12);
    assert_eq!(stream.len(), 1168);

    let mut position_reader = PositionReader::new(stream, skip, 0u64);
    let mut buf = [0u32; 7];
    let mut c = 0;
    for _ in 0..47 {
        position_reader.read(&mut buf);
        for &el in &buf {
            assert_eq!(c, el);
            c += 1;
        }
        position_reader.read(&mut buf);
        for &el in &buf {
            assert_eq!(c, el);
            c += 1;
        }
        position_reader.skip(4);
        position_reader.skip(3);
        c += 7;
    }
}

#[test]
fn test_position_long_skip_const() {
    const CONST_VAL: u32 = 9u32;
    let v: Vec<u32> = std::iter::repeat(CONST_VAL).take(2_000_000).collect();
    let (stream, skip) = create_stream_buffer(&v[..]);
    assert_eq!(skip.len(), 15_749);
    assert_eq!(stream.len(), 1_000_000);
    let mut position_reader = PositionReader::new(stream, skip, 128 * 1024);
    let mut buf = [0u32; 1];
    position_reader.read(&mut buf);
    assert_eq!(buf[0], CONST_VAL);
}

#[test]
fn test_position_long_skip_2() {
    let v: Vec<u32> = (0..2_000_000).collect();
    let (stream, skip) = create_stream_buffer(&v[..]);
    assert_eq!(skip.len(), 15_749);
    assert_eq!(stream.len(), 4_987_872);
    for &offset in &[10, 128 * 1024, 128 * 1024 - 1, 128 * 1024 + 7, 128 * 10 * 1024 + 10] {
        let mut position_reader = PositionReader::new(stream.clone(), skip.clone(), offset);
        let mut buf = [0u32; 1];
        position_reader.read(&mut buf);
        assert_eq!(buf[0], offset as u32);
    }
}

#[test]
fn empty_stream_has_only_the_count() {
    let (stream, skip) = create_stream_buffer(&[]);
    assert!(stream.is_empty());
    assert_eq!(skip, vec![0, 0, 0, 0]);
}

#[test]
fn zero_block_takes_no_stream_bytes() {
    let (stream, skip) = create_stream_buffer(&[0u32; 200]);
    assert!(stream.is_empty());
    assert_eq!(skip, vec![0, 0, 0, 0, 0, 0]);
    let mut reader = PositionReader::new(stream, skip, 150);
    let mut buf = [7u32; 3];
    reader.read(&mut buf);
    assert_eq!(buf, [0, 0, 0]);
}

#[test]
fn one_block_widths_and_lengths() {
    // 128 values below 2^5, then a block holding u32::MAX
    let mut v: Vec<u32> = (0..128).map(|i| i % 32).collect();
    v.push(u32::MAX);
    let (stream, skip) = create_stream_buffer(&v[..]);
    assert_eq!(skip, vec![5, 32, 0, 0, 0, 0]);
    assert_eq!(stream.len(), 16 * 5 + 16 * 32);
    let mut reader = PositionReader::new(stream, skip, 126);
    let mut buf = [0u32; 3];
    reader.read(&mut buf);
    assert_eq!(buf, [30, 31, u32::MAX]);
}

#[test]
fn long_skip_entry_points_at_block_start() {
    let v: Vec<u32> = vec![1u32; 131_072];
    let (stream, skip) = create_stream_buffer(&v[..]);
    // 1024 one-bit blocks, then one long skip entry, then the count
    assert_eq!(stream.len(), 1024 * 16);
    assert_eq!(skip.len(), 1024 + 8 + 4);
    assert_eq!(&skip[1024..1032], &(16384u64).to_le_bytes()[..]);
    assert_eq!(&skip[1032..], &[1, 0, 0, 0][..]);
}

#[test]
fn reading_backwards_after_a_long_jump() {
    let v: Vec<u32> = (0..300_000).map(|i| i * 3).collect();
    let (stream, skip) = create_stream_buffer(&v[..]);
    for &offset in &[299_999u64, 5, 262_143, 131_072, 0] {
        let mut reader = PositionReader::new(stream.clone(), skip.clone(), offset);
        let mut buf = [0u32; 1];
        reader.read(&mut buf);
        assert_eq!(buf[0], v[offset as usize]);
    }
    let mut reader = PositionReader::new(stream, skip, 262_140);
    let mut buf = [0u32; 10];
    reader.read(&mut buf);
    assert_eq!(&buf[..], &v[262_140..262_150]);
}
