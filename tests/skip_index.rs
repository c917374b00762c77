use docstore::checkpoint::{Checkpoint, DocId};
use docstore::skip_index::SkipIndex;
use docstore::skip_index_builder::SkipIndexBuilder;

fn collect(skip_index: &SkipIndex) -> Vec<Checkpoint> {
    let mut cursor = skip_index.cursor();
    let mut out = Vec::new();
    while let Some(c) = cursor.next() {
        out.push(c);
    }
    out
}

fn offset_test(doc: DocId) -> u64 {
    (doc as u64) * (doc as u64)
}

fn build(checkpoints: &[Checkpoint]) -> Vec<u8> {
    let mut builder = SkipIndexBuilder::new();
    for &c in checkpoints {
        builder.insert(c);
    }
    let mut output = Vec::new();
    builder.write(&mut output);
    output
}

fn squares(n: u32) -> Vec<Checkpoint> {
    (0..n)
        .map(|i| Checkpoint {
            first_doc: i,
            last_doc: i,
            start_offset: offset_test(i),
            end_offset: offset_test(i + 1),
        })
        .collect()
}

#[test]
fn test_skip_index_empty() {
    let mut output: Vec<u8> = Vec::new();
    let skip_index_builder: SkipIndexBuilder = SkipIndexBuilder::new();
    skip_index_builder.write(&mut output);
    let skip_index: SkipIndex = SkipIndex::from_bytes(output);
    let mut skip_cursor = skip_index.cursor();
    assert!(skip_cursor.next().is_none());
}

#[test]
fn test_skip_index_single_el() {
    let mut output: Vec<u8> = Vec::new();
    let mut skip_index_builder: SkipIndexBuilder = SkipIndexBuilder::new();
    let checkpoint = Checkpoint { first_doc: 0, last_doc: 2, start_offset: 0, end_offset: 3 };
    skip_index_builder.insert(checkpoint);
    skip_index_builder.write(&mut output);
    let skip_index: SkipIndex = SkipIndex::from_bytes(output);
    let mut skip_cursor = skip_index.cursor();
    assert_eq!(skip_cursor.next(), Some(checkpoint));
    assert_eq!(skip_cursor.next(), None);
}

#[test]
fn test_skip_index3() {
    let checkpoints = vec![
        Checkpoint { first_doc: 0, last_doc: 2, start_offset: 4, end_offset: 9 },
        Checkpoint { first_doc: 3, last_doc: 3, start_offset: 9, end_offset: 25 },
        Checkpoint { first_doc: 4, last_doc: 5, start_offset: 25, end_offset: 49 },
        Checkpoint { first_doc: 6, last_doc: 7, start_offset: 49, end_offset: 81 },
        Checkpoint { first_doc: 8, last_doc: 9, start_offset: 81, end_offset: 100 },
    ];
    let output = build(&checkpoints);
    let skip_index: SkipIndex = SkipIndex::from_bytes(output);
    assert_eq!(&collect(&skip_index)[..], &checkpoints[..]);
}

#[test]
fn test_skip_index9() {
    let output = build(&squares(4 * 4 * 4));
    assert_eq!(output.len(), 177);
    assert_eq!(output[0], 131u8);
}

#[test]
fn test_skip_index10() {
    let output = build(&squares(4 * 4 * 4 - 1));
    assert_eq!(output.len(), 170);
    assert_eq!(output[0], 130u8);
}

#[test]
fn test_skip_index11() {
    let output = build(&squares(4 * 4));
    assert_eq!(output.len(), 45);
    assert_eq!(output[0], 130u8);
}

#[test]
fn test_skip_index_simple() {
    let expected = squares(1000);
    let output = build(&expected);
    let skip_index = SkipIndex::from_bytes(output);
    let vals = collect(&skip_index);
    assert_eq!(&vals, &expected);
}

#[test]
fn empty_index_is_a_zero_count_header() {
    let output = build(&[]);
    assert_eq!(output, vec![128]);
    let skip_index = SkipIndex::from_bytes(output);
    assert_eq!(skip_index.seek(0), None);
}

#[test]
fn malformed_header_gives_no_layers() {
    let skip_index = SkipIndex::from_bytes(vec![131, 1]);
    assert!(collect(&skip_index).is_empty());
    assert_eq!(skip_index.seek(0), None);
    let skip_index = SkipIndex::from_bytes(Vec::new());
    assert!(collect(&skip_index).is_empty());
}

#[test]
fn layer_count_grows_at_each_power_of_period() {
    for (n, layers) in [(1u32, 129u8), (7, 129), (8, 130), (63, 130), (64, 131), (512, 132)] {
        let output = build(&squares(n));
        assert_eq!(output[0], layers, "n = {}", n);
    }
}

#[test]
fn seek_single_block() {
    let checkpoints = vec![
        Checkpoint { first_doc: 0, last_doc: 2, start_offset: 0, end_offset: 9 },
        Checkpoint { first_doc: 3, last_doc: 3, start_offset: 9, end_offset: 25 },
        Checkpoint { first_doc: 4, last_doc: 5, start_offset: 25, end_offset: 49 },
    ];
    let skip_index = SkipIndex::from_bytes(build(&checkpoints));
    assert_eq!(collect(&skip_index), checkpoints);
    assert_eq!(skip_index.seek(0), Some(checkpoints[0]));
    assert_eq!(skip_index.seek(2), Some(checkpoints[0]));
    assert_eq!(skip_index.seek(3), Some(checkpoints[1]));
    assert_eq!(skip_index.seek(5), Some(checkpoints[2]));
    assert_eq!(skip_index.seek(6), None);
}

#[test]
fn seek_in_two_layers() {
    let checkpoints = squares(60);
    let skip_index = SkipIndex::from_bytes(build(&checkpoints));
    for doc in 0..60u32 {
        assert_eq!(skip_index.seek(doc), Some(checkpoints[doc as usize]));
    }
    assert_eq!(skip_index.seek(60), None);
}

#[test]
fn cursor_over_gapless_run_of_documents() {
    let mut checkpoints = Vec::new();
    let mut doc = 0u32;
    let mut offset = 0u64;
    for i in 0..100u32 {
        let n = i % 3 + 1;
        let len = (i as u64 % 5) * 40 + 1;
        checkpoints.push(Checkpoint {
            first_doc: doc,
            last_doc: doc + n - 1,
            start_offset: offset,
            end_offset: offset + len,
        });
        doc += n;
        offset += len;
    }
    let skip_index = SkipIndex::from_bytes(build(&checkpoints));
    assert_eq!(collect(&skip_index), checkpoints);
}

#[test]
fn seek_in_four_layers() {
    let mut checkpoints = Vec::new();
    let mut doc = 0u32;
    let mut offset = 1000u64;
    for i in 0..700u32 {
        let n = i % 4 + 1;
        let len = (i as u64 * 37) % 300 + 1;
        checkpoints.push(Checkpoint {
            first_doc: doc,
            last_doc: doc + n - 1,
            start_offset: offset,
            end_offset: offset + len,
        });
        doc += n;
        offset += len;
    }
    let output = build(&checkpoints);
    assert_eq!(output[0], 132u8);
    let skip_index = SkipIndex::from_bytes(output);
    assert_eq!(collect(&skip_index), checkpoints);
    for target in 0..doc {
        let expected = checkpoints.iter().find(|c| c.last_doc >= target).cloned();
        assert_eq!(skip_index.seek(target), expected, "target {}", target);
    }
    assert_eq!(skip_index.seek(doc), None);
}
