use bin_diff::diff::{
    apply_diff, combine_diffs, combine_diffs_vec, combine_diffs_vec_to_read_vec, create_diff,
    create_diff_from_parts,
};
use bin_diff::bytes_serializer::IntoBytesSerializer;
use bin_diff::diff_block::DiffBlock;
use bin_diff::diff_iterator::DiffIterator;
use bin_diff::diff_reader::DiffReader;
use bin_diff::error::DiffError;
use bin_diff::indexes::{Indexes, WithIndexes};
use bin_diff::readslice::ReadSlice;

fn text_parts(s: &str) -> (Vec<u8>, Indexes) {
    let data = s.as_bytes().to_vec();
    let mut ind = Indexes::new();
    let mut read: u64 = 0;
    for (i, line) in s.lines().enumerate() {
        let mut size = line.len() as u64 + 1;
        if read + size > data.len() as u64 {
            size = data.len() as u64 - read;
        }
        ind.insert(format!("line_{}", i), read, size);
        read += size;
    }
    (data, ind)
}

struct TextFile {
    contents: String,
}

impl WithIndexes for TextFile {
    fn get_indexes(&mut self) -> Result<Indexes, String> {
        let (_, ind) = text_parts(&self.contents);
        Ok(ind)
    }

    fn get_data(&mut self) -> Vec<u8> {
        self.contents.as_bytes().to_vec()
    }
}

fn make_diff(a: &str, b: &str) -> Vec<u8> {
    let (da, ia) = text_parts(a);
    let (db, ib) = text_parts(b);
    create_diff_from_parts(da, ia, db, ib).unwrap()
}

#[test]
fn diff_works_test() {
    let file = vec![
        0xd0, 0x4b, 0x51, 0x00, 0x25, 0xb6, 0x95, 0xf3, //
        0xb0, 0xa9, 0x59, 0xdc, 0x30, 0x35, 0x16, 0x7d, //
        0x06, 0xa1, 0xf7, 0x66, 0x64, 0x33, 0x05, 0xee, //
        0x2b, 0x35, 0xa9, 0x38, 0x80, 0x7f, 0x1c, 0x90, //
        0x2c, 0x29, 0x2a, 0x49, 0x79, 0x66, 0x83, 0x55, //
        0x8e, 0xce, 0x78, 0xd4, 0xef, 0x0f, 0xaa, 0xaa, //
        0x1c, 0x41, 0xaf, 0xa2, 0xed, 0x85, 0xb6, 0x16, //
        0x22, 0xe5, 0x83, 0x7a, 0xf7, 0x73, 0x78, 0xf5, //
        0xf5, 0x63, 0x3b, 0x0a, 0x6d, 0xe5, 0x0b, 0x36, //
        0x4b, 0x97, 0xc2, 0xfe, 0x84, 0x40, 0x3f, 0x74, //
        0x20, 0x4b, 0xbb, 0xfe, 0x4c, 0xe1, 0x87, 0xc2, //
        0x55, 0x71, 0xa3, 0x87, 0x55, 0xad, 0x87, 0xad, //
        0x08, 0x69, 0x39, 0x0f, 0x8d, 0xe2, 0x9a, 0xef, //
    ];

    let diff = vec![
        0x00, 0x00, 0x00, 0x00, 0x00, 0x10, // skip 16
        0x00, 0x01, 0x00, 0x00, 0x00, 0x20, // add 32
        0xef, 0x22, 0xe4, 0x2c, 0x5f, 0x3c, 0xde, 0x10, //
        0x8d, 0x27, 0x6c, 0xdd, 0xbc, 0xc6, 0xff, 0xf9, //
        0x5c, 0xe1, 0x81, 0x53, 0xda, 0x3b, 0xa6, 0x7e, //
        0xa9, 0xee, 0xe0, 0x00, 0x67, 0x24, 0x25, 0x78, // added 32 data
        0x00, 0x00, 0x00, 0x00, 0x00, 0x08, // skip 8
        0x00, 0x02, 0x00, 0x00, 0x00, 0x10, // remove 16
        0x00, 0x00, 0x00, 0x00, 0x00, 0x10, // skip 16
        0x00, 0x03, 0x00, 0x00, 0x00, 0x10, 0x00, 0x00, 0x00, 0x20, // replace 16 with 32
        0x23, 0x2a, 0xe9, 0x85, 0xfa, 0x6d, 0xb6, 0x78, //
        0xcd, 0x55, 0x66, 0xc2, 0x03, 0x80, 0x33, 0x3d, //
        0xc1, 0x8c, 0x62, 0xfb, 0xbb, 0xde, 0xe2, 0x53, //
        0xc7, 0x41, 0x0e, 0x82, 0xff, 0x60, 0x40, 0xf0, // added 32 data
        0x00, 0x00, 0x00, 0x00, 0x00, 0x20, // skip 32
    ];

    let result = vec![
        0xd0, 0x4b, 0x51, 0x00, 0x25, 0xb6, 0x95, 0xf3, //
        0xb0, 0xa9, 0x59, 0xdc, 0x30, 0x35, 0x16, 0x7d, // skipped
        0xef, 0x22, 0xe4, 0x2c, 0x5f, 0x3c, 0xde, 0x10, //
        0x8d, 0x27, 0x6c, 0xdd, 0xbc, 0xc6, 0xff, 0xf9, //
        0x5c, 0xe1, 0x81, 0x53, 0xda, 0x3b, 0xa6, 0x7e, //
        0xa9, 0xee, 0xe0, 0x00, 0x67, 0x24, 0x25, 0x78, // added
        0x06, 0xa1, 0xf7, 0x66, 0x64, 0x33, 0x05, 0xee, // skipped
        0x8e, 0xce, 0x78, 0xd4, 0xef, 0x0f, 0xaa, 0xaa, //
        0x1c, 0x41, 0xaf, 0xa2, 0xed, 0x85, 0xb6, 0x16, // skipped 16
        0x23, 0x2a, 0xe9, 0x85, 0xfa, 0x6d, 0xb6, 0x78, //
        0xcd, 0x55, 0x66, 0xc2, 0x03, 0x80, 0x33, 0x3d, //
        0xc1, 0x8c, 0x62, 0xfb, 0xbb, 0xde, 0xe2, 0x53, //
        0xc7, 0x41, 0x0e, 0x82, 0xff, 0x60, 0x40, 0xf0, // added 32
        0x4b, 0x97, 0xc2, 0xfe, 0x84, 0x40, 0x3f, 0x74, //
        0x20, 0x4b, 0xbb, 0xfe, 0x4c, 0xe1, 0x87, 0xc2, //
        0x55, 0x71, 0xa3, 0x87, 0x55, 0xad, 0x87, 0xad, //
        0x08, 0x69, 0x39, 0x0f, 0x8d, 0xe2, 0x9a, 0xef, // skipped 32
    ];

    let output = apply_diff(&file, &diff).unwrap();
    assert_eq!(output, result);
}

#[test]
fn action_fail_test() {
    let file = vec![
        0xd0, 0x4b, 0x51, 0x00, 0x25, 0xb6, 0x95, 0xf3, //
        0xb0, 0xa9, 0x59, 0xdc, 0x30, 0x35, 0x16, 0x7d, //
        0x06, 0xa1, 0xf7, 0x66, 0x64, 0x33, 0x05, 0xee, //
        0x2b, 0x35, 0xa9, 0x38, 0x80, 0x7f, 0x1c, 0x90, //
    ];

    let diff = vec![
        0x50, 0x53, 0x44, 0x44, 0x49, 0x46, 0x46, 0x31, //
        0x00, 0x01, //
        0x4a, 0x00, 0x00, 0x00, 0x00, 0x10, // skip 16
        0x00, 0x01, 0x00, 0x00, 0x00, 0x20, // add 32
    ];

    let res = apply_diff(&file, &diff);
    assert_eq!(
        res.unwrap_err().message(),
        "Unknown Action: possibly corrupted file or diff".to_string()
    )
}

#[test]
fn truncated_diff_test() {
    let file = vec![1, 2, 3, 4];
    let diff = vec![0x00, 0x01, 0x00, 0x00, 0x00, 0x06, 0x01, 0x02];
    let res = apply_diff(&file, &diff);
    assert_eq!(res.unwrap_err(), DiffError::UnexpectedEof);
    let header_cut = vec![0x00, 0x00, 0x00, 0x00];
    let res2 = apply_diff(&file, &header_cut);
    assert_eq!(res2.unwrap_err().message(), "Unexpected EOF".to_string());
}

#[test]
fn diff_iterator_works_test() {
    let text_a = "\n\t\t\t\they fellas\n\t\t\t\thave you header the news\n\t\t\t\tthe becky back in town\n\t\t\t\tyou should be worried\n\t\t\t\tcos i heard shes been down\n\t\t\t\tto the alley where the mishief runs\n\t\t\t\t";
    let text_b = "\n\t\t\t\they fellas\n\t\t\t\thave you header the news\n\t\t\t\tthe becky back in town\n\t\t\t\tmaybe tomorrow\n\t\t\t\tyou should be worried\n\t\t\t\tcos i heard shes been frown\n\t\t\t\tto the alley where the mishief runs\n\t\t\t\t";
    let (da, ia) = text_parts(text_a);
    let (db, ib) = text_parts(text_b);
    let mut it = DiffIterator::new(da, ia, db, ib).unwrap();
    let mut i = 0;
    while let Some(_block) = it.next_ref() {
        i += 1;
    }
    assert_eq!(i, 5);
}

#[test]
fn diff_works_live_test() {
    let a_a = "the quick brown fox\njumps over the lazy dog\nwhile the cat sleeps\nin the warm sun\n";
    let a_b = "the quick brown fox\nleaps over the lazy dog\nwhile the cat sleeps\nnear the window\nin the warm sun\n";
    let a_c = "a different opening\nleaps over the lazy dog\nwhile the cat sleeps\nnear the window\n";
    let inputs = [[a_a, a_b], [a_b, a_c], [a_a, a_c]];

    for pair in inputs.iter() {
        let pairs = [[pair[0], pair[1]], [pair[1], pair[0]]];
        for pair in pairs.iter() {
            let mut file_a = TextFile { contents: pair[0].to_string() };
            let mut file_b = TextFile { contents: pair[1].to_string() };
            let diff = create_diff(&mut file_a, &mut file_b).unwrap();
            let restored = apply_diff(&pair[0].as_bytes().to_vec(), &diff).unwrap();
            assert_eq!(restored, pair[1].as_bytes(), "pair failed");
        }
    }
}

#[test]
fn combine_diffs_works_live_test() {
    let a_a = "alpha line one\nbeta line two\ngamma line three\ndelta line four\n";
    let a_b = "alpha line one\nbeta line 2\ngamma line three\nextra line\ndelta line four\n";
    let a_c = "omega start\nbeta line 2\nextra line\ndelta line four\nlast line\n";
    let sets = [[a_b, a_c, a_a], [a_a, a_b, a_c], [a_c, a_a, a_b]];

    for set in sets.iter() {
        let diff_a_b = make_diff(set[0], set[1]);
        let diff_b_c = make_diff(set[1], set[2]);
        let combined = combine_diffs(diff_a_b, diff_b_c).unwrap();
        let restored = apply_diff(&set[0].as_bytes().to_vec(), &combined).unwrap();
        assert_eq!(restored, set[2].as_bytes());
    }
}

#[test]
fn combine_diffs_vec_works_live_test() {
    let a_a = "one fish\ntwo fish\nred fish\nblue fish\n";
    let a_b = "one fish\ntwo fish\nred fish\ngreen fish\nblue fish\n";
    let a_c = "one fish\nthree fish\ngreen fish\nblue fish\n";
    let a_d = "zero fish\nthree fish\ngreen fish\nblue fish\nthe end\n";

    let mut diffs = vec![
        make_diff(a_a, a_b),
        make_diff(a_b, a_c),
        make_diff(a_c, a_d),
    ];
    let acc = combine_diffs_vec(&mut diffs).unwrap();
    let restored = apply_diff(&a_a.as_bytes().to_vec(), &acc).unwrap();
    assert_eq!(restored, a_d.as_bytes());
}

#[test]
fn combine_diffs_vec_too_few_test() {
    let mut diffs = vec![make_diff("a\n", "b\n")];
    let res = combine_diffs_vec(&mut diffs);
    assert_eq!(
        res.unwrap_err().message(),
        "Number of diff must be greater than one".to_string()
    );
}

#[test]
fn combine_diffs_vec_to_read_vec_test() {
    let a = "first\nsecond\n";
    let b = "first\nchanged\n";
    let c = "first\nchanged\nthird\n";
    let mut diffs = vec![make_diff(a, b), make_diff(b, c)];
    let mut reads = combine_diffs_vec_to_read_vec(&mut diffs).unwrap();
    let mut wire = Vec::new();
    for r in reads.iter_mut() {
        wire.extend(r.read_remaining());
    }
    let restored = apply_diff(&a.as_bytes().to_vec(), &wire).unwrap();
    assert_eq!(restored, c.as_bytes());
}

#[test]
fn create_failed_test() {
    let mut bad = Indexes::new();
    bad.insert("line_0".to_string(), 0, 100);
    let (db, ib) = text_parts("ok\n");
    let res = create_diff_from_parts(vec![1, 2, 3], bad, db, ib);
    assert_eq!(
        res.unwrap_err().message(),
        "Error while creating DiffIterator".to_string()
    );
}

#[test]
fn replace_eq_preference_test() {
    let a = "aa\nbb\ncc\n";
    let b = "aa\ndd\ncc\n";
    let diff = make_diff(a, b);
    let mut reader = DiffReader::new(ReadSlice::new(diff));
    let blocks = reader.consume().unwrap();
    let mut saw_replace_eq = false;
    for block in blocks.into_iter() {
        match block {
            DiffBlock::Replace { remove_size, data } => {
                assert_ne!(remove_size as u64, data.size());
            }
            DiffBlock::ReplaceWithSameLength { .. } => {
                saw_replace_eq = true;
            }
            _ => {}
        }
    }
    assert!(saw_replace_eq);
}

#[test]
fn codec_round_trip_test() {
    let a = "x1\nx2\nx3\n";
    let b = "x1\nyy2\nx3\n";
    let diff = make_diff(a, b);
    let mut reader = DiffReader::new(ReadSlice::new(diff.clone()));
    let blocks = reader.consume().unwrap();
    let mut rebuilt = Vec::new();
    for block in blocks.into_iter() {
        let mut ser = block.into_bytes();
        rebuilt.extend(ser.read_remaining());
    }
    assert_eq!(rebuilt, diff);
}

#[test]
fn empty_diff_is_identity_test() {
    let a = "same\ntext\n";
    let diff = make_diff(a, a);
    let restored = apply_diff(&a.as_bytes().to_vec(), &diff).unwrap();
    assert_eq!(restored, a.as_bytes());
    let mut reader = DiffReader::new(ReadSlice::new(diff));
    let blocks = reader.consume().unwrap();
    let mut total: u64 = 0;
    for block in blocks.into_iter() {
        match block {
            DiffBlock::Skip { size } => total += size as u64,
            _ => panic!("identical files must diff to keep-only blocks"),
        }
    }
    assert_eq!(total, a.len() as u64);
}

