use bin_diff::bytes_serializer::IntoBytesSerializer;
use bin_diff::diff_block::DiffBlock;
use bin_diff::drain::Drainable;
use bin_diff::readslice::ReadSlice;

#[test]
fn diff_block_diff_block_diff_add_greater_skip_test() {
    let data = ReadSlice::new(vec![1, 2, 3, 4, 5, 6, 7, 8, 9, 10]);
    let da = DiffBlock::Add { data };
    let db = DiffBlock::Skip { size: 4u32 };
    let op = da.diff(db);
    match op {
        (Some(DiffBlock::Add { mut data }), Some(DiffBlock::Add { data: mut datab }), None) => {
            let mut buf = data.read_remaining();
            assert_eq!(buf, [1, 2, 3, 4]);
            buf.extend(datab.read_remaining());
            assert_eq!(data.size(), 4);
            assert_eq!(datab.size(), 6);
            assert_eq!(buf, [1, 2, 3, 4, 5, 6, 7, 8, 9, 10]);
        }
        _ => panic!("wrong operation result"),
    }
}

#[test]
fn diffblock_diff_block_diff_add_greater_skip_test() {
    let data = ReadSlice::new(vec![1, 2, 3, 4, 5, 6, 7, 8, 9, 10]);
    let da = DiffBlock::Add { data };
    let db = DiffBlock::Skip { size: 4u32 };
    let op = da.diff(db);
    match op {
        (Some(DiffBlock::Add { mut data }), Some(DiffBlock::Add { data: mut datab }), None) => {
            let mut buf = data.read_remaining();
            assert_eq!(buf, [1, 2, 3, 4]);
            buf.extend(datab.read_remaining());
            assert_eq!(data.size(), 4);
            assert_eq!(datab.size(), 6);
            assert_eq!(buf, [1, 2, 3, 4, 5, 6, 7, 8, 9, 10]);
        }
        _ => panic!("wrong operation result"),
    }
}

#[test]
fn diff_block_diffblock_read_test() {
    let data = ReadSlice::new(vec![1, 2, 3, 4, 5, 6]);
    let block = DiffBlock::Add { data };
    let mut ser = block.into_bytes();
    let buf = ser.read_remaining();
    assert_eq!(
        buf,
        [
            0x00, 0x01, // action
            0x00, 0x00, 0x00, 6, // size
            1, 2, 3, 4, 5, 6 // data
        ]
    );
}

#[test]
fn diffblock_diffblock_read_test() {
    let data = ReadSlice::new(vec![1, 2, 3, 4, 5, 6]);
    let block = DiffBlock::Add { data };
    let mut ser = block.into_bytes();
    let mut buf = vec![0; 2 + 4 + 6];
    let n = ser.read(&mut buf);
    assert_eq!(n, 12);
    assert_eq!(
        buf,
        [
            0x00, 0x01, // action
            0x00, 0x00, 0x00, 6, // size
            1, 2, 3, 4, 5, 6 // data
        ]
    );
}

#[test]
fn diff_block_plus_remove_add_test() {
    let da = DiffBlock::Remove { size: 6u32 };
    let db = DiffBlock::Add { data: ReadSlice::new(vec![1, 2, 3, 4, 5, 6]) };
    let (merged, rest) = da.plus(db);
    assert!(rest.is_none());
    match merged {
        DiffBlock::ReplaceWithSameLength { data } => assert_eq!(data.size(), 6),
        _ => panic!("wrong operation result"),
    }
}

#[test]
fn drain_test() {
    let mut data = ReadSlice::new(vec![1, 2, 3, 4, 5, 6, 7, 8, 9, 10]).drain(3);
    let o = data.read_remaining().unwrap();
    assert_eq!(&o, &[4, 5, 6, 7, 8, 9, 10]);
}

#[test]
fn drain_too_short_test() {
    let mut data = ReadSlice::new(vec![1, 2]).drain(3);
    assert!(data.get_drained().is_err());
}
