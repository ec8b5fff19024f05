use bin_diff::readslice::ReadSlice;

#[test]
fn readslice_works_test() {
    let vec = vec![1, 2, 3, 4, 5, 6, 7, 8, 9, 10];
    let mut slice = ReadSlice::new(vec.clone());
    let mut buf = vec![0; 10];
    slice.read(&mut buf);
    assert_eq!(buf, vec);
}

#[test]
fn chain_test() {
    let vec = vec![1, 2, 3, 4, 5];
    let vecb = vec![6, 7, 8, 9, 10];
    let data = ReadSlice::new(vec);
    let datab = ReadSlice::new(vecb);
    let mut slice = ReadSlice::chain(&data, datab);
    let mut buf = vec![0; 10];
    slice.read(&mut buf);
    assert_eq!(buf, [1, 2, 3, 4, 5, 6, 7, 8, 9, 10]);
}

#[test]
fn chain_sl_test() {
    let vec = vec![1, 2, 3, 4, 5];
    let vecb = vec![6, 7, 8, 9, 10];
    let data = ReadSlice::new(vec);
    let datab = ReadSlice::new(vecb);
    let mut slice = ReadSlice::chain(&data, datab);
    let buf = slice.read_remaining();
    assert_eq!(buf, [1, 2, 3, 4, 5, 6, 7, 8, 9, 10]);
}

#[test]
fn rewind_test() {
    let vec = vec![1, 2, 3, 4, 5];
    let mut slice = ReadSlice::new(vec.clone());
    let mut buf = vec![0; 5];
    slice.read(&mut buf);
    slice.rewind();
    let again = slice.read_remaining();
    assert_eq!(again, vec);
}

#[test]
fn offset_test() {
    let vec = vec![1, 2, 3, 4, 5, 6, 7, 8, 9, 10];
    let data = ReadSlice::new(vec);
    let mut slice = ReadSlice::offset(&data, 3);
    let mut buf = vec![0; 10];
    slice.read(&mut buf);
    assert_eq!(buf, [4, 5, 6, 7, 8, 9, 10, 0, 0, 0]);
}

#[test]
fn take_test() {
    let vec = vec![1, 2, 3, 4, 5, 6, 7, 8, 9, 10];
    let data = ReadSlice::new(vec);
    let mut slice = ReadSlice::take(&data, 7);
    let mut buf = vec![0; 10];
    slice.read(&mut buf);
    assert_eq!(buf, [1, 2, 3, 4, 5, 6, 7, 0, 0, 0]);
}

#[test]
fn fn_test() {
    let vec = vec![1, 2, 3, 4, 5, 6, 7, 8, 9, 10];
    let vecb = vec![11, 12, 13, 14, 15, 16, 17, 18, 19, 20];
    let data = ReadSlice::new(vec);
    let datab = ReadSlice::new(vecb);
    let mut slice = ReadSlice::take(&ReadSlice::chain(&data, datab).offset(11), 5);
    let mut buf = vec![0; 10];
    slice.read(&mut buf);
    assert_eq!(buf, [12, 13, 14, 15, 16, 0, 0, 0, 0, 0]);
}
