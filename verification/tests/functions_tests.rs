use bin_diff::functions::{
    cmp_read_small, compute_hash, read_usize_be, read_usize_le, u16_to_u8_be_vec,
    u32_to_u8_be_vec, u64_to_u8_be_vec, u_to_i16_be, vec_shift, vec_to_i16_be, vec_to_u32_be,
    vec_to_usize_be, vec_to_usize_le,
};
use bin_diff::readslice::ReadSlice;

#[test]
fn u16_to_u8_be_vec_test() {
    let b = u16_to_u8_be_vec(10u16);
    assert_eq!(b, vec![0x00, 10]);
}

#[test]
fn u32_to_u8_be_vec_test() {
    let b = u32_to_u8_be_vec(10u32);
    assert_eq!(b, vec![0x00, 0x00, 0x00, 10]);
}

#[test]
fn u64_to_u8_be_vec_test() {
    assert_eq!(
        u64_to_u8_be_vec(10u64),
        vec![0x00, 0x00, 0x00, 0x00, 0x00, 0x00, 0x00, 10]
    );
}

#[test]
fn vec_to_u32_be_test() {
    assert_eq!(vec_to_u32_be(&[0x00, 0x00, 0x00, 0x10]), 16);
}

#[test]
fn vec_to_i16_be_test() {
    assert_eq!(vec_to_i16_be(&[0b0000_0001]), 1);
    assert_eq!(vec_to_i16_be(&[0b1000_0000, 0b0000_0000]), -32768);
    assert_eq!(vec_to_i16_be(&[0b1111_1111, 0b1111_1111]), -1);
}

#[test]
fn u_to_i16_be_test() {
    assert_eq!(u_to_i16_be(1), 1);
    assert_eq!(u_to_i16_be(0x8000), -32768);
    assert_eq!(u_to_i16_be(0xffff), -1);
}

#[test]
fn vec_to_usize_be_test() {
    assert_eq!(vec_to_usize_be(&[0x01, 0x00]), 256);
    assert_eq!(vec_to_usize_be(&[0x12, 0x34, 0x56]), 0x123456);
}

#[test]
fn vec_to_usize_le_test() {
    assert_eq!(vec_to_usize_le(&[0x00, 0x01]), 256);
    assert_eq!(vec_to_usize_le(&[0x56, 0x34, 0x12]), 0x123456);
}

#[test]
fn read_usize_be_le_test() {
    let mut r = ReadSlice::new(vec![0x00, 0x02, 0x02, 0x00]);
    assert_eq!(read_usize_be(&mut r, 2).unwrap(), 2);
    assert_eq!(read_usize_le(&mut r, 2).unwrap(), 2);
    assert!(read_usize_be(&mut r, 2).is_err());
}

#[test]
fn vec_shift_test() {
    let mut v = vec![1, 2, 3];
    assert_eq!(vec_shift(&mut v), Some(1));
    assert_eq!(v, vec![2, 3]);
    let mut e: Vec<u8> = vec![];
    assert_eq!(vec_shift(&mut e), None);
}

#[test]
fn cmp_read_test() {
    let mut a = ReadSlice::new(vec![1, 2, 3, 4, 5, 6, 7, 8]);
    let mut b = ReadSlice::new(vec![1, 2, 3, 4, 5, 6, 7, 8]);
    assert_eq!(cmp_read_small(&mut a, &mut b).unwrap(), true);

    let mut a = ReadSlice::new(vec![1, 2, 3, 4, 5, 6, 7, 8]);
    let mut b = ReadSlice::new(vec![1, 2, 3, 4, 5, 6, 7, 10]);
    assert_eq!(cmp_read_small(&mut a, &mut b).unwrap(), false);

    let mut a = ReadSlice::new(vec![1, 2, 3, 4, 5, 6, 7, 8]);
    let mut b = ReadSlice::new(vec![1, 2, 3, 4, 5, 6, 7, 8, 9]);
    assert_eq!(cmp_read_small(&mut a, &mut b).unwrap(), false);

    let mut a = ReadSlice::new(vec![1, 2, 3, 4, 5, 6, 7, 8]);
    let mut b = ReadSlice::new(vec![1, 2, 3, 4, 5, 6, 7]);
    assert_eq!(cmp_read_small(&mut a, &mut b).unwrap(), false);
}

#[test]
fn compute_hash_test() {
    let empty: Vec<u8> = vec![];
    assert_eq!(
        compute_hash(&empty),
        "e3b0c44298fc1c149afbf4c8996fb92427ae41e4649b934ca495991b7852b855"
    );
    let abc: Vec<u8> = vec![b'a', b'b', b'c'];
    assert_eq!(
        compute_hash(&abc),
        "ba7816bf8f01cfea414140de5dae2223b00361a396177a9cb410ff61f20015ad"
    );
}
