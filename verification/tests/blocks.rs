use path_oram::block::{decode_block, encode_block, PlainBlock};
use path_oram::bytes::{push_le, read_le};

#[test]
fn numbers_are_little_endian() {
    let mut out = vec![9u8];
    push_le(&mut out, 0x0102_0304_0506_0708, 8);
    assert_eq!(out, vec![9, 8, 7, 6, 5, 4, 3, 2, 1]);
    assert_eq!(read_le(&out, 1, 8), 0x0102_0304_0506_0708);
    assert_eq!(read_le(&out, 1, 2), 0x0708);
    assert_eq!(read_le(&out, 4, 0), 0);
    assert_eq!(read_le(&[255u8; 8], 0, 8), u64::MAX);
    let mut short = Vec::new();
    push_le(&mut short, 0x1_0203, 2);
    assert_eq!(short, vec![3, 2]);
}

#[test]
fn plaintext_has_header_and_data() {
    let b = PlainBlock::new_real(0x0A0B, 7, vec![1, 2, 3]);
    assert_eq!(
        encode_block(&b, 3),
        vec![0x0B, 0x0A, 0, 0, 0, 0, 0, 0, 7, 0, 0, 0, 0, 0, 0, 0, 1, 2, 3]
    );
    let d = PlainBlock::dummy(2);
    assert_eq!(
        encode_block(&d, 2),
        vec![0, 0, 0, 0, 0, 0, 0, 0, 0, 0, 0, 0, 1, 0, 0, 0, 0, 0]
    );
}

#[test]
fn decoding_undoes_encoding() {
    let b = PlainBlock::new_real(u64::MAX - 1, u32::MAX - 2, vec![250, 0, 5, 6]);
    let back = decode_block(&encode_block(&b, 4), 4);
    assert_eq!(back.id, b.id);
    assert_eq!(back.leaf, b.leaf);
    assert!(!back.is_dummy);
    assert_eq!(back.data, b.data);
    let dummy = decode_block(&encode_block(&PlainBlock::dummy(4), 4), 4);
    assert!(dummy.is_dummy);
    assert_eq!(dummy.id, 0);
    assert_eq!(dummy.leaf, 0);
    assert_eq!(dummy.data, vec![0u8; 4]);
}

#[test]
fn only_bit_zero_of_the_flags_counts() {
    let mut buf = vec![0u8; 16];
    buf[12] = 0xFE;
    buf[13] = 0xFF;
    assert!(!decode_block(&buf, 0).is_dummy);
    buf[12] = 0xFF;
    assert!(decode_block(&buf, 0).is_dummy);
}

#[test]
fn cloned_block_is_equal() {
    let b = PlainBlock::new_real(3, 4, vec![5, 6]);
    let c = b.clone();
    assert_eq!((c.id, c.leaf, c.is_dummy, c.data), (3, 4, false, vec![5, 6]));
}
