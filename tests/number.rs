use bytebuf::{Buffer, Bytes, BytesAble, Number};

#[test]
fn test_number_for_slice() {
    let buf = [0x01u8, 0x02, 3, 4, 5, 6, 7, 8, 9, 10];
    assert_eq!(1, buf.u8(0));
    assert_eq!(0x04030201, buf.u32_le(0));
    assert_eq!(0x01020304, buf.u32_be(0));
}

#[test]
fn test_number_for_buffer() {
    let mut buf = Buffer::new();
    buf.push(Bytes::from(vec![0x01u8, 0x02]));
    buf.push(Bytes::from(vec![3, 4, 5, 6, 7, 8, 9, 10]));
    assert_eq!(1, buf.u8(0));
    assert_eq!(0x04030201, buf.u32_le(0));
    assert_eq!(0x01020304, buf.u32_be(0));
}

fn fragmented(data: &[u8], cut: usize) -> Buffer {
    let mut buf = Buffer::new();
    buf.push_with_min_unit(Bytes::from(&data[..cut]), 0);
    buf.push_with_min_unit(Bytes::from(&data[cut..]), 0);
    buf
}

#[test]
fn numbers_of_every_width() {
    let data: Vec<u8> = (1..=20).collect();
    let s = data.as_slice();
    assert_eq!(0x0102, s.u16_be(0));
    assert_eq!(0x0201, s.u16_le(0));
    assert_eq!(0x010203, s.u24_be(0));
    assert_eq!(0x030201, s.u24_le(0));
    assert_eq!(0x0102030405060708, s.u64_be(0));
    assert_eq!(0x0807060504030201, s.u64_le(0));
    assert_eq!(0x0102030405060708090a0b0c0d0e0f10, s.u128_be(0));
    assert_eq!(0x100f0e0d0c0b0a090807060504030201, s.u128_le(0));
    assert_eq!(0x05060708090a0b0c0d0e0f1011121314, s.u128_be(4));
    assert_eq!(20, s.size());
}

#[test]
fn numbers_agree_whatever_the_chunking() {
    let data: Vec<u8> = (0..40).map(|i| (i * 37 + 11) as u8).collect();
    let flat = data.as_slice();
    for cut in 1..data.len() {
        let buf = fragmented(&data, cut);
        for i in 0..=data.len() - 16 {
            assert_eq!(flat.u16_be(i), buf.u16_be(i));
            assert_eq!(flat.u16_le(i), buf.u16_le(i));
            assert_eq!(flat.u24_be(i), buf.u24_be(i));
            assert_eq!(flat.u24_le(i), buf.u24_le(i));
            assert_eq!(flat.u32_be(i), buf.u32_be(i));
            assert_eq!(flat.u32_le(i), buf.u32_le(i));
            assert_eq!(flat.u64_be(i), buf.u64_be(i));
            assert_eq!(flat.u64_le(i), buf.u64_le(i));
            assert_eq!(flat.u128_be(i), buf.u128_be(i));
            assert_eq!(flat.u128_le(i), buf.u128_le(i));
            assert_eq!(u32::from_be_bytes([data[i], data[i + 1], data[i + 2], data[i + 3]]), buf.u32_be(i));
            assert_eq!(u64::from_le_bytes(data[i..i + 8].try_into().unwrap()), buf.u64_le(i));
        }
    }
}

#[test]
fn signed_numbers_are_twos_complement() {
    let s = [0xffu8, 0xfe, 0x80, 0x00, 0x00, 0x00, 0x00, 0x00, 0x00, 0x00, 0x00, 0x00, 0x00, 0x00, 0x00, 0x01];
    let v = &s[..];
    assert_eq!(-1, v.i8(0));
    assert_eq!(-2, v.i16_be(0));
    assert_eq!(-257, v.i16_le(0));
    // a 24-bit value sits zero-extended in 32 bits, so it reads as non-negative
    assert_eq!(0xfe8000, v.i24_be(1));
    assert_eq!(0x80feff, v.i24_le(0));
    assert_eq!(i32::from_be_bytes([0xff, 0xfe, 0x80, 0x00]), v.i32_be(0));
    assert_eq!(i32::from_le_bytes([0xff, 0xfe, 0x80, 0x00]), v.i32_le(0));
    assert_eq!(i64::from_be_bytes([0xff, 0xfe, 0x80, 0, 0, 0, 0, 0]), v.i64_be(0));
    assert_eq!(i64::from_le_bytes([0xff, 0xfe, 0x80, 0, 0, 0, 0, 0]), v.i64_le(0));
    assert_eq!(i128::from_be_bytes(s), v.i128_be(0));
    assert_eq!(i128::from_le_bytes(s), v.i128_le(0));
    assert!(v.i128_be(0) < 0);
}

#[test]
fn capability_over_every_source() {
    let raw: &[u8] = &[1, 2, 3, 4, 5];
    let bytes = Bytes::from(vec![1u8, 2, 3, 4, 5]);
    let buffer = fragmented(&[1, 2, 3, 4, 5], 2);
    assert_eq!(vec![2u8, 3, 4], BytesAble::slice(raw, 1, 4).to_vec());
    assert_eq!(vec![2u8, 3, 4], BytesAble::slice(&bytes, 1, 4).to_vec());
    assert_eq!(vec![2u8, 3, 4], BytesAble::slice(&buffer, 1, 4).to_vec());
    assert_eq!(vec![4u8, 5], BytesAble::slice_from(raw, 3).to_vec());
    assert_eq!(vec![1u8, 2], BytesAble::slice_to(&buffer, 2).to_vec());
    assert_eq!(3, BytesAble::at(&buffer, 2));
    assert_eq!(3, BytesAble::at(&bytes, 2));
    assert_eq!(3, BytesAble::at(raw, 2));
    assert!(!BytesAble::is_empty(&buffer));
    assert!(BytesAble::is_empty(&[][..]));
    assert_eq!(vec![1u8, 2, 3, 4, 5], BytesAble::to_vec(&buffer));
    assert_eq!(5, BytesAble::to_bytes(raw).len());
    assert_eq!(1, BytesAble::to_buffer(&buffer).chunk_count());
    let mut sum = 0u32;
    BytesAble::for_each(&buffer, &mut |b: &u8| sum += *b as u32);
    assert_eq!(15, sum);
}
