use bytebuf::{BytesAble, Bytes, Number};
use std::sync::Arc;

#[test]
fn test_bytes_slice() {
    let bytes = Bytes::from(vec![0u8, 1, 2, 3, 4, 5, 6, 7, 8, 9, 10]);
    assert_eq!(11, bytes.len());
    assert_eq!(0, bytes[0]);
    assert_eq!(10, bytes[10]);
    let bytes2 = bytes.slice(1, 5);
    assert_eq!(4, bytes2.len());
    assert_eq!(1, bytes2[0]);
    assert_eq!(4, bytes2[3]);
    let bytes3 = bytes2.slice(1, 4);
    assert_eq!(3, bytes3.len());
    assert_eq!(3, Arc::strong_count(bytes.storage()));
}

#[test]
fn test_bytes_truncate() {
    let mut bytes = Bytes::from(vec![0u8, 1, 2, 3, 4, 5, 6, 7, 8, 9, 10]);
    assert_eq!(11, bytes.len());
    bytes.truncate_to(10); // 0u8, 1, 2, 3, 4, 5, 6, 7, 8, 9
    assert_eq!(10, bytes.len());
    assert_eq!(0, bytes[0]);
    assert_eq!(9, bytes[9]);
    bytes.truncate_from(1); // 1, 2, 3, 4, 5, 6, 7, 8, 9
    assert_eq!(9, bytes.len());
    assert_eq!(1, bytes[0]);
    assert_eq!(9, bytes[8]);
    bytes.truncate(1, 8); // 2, 3, 4, 5, 6, 7, 8
    assert_eq!(7, bytes.len());
    assert_eq!(2, bytes[0]);
    assert_eq!(8, bytes[6]);
    assert_eq!(1, Arc::strong_count(bytes.storage()));
}

#[test]
fn test_bytes_take() {
    let mut bytes = Bytes::from(vec![0u8, 1, 2, 3, 4, 5, 6, 7, 8, 9, 10]);
    assert_eq!(11, bytes.len());
    let mut bytes2 = bytes.take_from(1); // 1, 2, 3, 4, 5, 6, 7, 8, 9, 10
    assert_eq!(1, bytes.len());
    assert_eq!(0, bytes[0]);
    assert_eq!(10, bytes2.len());
    assert_eq!(1, bytes2[0]);
    assert_eq!(10, bytes2[9]);
    let bytes3 = bytes2.take_to(9); // 1, 2, 3, 4, 5, 6, 7, 8, 9
    assert_eq!(1, bytes2.len());
    assert_eq!(10, bytes2[0]);
    assert_eq!(9, bytes3.len());
    assert_eq!(1, bytes3[0]);
    assert_eq!(9, bytes3[8]);
    assert_eq!(3, Arc::strong_count(bytes3.storage()));
}

fn bytes_of(b: &Bytes) -> Vec<u8> {
    let mut v = Vec::new();
    b.for_each(&mut |x: &u8| v.push(*x));
    v
}

#[test]
fn bytes_slice_shares_storage_and_outlives_source() {
    let bytes = Bytes::from_vec(vec![10u8, 11, 12, 13, 14]);
    let part = bytes.slice(1, 4);
    assert_eq!(2, Arc::strong_count(bytes.storage()));
    assert!(Arc::ptr_eq(bytes.storage(), part.storage()));
    drop(bytes);
    assert_eq!(1, Arc::strong_count(part.storage()));
    assert_eq!(vec![11u8, 12, 13], bytes_of(&part));
}

#[test]
fn bytes_slice_matches_index() {
    let bytes = Bytes::from(vec![5u8, 6, 7, 8, 9, 10, 11]);
    for from in 0..=bytes.len() {
        for to in from..=bytes.len() {
            let s = bytes.slice(from, to);
            assert_eq!(to - from, s.len());
            for j in 0..s.len() {
                assert_eq!(bytes[from + j], s[j]);
            }
        }
    }
}

#[test]
fn bytes_from_every_source() {
    let shared = Arc::new(vec![1u8, 2, 3]);
    let a = Bytes::from(shared.clone());
    assert!(Arc::ptr_eq(&shared, a.storage()));
    assert_eq!(vec![1u8, 2, 3], bytes_of(&a));
    let b = Bytes::from(&[4u8, 5][..]);
    assert_eq!(vec![4u8, 5], bytes_of(&b));
    let c = Bytes::from_arc_vec(shared);
    assert_eq!(3, c.len());
    let e = Bytes::from(Vec::new());
    assert!(e.is_empty());
    assert_eq!(0, e.len());
}

#[test]
fn bytes_take_partition_at_the_ends() {
    let mut a = Bytes::from(vec![1u8, 2, 3]);
    let rest = a.take_from(0);
    assert_eq!(0, a.len());
    assert_eq!(vec![1u8, 2, 3], bytes_of(&rest));

    let mut b = Bytes::from(vec![1u8, 2, 3]);
    let rest = b.take_from(3);
    assert_eq!(vec![1u8, 2, 3], bytes_of(&b));
    assert!(rest.is_empty());

    let mut c = Bytes::from(vec![1u8, 2, 3]);
    let head = c.take_to(3);
    assert_eq!(vec![1u8, 2, 3], bytes_of(&head));
    assert!(c.is_empty());

    let mut d = Bytes::from(vec![1u8, 2, 3]);
    let head = d.take_to(0);
    assert!(head.is_empty());
    assert_eq!(vec![1u8, 2, 3], bytes_of(&d));
}

#[test]
fn bytes_slice_at_and_copy() {
    let bytes = Bytes::from(vec![1u8, 2, 3, 4, 5]).slice(1, 4);
    assert_eq!(&[3u8, 4][..], bytes.slice_at(1));
    assert!(bytes.slice_at(3).is_empty());
    let mut target = [0u8; 2];
    bytes.copy_to_slice(1, &mut target);
    assert_eq!([3u8, 4], target);
    let from_start = bytes.slice_from(1);
    assert_eq!(vec![3u8, 4], bytes_of(&from_start));
    let to_end = bytes.slice_to(2);
    assert_eq!(vec![2u8, 3], bytes_of(&to_end));
}

#[test]
fn bytes_clone_is_a_second_view() {
    let a = Bytes::from(vec![9u8, 8, 7]);
    let b = a.clone();
    assert_eq!(2, Arc::strong_count(a.storage()));
    assert_eq!(bytes_of(&a), bytes_of(&b));
}

#[test]
fn bytes_read_numbers() {
    let bytes = Bytes::from(vec![0xffu8, 0x01, 0x02, 0x03, 0x04]);
    assert_eq!(0xff, bytes.u8(0));
    assert_eq!(-1, bytes.i8(0));
    assert_eq!(0x01020304, bytes.u32_be(1));
    assert_eq!(0x04030201, bytes.u32_le(1));
    assert_eq!(5, bytes.size());
    let whole = BytesAble::slice(&bytes, 1, 3);
    assert_eq!(vec![1u8, 2], whole.to_vec());
}
