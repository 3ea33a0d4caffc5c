use bytebuf::{Buffer, Bytes, Cursor};

fn three_chunks() -> Buffer {
    // chunks of 2, 0 and 3 bytes are kept apart by a zero threshold
    let mut buf = Buffer::new();
    buf.push_with_min_unit(Bytes::from(vec![1u8, 2]), 0);
    buf.push_with_min_unit(Bytes::from(vec![3u8, 4, 5]), 0);
    buf.push_with_min_unit(Bytes::from(vec![6u8, 7, 8, 9]), 0);
    buf
}

#[test]
fn cursor_seek_to_finds_the_chunk() {
    let buf = three_chunks();
    assert_eq!(Cursor { chunk: 0, offset: 0 }, buf.seek_to(0));
    assert_eq!(Cursor { chunk: 0, offset: 1 }, buf.seek_to(1));
    assert_eq!(Cursor { chunk: 1, offset: 0 }, buf.seek_to(2));
    assert_eq!(Cursor { chunk: 1, offset: 2 }, buf.seek_to(4));
    assert_eq!(Cursor { chunk: 2, offset: 3 }, buf.seek_to(8));
    assert_eq!(Cursor { chunk: 3, offset: 0 }, buf.seek_to(9));
    for pos in 0..9 {
        let c = buf.seek_to(pos);
        assert_eq!(pos, buf.position(c));
        assert_eq!(9 - pos, buf.remaining(c));
    }
}

#[test]
fn cursor_past_end_is_canonical_and_stable() {
    let buf = three_chunks();
    let end = Cursor { chunk: 3, offset: 0 };
    let mut c = buf.seek_to(100);
    assert_eq!(end, c);
    for _ in 0..3 {
        c = buf.seek_to(usize::MAX);
        assert_eq!(end, c);
        c = buf.advance_cursor(c, 5);
        assert_eq!(end, c);
        c = buf.seek_relative(c, isize::MAX);
        assert_eq!(end, c);
        assert_eq!(0, buf.remaining(c));
    }
    let empty = Buffer::new();
    assert_eq!(Cursor { chunk: 0, offset: 0 }, empty.seek_to(7));
}

#[test]
fn cursor_relative_moves_clamp() {
    let buf = three_chunks();
    let c = buf.seek_to(4);
    assert_eq!(Cursor { chunk: 2, offset: 1 }, buf.seek_relative(c, 2));
    assert_eq!(Cursor { chunk: 0, offset: 1 }, buf.seek_relative(c, -3));
    assert_eq!(Cursor { chunk: 0, offset: 0 }, buf.seek_relative(c, -100));
    assert_eq!(Cursor { chunk: 0, offset: 0 }, buf.seek_relative(c, isize::MIN));
    assert_eq!(Cursor { chunk: 3, offset: 0 }, buf.seek_relative(c, 5));
    assert_eq!(Cursor { chunk: 2, offset: 0 }, buf.advance_cursor(c, 1));
    assert_eq!(Cursor { chunk: 3, offset: 0 }, buf.advance_cursor(c, 5));
    assert_eq!(Cursor { chunk: 3, offset: 0 }, buf.advance_cursor(c, usize::MAX));
}

#[test]
fn cursor_skips_empty_chunks() {
    let mut buf = Buffer::new();
    buf.push_with_min_unit(Bytes::from(vec![1u8]), 0);
    buf.pipe(Buffer::from(Bytes::from(Vec::new())));
    buf.push_with_min_unit(Bytes::from(vec![2u8]), 0);
    assert_eq!(3, buf.chunk_count());
    assert_eq!(0, buf.chunk_len(1));
    assert_eq!(Cursor { chunk: 2, offset: 0 }, buf.seek_to(1));
    assert_eq!(Cursor { chunk: 3, offset: 0 }, buf.seek_to(2));
}
