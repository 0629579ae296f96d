use bytes::Bytes;
use rowstream::cursor::{schema_is_valid, CursorError, Pull, RemoteCursor};
use rowstream::decode::{decode_row, FieldKind, Outcome};
use rowstream::pending::PendingBuffer;

/// Drives a cursor over `chunks`, then the end of input; returns the rows
/// and the error it stopped with, if any.
fn run(
    schema: Vec<FieldKind>,
    chunks: Vec<Vec<u8>>,
) -> (Vec<Vec<Vec<u8>>>, Option<CursorError>, RemoteCursor) {
    let mut cursor = RemoteCursor::new(schema);
    let mut rows = Vec::new();
    let mut source = chunks.into_iter();
    loop {
        match cursor.pull() {
            Pull::Row(r) => rows.push(r),
            Pull::NeedChunk => match cursor.feed(source.next().map(|c| Ok(Bytes::from(c)))) {
                None => {}
                Some(Pull::Failed(e)) => return (rows, Some(e), cursor),
                Some(Pull::Finished) => return (rows, None, cursor),
                Some(other) => panic!("unexpected {:?}", other),
            },
            Pull::Failed(e) => return (rows, Some(e), cursor),
            Pull::Finished => return (rows, None, cursor),
        }
    }
}

fn text(s: &[u8]) -> Vec<u8> {
    let mut out = Vec::new();
    let mut n = s.len();
    loop {
        let b = (n % 128) as u8;
        n /= 128;
        if n == 0 {
            out.push(b);
            break;
        }
        out.push(b | 0x80);
    }
    out.extend_from_slice(s);
    out
}

fn three_records() -> Vec<u8> {
    let mut bytes = Vec::new();
    for (a, b) in [(&b"alpha"[..], &b"0123456789"[..]), (b"", b"abcdefghij"), (b"xyz", b"ZZZZZZZZZZ")] {
        bytes.extend(text(a));
        bytes.extend_from_slice(b);
    }
    bytes
}

fn two_field_schema() -> Vec<FieldKind> {
    vec![FieldKind::Text, FieldKind::FixedText(10)]
}

#[test]
fn length_prefixed_field_across_two_chunks() {
    let mut buf = PendingBuffer::new();
    let mut scratch = vec![0u8; 1024];
    let schema = vec![FieldKind::Text];
    buf.push(Bytes::from(vec![3, b'a', b'b']));
    assert!(matches!(decode_row(&schema, &mut buf, &mut scratch), Outcome::NeedData));
    buf.rollback();
    buf.push(Bytes::from(vec![b'c']));
    match decode_row(&schema, &mut buf, &mut scratch) {
        Outcome::Row(r) => assert_eq!(r, vec![b"abc".to_vec()]),
        other => panic!("unexpected {:?}", other),
    }
    assert_eq!(buf.remaining(), 0);
    buf.commit();
    assert_eq!(buf.remaining(), 0);
    assert_eq!(buf.held_len(), 0);

    let (rows, err, _) = run(schema, vec![vec![3, b'a', b'b'], vec![b'c']]);
    assert_eq!(rows, vec![vec![b"abc".to_vec()]]);
    assert_eq!(err, None);
}

#[test]
fn fixed_width_field_across_three_chunks() {
    let value: Vec<u8> = (0..50u8).map(|i| b'a' + i % 26).collect();
    let chunks = vec![value[..20].to_vec(), value[20..40].to_vec(), value[40..].to_vec()];
    let (rows, err, _) = run(vec![FieldKind::FixedText(50)], chunks);
    assert_eq!(rows, vec![vec![value.clone()]]);
    assert_eq!(rows[0][0].len(), 50);
    assert_eq!(err, None);
}

#[test]
fn large_field_grows_scratch_to_8192() {
    let value: Vec<u8> = (0..5000u32).map(|i| (i % 251) as u8).collect();
    let bytes = text(&value);
    assert_eq!(&bytes[..2], &[0x88, 0x27]);

    let mut buf = PendingBuffer::new();
    let mut scratch = vec![0u8; 1024];
    buf.push(Bytes::from(bytes.clone()));
    match decode_row(&vec![FieldKind::Text], &mut buf, &mut scratch) {
        Outcome::NeedScratch(n) => assert_eq!(n, 5000 - 1024),
        other => panic!("unexpected {:?}", other),
    }

    let mut cursor = RemoteCursor::new(vec![FieldKind::Text]);
    assert_eq!(cursor.scratch_capacity(), 1024);
    assert!(cursor.feed(Some(Ok(Bytes::from(bytes)))).is_none());
    match cursor.pull() {
        Pull::Row(r) => {
            assert_eq!(r.len(), 1);
            assert_eq!(r[0], value);
        }
        other => panic!("unexpected {:?}", other),
    }
    assert_eq!(cursor.scratch_capacity(), 8192);
}

#[test]
fn chunk_boundaries_do_not_change_rows() {
    let bytes = three_records();
    let (whole, err, _) = run(two_field_schema(), vec![bytes.clone()]);
    assert_eq!(err, None);
    assert_eq!(whole.len(), 3);
    assert_eq!(whole[0], vec![b"alpha".to_vec(), b"0123456789".to_vec()]);
    assert_eq!(whole[1], vec![b"".to_vec(), b"abcdefghij".to_vec()]);
    assert_eq!(whole[2], vec![b"xyz".to_vec(), b"ZZZZZZZZZZ".to_vec()]);

    let singles: Vec<Vec<u8>> = bytes.iter().map(|b| vec![*b]).collect();
    let (split, err, _) = run(two_field_schema(), singles);
    assert_eq!(err, None);
    assert_eq!(split, whole);

    for size in 2..bytes.len() {
        let chunks: Vec<Vec<u8>> = bytes.chunks(size).map(|c| c.to_vec()).collect();
        let (rows, err, _) = run(two_field_schema(), chunks);
        assert_eq!(err, None);
        assert_eq!(rows, whole);
    }
}

#[test]
fn retries_do_not_change_a_row_or_what_it_consumes() {
    let value: Vec<u8> = vec![7u8; 3000];
    let mut bytes = text(&value);
    bytes.extend(text(b"tail"));
    let one = {
        let mut c = RemoteCursor::new(vec![FieldKind::Text]);
        c.feed(Some(Ok(Bytes::from(bytes.clone()))));
        let r = c.pull();
        (r, c.retained_len())
    };
    let many = {
        let mut c = RemoteCursor::new(vec![FieldKind::Text]);
        let mut pulls = 0;
        let mut at = 0;
        loop {
            pulls += 1;
            match c.pull() {
                Pull::NeedChunk => {
                    let end = (at + 7).min(bytes.len());
                    c.feed(Some(Ok(Bytes::copy_from_slice(&bytes[at..end]))));
                    at = end;
                }
                r => break (r, c.retained_len(), pulls, at),
            }
        }
    };
    assert!(many.2 > 1);
    match (one.0, many.0) {
        (Pull::Row(a), Pull::Row(b)) => {
            assert_eq!(a, b);
            assert_eq!(a[0], value);
        }
        other => panic!("unexpected {:?}", other),
    }
    // Bytes consumed: the whole of the first row in both cases.
    let row_len = bytes.len() - 5;
    assert_eq!(one.1, bytes.len() - row_len);
    assert_eq!(many.1, many.3 - row_len);
}

#[test]
fn scratch_capacity_is_a_growing_power_of_two() {
    let mut bytes = Vec::new();
    for n in [10usize, 2000, 100, 5000, 4096, 9000, 3] {
        bytes.extend(text(&vec![1u8; n]));
    }
    let mut cursor = RemoteCursor::new(vec![FieldKind::Text]);
    cursor.feed(Some(Ok(Bytes::from(bytes))));
    let mut last = cursor.scratch_capacity();
    let mut count = 0;
    while let Pull::Row(r) = cursor.pull() {
        let cap = cursor.scratch_capacity();
        assert!(cap.is_power_of_two());
        assert!(cap >= last);
        assert!(cap >= r[0].len());
        last = cap;
        count += 1;
    }
    assert_eq!(count, 7);
    assert_eq!(last, 16384);
}

#[test]
fn retained_bytes_are_pushed_minus_committed() {
    let mut buf = PendingBuffer::new();
    buf.push(Bytes::from(vec![1, 2, 3]));
    buf.push(Bytes::new());
    buf.push(Bytes::from(vec![4, 5]));
    assert_eq!(buf.remaining(), 5);
    assert_eq!(buf.next_byte(), Some(1));
    assert_eq!(buf.next_byte(), Some(2));
    assert_eq!(buf.remaining(), 3);
    buf.rollback();
    buf.rollback();
    assert_eq!(buf.remaining(), 5);
    for expected in 1..=4u8 {
        assert_eq!(buf.next_byte(), Some(expected));
    }
    buf.commit();
    // The first chunk is released; one byte of the second stays.
    assert_eq!(buf.remaining(), 1);
    assert_eq!(buf.held_len(), 2);
    assert!(buf.has_retained());
    assert_eq!(buf.next_byte(), Some(5));
    assert_eq!(buf.next_byte(), None);
    buf.commit();
    assert_eq!(buf.held_len(), 0);
    assert!(!buf.has_retained());
}

#[test]
fn clean_end_yields_nothing_more() {
    let (rows, err, mut cursor) = run(vec![FieldKind::Text], vec![text(b"one"), text(b"two")]);
    assert_eq!(rows.len(), 2);
    assert_eq!(err, None);
    assert!(matches!(cursor.pull(), Pull::Finished));
    assert!(matches!(cursor.feed(None), Some(Pull::Finished)));
}

#[test]
fn truncated_end_yields_one_error_then_nothing() {
    let mut bytes = text(b"one");
    bytes.extend_from_slice(&[5, b'x']);
    let (rows, err, mut cursor) = run(vec![FieldKind::Text], vec![bytes]);
    assert_eq!(rows, vec![vec![b"one".to_vec()]]);
    assert_eq!(err, Some(CursorError::Incomplete));
    assert!(matches!(cursor.pull(), Pull::Finished));
    assert!(matches!(cursor.pull(), Pull::Finished));
}

#[test]
fn empty_transport_ends_cleanly() {
    let (rows, err, _) = run(vec![FieldKind::Text], vec![]);
    assert!(rows.is_empty());
    assert_eq!(err, None);
}

#[test]
fn transport_error_is_forwarded() {
    let mut cursor = RemoteCursor::new(vec![FieldKind::Text]);
    assert!(matches!(cursor.pull(), Pull::NeedChunk));
    match cursor.feed(Some(Err("connection reset".to_string()))) {
        Some(Pull::Failed(e)) => assert_eq!(e, CursorError::Transport("connection reset".to_string())),
        other => panic!("unexpected {:?}", other),
    }
    assert!(matches!(cursor.pull(), Pull::Finished));
}

#[test]
fn overlong_prefix_is_malformed() {
    let (rows, err, mut cursor) = run(vec![FieldKind::Text], vec![vec![0x80, 0x80, 0x80, 0x80, 0x80, 0x01]]);
    assert!(rows.is_empty());
    assert_eq!(err, Some(CursorError::Malformed));
    assert!(matches!(cursor.pull(), Pull::Finished));
}

#[test]
fn record_filling_last_chunk_exactly_decodes() {
    let (rows, err, _) = run(vec![FieldKind::FixedText(4)], vec![b"ab".to_vec(), b"cd".to_vec()]);
    assert_eq!(rows, vec![vec![b"abcd".to_vec()]]);
    assert_eq!(err, None);
}

#[test]
fn schema_validity() {
    assert!(schema_is_valid(&vec![FieldKind::Text]));
    assert!(schema_is_valid(&vec![FieldKind::FixedText(1), FieldKind::Text]));
    assert!(!schema_is_valid(&vec![]));
    assert!(!schema_is_valid(&vec![FieldKind::Text, FieldKind::FixedText(0)]));
}

#[test]
fn failures_keep_retained_bytes() {
    let mut cursor = RemoteCursor::new(vec![FieldKind::Text]);
    let bad = vec![0x80, 0x80, 0x80, 0x80, 0x80, 0x01];
    assert!(cursor.feed(Some(Ok(Bytes::from(bad.clone())))).is_none());
    assert!(matches!(cursor.pull(), Pull::Failed(CursorError::Malformed)));
    assert_eq!(cursor.retained_len(), bad.len());
}
