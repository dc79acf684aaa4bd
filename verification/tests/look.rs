use lookbuf::BadPos;
use lookbuf::BytesMut;
use lookbuf::Bytes;
use lookbuf::Look;
use lookbuf::SliceCursor;
use lookbuf::TakeView;

#[test]
fn test_look_new_with_pos() {
    let l = Look::new_with_pos(vec![1u8, 2, 3], 2).unwrap();
    assert!(l.pos() == 2);
    assert!(l.as_ref() == &[3]);

    let at_end = Look::new_with_pos(vec![1u8, 2, 3], 3).unwrap();
    assert!(at_end.pos() == 3);
    assert!(at_end.as_ref() == &[][..]);

    let past = Look::new_with_pos(vec![1u8, 2, 3], 4);
    assert!(matches!(past, Err(BadPos)), "a position past the end is refused");
}

#[test]
fn test_look_take_tracks_pos() {
    let mut l = Look::new(vec![1u8, 2, 3, 4, 5]);
    assert!(l.pos() == 0);

    let two = l.take(2);
    assert!(two == Ok(&[1, 2][..]));
    assert!(l.pos() == 2);
    assert!(l.as_ref() == &[3, 4, 5]);

    let too_much = l.take(4);
    assert!(too_much.is_err());
    assert!(l.pos() == 2, "a failed take does not move the position");

    assert!(l.take_u8() == Ok(3));
    assert!(l.pos() == 3);

    assert!(l.into_inner() == vec![1, 2, 3, 4, 5], "taking never rewrites the buffer");
}

#[test]
fn test_look_from_slice() {
    let buf = vec![1u8, 2, 3, 4, 5];

    let mut cursor = SliceCursor::new(&buf);
    let taken = cursor.take(2).unwrap();
    assert!(taken == &[1, 2]);
    let rest = cursor.as_ref();

    let l = Look::from_slice(buf.clone(), rest).unwrap();
    assert!(l.pos() == buf.len() - rest.len());
    assert!(l.pos() == 2, "the cursor resumes where the tail begins");
    assert!(l.as_ref() == &[3, 4, 5]);

    let too_long = Look::from_slice(vec![1u8, 2], &[0u8, 0, 0]);
    assert!(too_long.is_err(), "a slice longer than the buffer is refused");
}

#[test]
fn test_look_from_slice_whole_and_empty() {
    let whole = Look::from_slice(vec![7u8, 8], &[7u8, 8]).unwrap();
    assert!(whole.pos() == 0);

    let done = Look::from_slice(vec![7u8, 8], &[]).unwrap();
    assert!(done.pos() == 2);
    assert!(done.as_ref() == &[][..]);
}

#[test]
fn test_look_into_inner_after_writes() {
    let mut l = Look::new(vec![0u8; 4]);
    assert!(l.put_u16_be(0x0102).is_ok());
    assert!(l.take_u8() == Ok(0));
    assert!(l.pos() == 3);
    assert!(l.into_inner() == vec![1, 2, 0, 0]);
}
