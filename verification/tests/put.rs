use lookbuf::BytesMut;
use lookbuf::Look;
use lookbuf::TakeView;
use lookbuf::ViewMut;

#[test]
fn test_put() {
    let mut a = Look::new(vec![2, 0, 0, 0, b'H', b'i', b'\0']);

    let out = a.put(&[]);
    assert!(out.is_ok());
    assert!(a.as_ref() == &[2, 0, 0, 0, b'H', b'i', b'\0'][..]);

    let four = a.put(&[0xFF, 0xFF, 0xFF, 0xFF]);
    assert!(four.is_ok(), "put 4");
    assert!(a.as_ref() == &[b'H', b'i', b'\0'][..]);

    let four_err = a.put(&[0xFF, 0xFF, 0xFF, 0xFF]);
    assert!(four_err.is_err(), "put 4 out of bounds");
    assert!(a.as_ref() == &[b'H', b'i', b'\0'][..]);

    let rest = a.put(&[b'O', b'k', b'\0']);
    assert!(rest.is_ok(), "put rest");
    assert!(a.as_ref() == &[][..]);

    let one_err = a.put(&[0xFF]);
    assert!(one_err.is_err(), "put 1 out of bounds");
    assert!(a.as_ref() == &[][..]);

    let src = a.into_inner();

    assert!(src == vec![0xFF, 0xFF, 0xFF, 0xFF, b'O', b'k', b'\0']);
}

#[test]
fn test_put_u8() {
    let mut a = Look::new(vec![0, 1]);

    let b = a.put_u8(0xFF);
    assert!(b.is_ok());
    assert!(a.as_ref() == &[1]);

    let c = a.put_u8(0xFE);
    assert!(c.is_ok());
    assert!(a.as_ref() == &[][..]);

    let d = a.put_u8(0xFD);
    assert!(d.is_err());
    assert!(a.as_ref() == &[][..]);

    let src = a.into_inner();
    assert!(src == vec![0xFF, 0xFE]);
}

#[test]
fn test_put_i8() {
    let mut a = Look::new(vec![0, 1, -1i8 as u8]);

    let b = a.put_i8(-1);
    assert!(b.is_ok());
    assert!(a.as_ref() == &[1, -1i8 as u8]);

    let c = a.put_i8(0);
    assert!(c.is_ok());
    assert!(a.as_ref() == &[-1i8 as u8]);

    let d = a.put_i8(1);
    assert!(d.is_ok());
    assert!(a.as_ref() == &[][..]);

    let e = a.put_i8(-2);
    assert!(e.is_err());
    assert!(a.as_ref() == &[][..]);

    let src = a.into_inner();
    assert!(src == vec![-1i8 as u8, 0, 1]);
}

#[test]
fn test_put_u16() {
    let mut a = Look::new([1u16.to_le_bytes(), u16::MAX.to_le_bytes()].concat());

    let b = a.put_u16_le(1);
    assert!(b.is_ok());
    assert!(a.as_ref() == &u16::MAX.to_le_bytes()[..]);

    let c = a.put_u16_le(u16::MAX);
    assert!(c.is_ok());
    assert!(a.as_ref() == &[][..]);

    let src = a.into_inner();
    assert!(src == [1u16.to_le_bytes(), u16::MAX.to_le_bytes()].concat());

    let mut a = Look::new([1u16.to_be_bytes(), u16::MAX.to_be_bytes()].concat());

    let b = a.put_u16_be(1);
    assert!(b.is_ok());
    assert!(a.as_ref() == &u16::MAX.to_be_bytes()[..]);

    let c = a.put_u16_be(u16::MAX);
    assert!(c.is_ok());
    assert!(a.as_ref() == &[][..]);

    let src = a.into_inner();
    assert!(src == [1u16.to_be_bytes(), u16::MAX.to_be_bytes()].concat());
}

#[test]
fn test_put_i16() {
    let mut a = Look::new([1i16.to_le_bytes(), (-1i16).to_le_bytes()].concat());

    let b = a.put_i16_le(1);
    assert!(b.is_ok());
    assert!(a.as_ref() == &(-1i16).to_le_bytes()[..]);

    let c = a.put_i16_le(-1);
    assert!(c.is_ok());
    assert!(a.as_ref() == &[][..]);

    let src = a.into_inner();
    assert!(src == [1i16.to_le_bytes(), (-1i16).to_le_bytes()].concat());

    let mut a = Look::new([1i16.to_be_bytes(), (-1i16).to_be_bytes()].concat());

    let b = a.put_i16_be(1);
    assert!(b.is_ok());
    assert!(a.as_ref() == &(-1i16).to_be_bytes()[..]);

    let c = a.put_i16_be(-1);
    assert!(c.is_ok());
    assert!(a.as_ref() == &[][..]);

    let src = a.into_inner();
    assert!(src == [1i16.to_be_bytes(), (-1i16).to_be_bytes()].concat());
}

#[test]
fn test_put_u32() {
    let mut a = Look::new([1u32.to_le_bytes(), u32::MAX.to_le_bytes()].concat());

    let b = a.put_u32_le(1);
    assert!(b.is_ok());
    assert!(a.as_ref() == &u32::MAX.to_le_bytes()[..]);

    let c = a.put_u32_le(u32::MAX);
    assert!(c.is_ok());
    assert!(a.as_ref() == &[][..]);

    let src = a.into_inner();
    assert!(src == [1u32.to_le_bytes(), u32::MAX.to_le_bytes()].concat());

    let mut a = Look::new([1u32.to_be_bytes(), u32::MAX.to_be_bytes()].concat());

    let b = a.put_u32_be(1);
    assert!(b.is_ok());
    assert!(a.as_ref() == &u32::MAX.to_be_bytes()[..]);

    let c = a.put_u32_be(u32::MAX);
    assert!(c.is_ok());
    assert!(a.as_ref() == &[][..]);

    let src = a.into_inner();
    assert!(src == [1u32.to_be_bytes(), u32::MAX.to_be_bytes()].concat());
}

#[test]
fn test_put_i32() {
    let mut a = Look::new([1i32.to_le_bytes(), (-1i32).to_le_bytes()].concat());

    let b = a.put_i32_le(1);
    assert!(b.is_ok());
    assert!(a.as_ref() == &(-1i32).to_le_bytes()[..]);

    let c = a.put_i32_le(-1);
    assert!(c.is_ok());
    assert!(a.as_ref() == &[][..]);

    let src = a.into_inner();
    assert!(src == [1i32.to_le_bytes(), (-1i32).to_le_bytes()].concat());

    let mut a = Look::new([1i32.to_be_bytes(), (-1i32).to_be_bytes()].concat());

    let b = a.put_i32_be(1);
    assert!(b.is_ok());
    assert!(a.as_ref() == &(-1i32).to_be_bytes()[..]);

    let c = a.put_i32_be(-1);
    assert!(c.is_ok());
    assert!(a.as_ref() == &[][..]);

    let src = a.into_inner();
    assert!(src == [1i32.to_be_bytes(), (-1i32).to_be_bytes()].concat());
}

#[test]
fn test_put_u64() {
    let mut a = Look::new([1u64.to_le_bytes(), u64::MAX.to_le_bytes()].concat());

    let b = a.put_u64_le(1);
    assert!(b.is_ok());
    assert!(a.as_ref() == &u64::MAX.to_le_bytes()[..]);

    let c = a.put_u64_le(u64::MAX);
    assert!(c.is_ok());
    assert!(a.as_ref() == &[][..]);

    let src = a.into_inner();
    assert!(src == [1u64.to_le_bytes(), u64::MAX.to_le_bytes()].concat());

    let mut a = Look::new([1u64.to_be_bytes(), u64::MAX.to_be_bytes()].concat());

    let b = a.put_u64_be(1);
    assert!(b.is_ok());
    assert!(a.as_ref() == &u64::MAX.to_be_bytes()[..]);

    let c = a.put_u64_be(u64::MAX);
    assert!(c.is_ok());
    assert!(a.as_ref() == &[][..]);

    let src = a.into_inner();
    assert!(src == [1u64.to_be_bytes(), u64::MAX.to_be_bytes()].concat());
}

#[test]
fn test_put_i64() {
    let mut a = Look::new([1i64.to_le_bytes(), (-1i64).to_le_bytes()].concat());

    let b = a.put_i64_le(1);
    assert!(b.is_ok());
    assert!(a.as_ref() == &(-1i64).to_le_bytes()[..]);

    let c = a.put_i64_le(-1);
    assert!(c.is_ok());
    assert!(a.as_ref() == &[][..]);

    let src = a.into_inner();
    assert!(src == [1i64.to_le_bytes(), (-1i64).to_le_bytes()].concat());

    let mut a = Look::new([1i64.to_be_bytes(), (-1i64).to_be_bytes()].concat());

    let b = a.put_i64_be(1);
    assert!(b.is_ok());
    assert!(a.as_ref() == &(-1i64).to_be_bytes()[..]);

    let c = a.put_i64_be(-1);
    assert!(c.is_ok());
    assert!(a.as_ref() == &[][..]);

    let src = a.into_inner();
    assert!(src == [1i64.to_be_bytes(), (-1i64).to_be_bytes()].concat());
}

#[test]
fn test_put_u128() {
    let mut a = Look::new([1u128.to_le_bytes(), u128::MAX.to_le_bytes()].concat());

    let b = a.put_u128_le(1);
    assert!(b.is_ok());
    assert!(a.as_ref() == &u128::MAX.to_le_bytes()[..]);

    let c = a.put_u128_le(u128::MAX);
    assert!(c.is_ok());
    assert!(a.as_ref() == &[][..]);

    let src = a.into_inner();
    assert!(src == [1u128.to_le_bytes(), u128::MAX.to_le_bytes()].concat());

    let mut a = Look::new([1u128.to_be_bytes(), u128::MAX.to_be_bytes()].concat());

    let b = a.put_u128_be(1);
    assert!(b.is_ok());
    assert!(a.as_ref() == &u128::MAX.to_be_bytes()[..]);

    let c = a.put_u128_be(u128::MAX);
    assert!(c.is_ok());
    assert!(a.as_ref() == &[][..]);

    let src = a.into_inner();
    assert!(src == [1u128.to_be_bytes(), u128::MAX.to_be_bytes()].concat());
}

#[test]
fn test_put_i128() {
    let mut a = Look::new([1i128.to_le_bytes(), (-1i128).to_le_bytes()].concat());

    let b = a.put_i128_le(1);
    assert!(b.is_ok());
    assert!(a.as_ref() == &(-1i128).to_le_bytes()[..]);

    let c = a.put_i128_le(-1);
    assert!(c.is_ok());
    assert!(a.as_ref() == &[][..]);

    let src = a.into_inner();
    assert!(src == [1i128.to_le_bytes(), (-1i128).to_le_bytes()].concat());

    let mut a = Look::new([1i128.to_be_bytes(), (-1i128).to_be_bytes()].concat());

    let b = a.put_i128_be(1);
    assert!(b.is_ok());
    assert!(a.as_ref() == &(-1i128).to_be_bytes()[..]);

    let c = a.put_i128_be(-1);
    assert!(c.is_ok());
    assert!(a.as_ref() == &[][..]);

    let src = a.into_inner();
    assert!(src == [1i128.to_be_bytes(), (-1i128).to_be_bytes()].concat());
}

#[test]
fn test_put_native_order() {
    let mut a = Look::new(vec![0, 0]);
    assert!(a.put_u16_ne(0x1234).is_ok());
    assert!(a.into_inner() == 0x1234u16.to_ne_bytes().to_vec());

    let mut a = Look::new(vec![0; 8]);
    assert!(a.put_i64_ne(-2).is_ok());
    assert!(a.into_inner() == (-2i64).to_ne_bytes().to_vec());
}
