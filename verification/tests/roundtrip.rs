//! Writing a value and reading the written region back returns the value
//! exactly, for every width and byte order, at the extremes included.

use lookbuf::Bytes;
use lookbuf::BytesMut;
use lookbuf::Look;
use lookbuf::SliceCursor;

#[test]
fn test_roundtrip_u16_extremes() {
    for v in [0u16, 1, u16::MAX, 0x1234] {
        let mut w = Look::new(vec![0; 2]);
        assert!(w.put_u16_le(v).is_ok());
        let written = w.into_inner();
        let mut r = SliceCursor::new(&written);
        assert!(r.take_u16_le() == Ok(v));

        let mut w = Look::new(vec![0; 2]);
        assert!(w.put_u16_be(v).is_ok());
        let written = w.into_inner();
        let mut r = SliceCursor::new(&written);
        assert!(r.take_u16_be() == Ok(v));

        let mut w = Look::new(vec![0; 2]);
        assert!(w.put_u16_ne(v).is_ok());
        let written = w.into_inner();
        let mut r = SliceCursor::new(&written);
        assert!(r.take_u16_ne() == Ok(v));
    }
}

#[test]
fn test_roundtrip_endianness_differs() {
    let mut w = Look::new(vec![0; 2]);
    assert!(w.put_u16_le(0x1234).is_ok());
    let written = w.into_inner();
    assert!(written == vec![0x34, 0x12]);

    let mut r = SliceCursor::new(&written);
    assert!(r.take_u16_le() == Ok(0x1234), "read back in the order written");
    let mut r = SliceCursor::new(&written);
    assert!(r.take_u16_be() == Ok(0x3412), "the other order gives the byte-swapped value");
}

#[test]
fn test_roundtrip_i16_extremes() {
    for v in [0i16, 1, -1, i16::MIN, i16::MAX] {
        let mut w = Look::new(vec![0; 2]);
        assert!(w.put_i16_le(v).is_ok());
        let written = w.into_inner();
        assert!(written == v.to_le_bytes().to_vec());
        let mut r = SliceCursor::new(&written);
        assert!(r.take_i16_le() == Ok(v));

        let mut w = Look::new(vec![0; 2]);
        assert!(w.put_i16_be(v).is_ok());
        let written = w.into_inner();
        assert!(written == v.to_be_bytes().to_vec());
        let mut r = SliceCursor::new(&written);
        assert!(r.take_i16_be() == Ok(v));
    }
}

#[test]
fn test_roundtrip_u64_extremes() {
    for v in [0u64, 1, u64::MAX, 0x0123456789ABCDEF] {
        for be in [false, true] {
            let mut w = Look::new(vec![0; 8]);
            assert!(if be { w.put_u64_be(v) } else { w.put_u64_le(v) }.is_ok());
            let written = w.into_inner();
            assert!(written == if be { v.to_be_bytes().to_vec() } else { v.to_le_bytes().to_vec() });
            let mut r = SliceCursor::new(&written);
            assert!(if be { r.take_u64_be() } else { r.take_u64_le() } == Ok(v));
        }
    }
}

#[test]
fn test_roundtrip_i64_extremes() {
    for v in [0i64, 1, -1, i64::MIN, i64::MAX] {
        for be in [false, true] {
            let mut w = Look::new(vec![0; 8]);
            assert!(if be { w.put_i64_be(v) } else { w.put_i64_le(v) }.is_ok());
            let written = w.into_inner();
            assert!(written == if be { v.to_be_bytes().to_vec() } else { v.to_le_bytes().to_vec() });
            let mut r = SliceCursor::new(&written);
            assert!(if be { r.take_i64_be() } else { r.take_i64_le() } == Ok(v));
        }
    }
}

#[test]
fn test_roundtrip_u128_extremes() {
    for v in [0u128, 1, u128::MAX, u128::MAX - 1, 1u128 << 127] {
        for be in [false, true] {
            let mut w = Look::new(vec![0; 16]);
            assert!(if be { w.put_u128_be(v) } else { w.put_u128_le(v) }.is_ok());
            let written = w.into_inner();
            assert!(written == if be { v.to_be_bytes().to_vec() } else { v.to_le_bytes().to_vec() });
            let mut r = SliceCursor::new(&written);
            assert!(if be { r.take_u128_be() } else { r.take_u128_le() } == Ok(v));
        }
    }
}

#[test]
fn test_roundtrip_i128_extremes() {
    for v in [0i128, 1, -1, i128::MIN, i128::MAX, i128::MIN + 1] {
        for be in [false, true] {
            let mut w = Look::new(vec![0; 16]);
            assert!(if be { w.put_i128_be(v) } else { w.put_i128_le(v) }.is_ok());
            let written = w.into_inner();
            assert!(written == if be { v.to_be_bytes().to_vec() } else { v.to_le_bytes().to_vec() });
            let mut r = SliceCursor::new(&written);
            assert!(if be { r.take_i128_be() } else { r.take_i128_le() } == Ok(v));
        }
    }
}

#[test]
fn test_roundtrip_u32_i32_u8_i8() {
    for v in [0u32, 1, u32::MAX] {
        let mut w = Look::new(vec![0; 4]);
        assert!(w.put_u32_le(v).is_ok());
        let written = w.into_inner();
        let mut r = SliceCursor::new(&written);
        assert!(r.take_u32_le() == Ok(v));
    }
    for v in [0i32, -1, i32::MIN, i32::MAX] {
        let mut w = Look::new(vec![0; 4]);
        assert!(w.put_i32_be(v).is_ok());
        let written = w.into_inner();
        assert!(written == v.to_be_bytes().to_vec());
        let mut r = SliceCursor::new(&written);
        assert!(r.take_i32_be() == Ok(v));
    }
    for v in [0u8, 1, u8::MAX] {
        let mut w = Look::new(vec![0; 1]);
        assert!(w.put_u8(v).is_ok());
        let written = w.into_inner();
        let mut r = SliceCursor::new(&written);
        assert!(r.take_u8() == Ok(v));
    }
    for v in [0i8, -1, i8::MIN, i8::MAX] {
        let mut w = Look::new(vec![0; 1]);
        assert!(w.put_i8(v).is_ok());
        let written = w.into_inner();
        assert!(written == v.to_le_bytes().to_vec());
        let mut r = SliceCursor::new(&written);
        assert!(r.take_i8() == Ok(v));
    }
}
