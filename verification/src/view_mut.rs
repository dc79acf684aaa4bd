//! The writing side of the cursor abstraction: a trait for overwriting the
//! front of a buffer in place, and the codec operations layered on it.

use vstd::prelude::*;

use crate::BadPos;
use crate::codec::be_bytes;
use crate::codec::be_val;
use crate::codec::be_vec_of;
use crate::codec::le_bytes;
use crate::codec::le_val;
use crate::codec::le_vec_of;
use crate::codec::lemma_pow256_values;
use crate::codec::native_is_little;
use crate::codec::ne_bytes;
use crate::codec::ne_val;
use crate::codec::unsigned_val;
use crate::view::TakeView;

verus! {

/// `s` with the `v.len()` elements from position `at` overwritten by `v`.
pub open spec fn splice<T>(s: Seq<T>, at: int, v: Seq<T>) -> Seq<T> {
    s.subrange(0, at) + v + s.skip(at + v.len())
}

/// What a write leaves behind reads back unchanged: in a buffer spliced
/// with `v` at position `at`, the `v.len()` elements from position `at`
/// are exactly `v`, and the buffer keeps its length. Together with the
/// round-trip laws of [`crate::codec`] this closes the write-then-read
/// loop: a cursor positioned at `at` over the written buffer takes back
/// the very bytes a put encoded.
pub proof fn lemma_splice_reads_back<T>(s: Seq<T>, at: int, v: Seq<T>)
    requires
        0 <= at,
        at + v.len() <= s.len(),
    ensures
        splice(s, at, v).len() == s.len(),
        splice(s, at, v).skip(at).take(v.len() as int) == v,
{
    assert(splice(s, at, v).skip(at).take(v.len() as int) =~= v);
}

/// Round-trip codec law, little-endian: a value that fits in `n` bytes,
/// written at any position of a buffer, decodes from the written region
/// to exactly that value. The store a put leaves behind is the splice of
/// the encoding, and a cursor reconstructed at the same position takes
/// those very bytes back.
pub proof fn lemma_roundtrip_le_at(s: Seq<u8>, at: int, u: nat, n: nat)
    requires
        0 <= at,
        at + n <= s.len(),
        u < crate::codec::pow256(n),
    ensures
        le_val(splice(s, at, le_bytes(u, n)).skip(at).take(n as int)) == u,
{
    crate::codec::lemma_le_bytes_len(u, n);
    lemma_splice_reads_back(s, at, le_bytes(u, n));
    crate::codec::lemma_le_roundtrip(u, n);
}

/// Round-trip codec law, big-endian: as
/// [`lemma_roundtrip_le_at`], with the bytes in the opposite order.
pub proof fn lemma_roundtrip_be_at(s: Seq<u8>, at: int, u: nat, n: nat)
    requires
        0 <= at,
        at + n <= s.len(),
        u < crate::codec::pow256(n),
    ensures
        be_val(splice(s, at, be_bytes(u, n)).skip(at).take(n as int)) == u,
{
    crate::codec::lemma_be_bytes_len(u, n);
    lemma_splice_reads_back(s, at, be_bytes(u, n));
    crate::codec::lemma_be_roundtrip(u, n);
}

/// Round-trip codec law, native byte order: whichever order the hardware
/// uses, writing then reading a value that fits gives it back.
pub proof fn lemma_roundtrip_ne_at(s: Seq<u8>, at: int, u: nat, n: nat)
    requires
        0 <= at,
        at + n <= s.len(),
        u < crate::codec::pow256(n),
    ensures
        ne_val(splice(s, at, ne_bytes(u, n)).skip(at).take(n as int)) == u,
{
    if vstd::endian::endianness() is Little {
        lemma_roundtrip_le_at(s, at, u, n);
    } else {
        lemma_roundtrip_be_at(s, at, u, n);
    }
}

/// A cursor that can overwrite the front of its remaining range.
///
/// A writer is also a reader: putting and taking advance the same mark.
pub trait ViewMut<T: Copy>: TakeView<T> {
    /// Overwrites the next `val.len()` elements with `val` and advances
    /// the cursor past them; fails without writing anything when fewer
    /// than `val.len()` elements remain.
    ///
    /// Success is owed exactly when `val.len()` is at most the remaining
    /// length. On failure the cursor and its buffer are unchanged, so a
    /// repeated failing call fails identically.
    fn put(&mut self, val: &[T]) -> (r: Result<(), BadPos>)
        requires
            old(self).inv(),
        ensures
            final(self).inv(),
            match r {
                Ok(_) => {
                    &&& val@.len() <= old(self).remaining().len()
                    &&& final(self).store() == splice(
                        old(self).store(),
                        old(self).mark() as int,
                        val@,
                    )
                    &&& final(self).mark() == old(self).mark() + val@.len()
                },
                Err(_) => {
                    &&& val@.len() > old(self).remaining().len()
                    &&& final(self).store() == old(self).store()
                    &&& final(self).mark() == old(self).mark()
                },
            },
    ;
}

/// The byte-level encoding operations: fixed-width integers written in
/// little-endian, big-endian and native byte order, all layered on
/// [`ViewMut::put`].
pub trait BytesMut: ViewMut<u8> {
    /// Writes one byte.
    fn put_u8(&mut self, val: u8) -> (r: Result<(), BadPos>)
        requires
            old(self).inv(),
        ensures
            final(self).inv(),
            match r {
                Ok(_) => {
                    &&& 1 <= old(self).remaining().len()
                    &&& final(self).store() == splice(
                        old(self).store(),
                        old(self).mark() as int,
                        seq![val],
                    )
                    &&& final(self).mark() == old(self).mark() + 1
                },
                Err(_) => {
                    &&& old(self).remaining().len() < 1
                    &&& final(self).store() == old(self).store()
                    &&& final(self).mark() == old(self).mark()
                },
            },
    {
        let bytes = le_vec_of(val as u128, 1);
        proof {
            assert(le_bytes(val as nat, 1) =~= seq![val]);
        }
        self.put(bytes.as_slice())
    }

    /// Writes one byte, two's complement.
    fn put_i8(&mut self, val: i8) -> (r: Result<(), BadPos>)
        requires
            old(self).inv(),
        ensures
            final(self).inv(),
            match r {
                Ok(_) => {
                    &&& 1 <= old(self).remaining().len()
                    &&& final(self).store() == splice(
                        old(self).store(),
                        old(self).mark() as int,
                        seq![unsigned_val(val as int, 1) as u8],
                    )
                    &&& final(self).mark() == old(self).mark() + 1
                },
                Err(_) => {
                    &&& old(self).remaining().len() < 1
                    &&& final(self).store() == old(self).store()
                    &&& final(self).mark() == old(self).mark()
                },
            },
    {
        let u: u8 = if val >= 0 {
            val as u8
        } else {
            0xFF - ((-(val + 1)) as u8)
        };
        proof {
            lemma_pow256_values();
        }
        self.put_u8(u)
    }

    /// Writes `val` as 2 little-endian bytes.
    fn put_u16_le(&mut self, val: u16) -> (r: Result<(), BadPos>)
        requires
            old(self).inv(),
        ensures
            final(self).inv(),
            match r {
                Ok(_) => {
                    &&& 2 <= old(self).remaining().len()
                    &&& final(self).store() == splice(
                        old(self).store(),
                        old(self).mark() as int,
                        le_bytes(val as nat, 2),
                    )
                    &&& final(self).mark() == old(self).mark() + 2
                },
                Err(_) => {
                    &&& old(self).remaining().len() < 2
                    &&& final(self).store() == old(self).store()
                    &&& final(self).mark() == old(self).mark()
                },
            },
    {
        let bytes = le_vec_of(val as u128, 2);
        self.put(bytes.as_slice())
    }

    /// Writes `val` as 2 big-endian bytes.
    fn put_u16_be(&mut self, val: u16) -> (r: Result<(), BadPos>)
        requires
            old(self).inv(),
        ensures
            final(self).inv(),
            match r {
                Ok(_) => {
                    &&& 2 <= old(self).remaining().len()
                    &&& final(self).store() == splice(
                        old(self).store(),
                        old(self).mark() as int,
                        be_bytes(val as nat, 2),
                    )
                    &&& final(self).mark() == old(self).mark() + 2
                },
                Err(_) => {
                    &&& old(self).remaining().len() < 2
                    &&& final(self).store() == old(self).store()
                    &&& final(self).mark() == old(self).mark()
                },
            },
    {
        let bytes = be_vec_of(val as u128, 2);
        self.put(bytes.as_slice())
    }

    /// Writes `val` as 2 native-endian bytes.
    fn put_u16_ne(&mut self, val: u16) -> (r: Result<(), BadPos>)
        requires
            old(self).inv(),
        ensures
            final(self).inv(),
            match r {
                Ok(_) => {
                    &&& 2 <= old(self).remaining().len()
                    &&& final(self).store() == splice(
                        old(self).store(),
                        old(self).mark() as int,
                        ne_bytes(val as nat, 2),
                    )
                    &&& final(self).mark() == old(self).mark() + 2
                },
                Err(_) => {
                    &&& old(self).remaining().len() < 2
                    &&& final(self).store() == old(self).store()
                    &&& final(self).mark() == old(self).mark()
                },
            },
    {
        if native_is_little() {
            self.put_u16_le(val)
        } else {
            self.put_u16_be(val)
        }
    }

    /// Writes `val` as 2 little-endian bytes, two's complement.
    fn put_i16_le(&mut self, val: i16) -> (r: Result<(), BadPos>)
        requires
            old(self).inv(),
        ensures
            final(self).inv(),
            match r {
                Ok(_) => {
                    &&& 2 <= old(self).remaining().len()
                    &&& final(self).store() == splice(
                        old(self).store(),
                        old(self).mark() as int,
                        le_bytes(unsigned_val(val as int, 2), 2),
                    )
                    &&& final(self).mark() == old(self).mark() + 2
                },
                Err(_) => {
                    &&& old(self).remaining().len() < 2
                    &&& final(self).store() == old(self).store()
                    &&& final(self).mark() == old(self).mark()
                },
            },
    {
        let u: u128 = if val >= 0 {
            val as u128
        } else {
            0xFFFF - ((-(val + 1)) as u128)
        };
        proof {
            lemma_pow256_values();
        }
        let bytes = le_vec_of(u, 2);
        self.put(bytes.as_slice())
    }

    /// Writes `val` as 2 big-endian bytes, two's complement.
    fn put_i16_be(&mut self, val: i16) -> (r: Result<(), BadPos>)
        requires
            old(self).inv(),
        ensures
            final(self).inv(),
            match r {
                Ok(_) => {
                    &&& 2 <= old(self).remaining().len()
                    &&& final(self).store() == splice(
                        old(self).store(),
                        old(self).mark() as int,
                        be_bytes(unsigned_val(val as int, 2), 2),
                    )
                    &&& final(self).mark() == old(self).mark() + 2
                },
                Err(_) => {
                    &&& old(self).remaining().len() < 2
                    &&& final(self).store() == old(self).store()
                    &&& final(self).mark() == old(self).mark()
                },
            },
    {
        let u: u128 = if val >= 0 {
            val as u128
        } else {
            0xFFFF - ((-(val + 1)) as u128)
        };
        proof {
            lemma_pow256_values();
        }
        let bytes = be_vec_of(u, 2);
        self.put(bytes.as_slice())
    }

    /// Writes `val` as 2 native-endian bytes, two's complement.
    fn put_i16_ne(&mut self, val: i16) -> (r: Result<(), BadPos>)
        requires
            old(self).inv(),
        ensures
            final(self).inv(),
            match r {
                Ok(_) => {
                    &&& 2 <= old(self).remaining().len()
                    &&& final(self).store() == splice(
                        old(self).store(),
                        old(self).mark() as int,
                        ne_bytes(unsigned_val(val as int, 2), 2),
                    )
                    &&& final(self).mark() == old(self).mark() + 2
                },
                Err(_) => {
                    &&& old(self).remaining().len() < 2
                    &&& final(self).store() == old(self).store()
                    &&& final(self).mark() == old(self).mark()
                },
            },
    {
        if native_is_little() {
            self.put_i16_le(val)
        } else {
            self.put_i16_be(val)
        }
    }

    /// Writes `val` as 4 little-endian bytes.
    fn put_u32_le(&mut self, val: u32) -> (r: Result<(), BadPos>)
        requires
            old(self).inv(),
        ensures
            final(self).inv(),
            match r {
                Ok(_) => {
                    &&& 4 <= old(self).remaining().len()
                    &&& final(self).store() == splice(
                        old(self).store(),
                        old(self).mark() as int,
                        le_bytes(val as nat, 4),
                    )
                    &&& final(self).mark() == old(self).mark() + 4
                },
                Err(_) => {
                    &&& old(self).remaining().len() < 4
                    &&& final(self).store() == old(self).store()
                    &&& final(self).mark() == old(self).mark()
                },
            },
    {
        let bytes = le_vec_of(val as u128, 4);
        self.put(bytes.as_slice())
    }

    /// Writes `val` as 4 big-endian bytes.
    fn put_u32_be(&mut self, val: u32) -> (r: Result<(), BadPos>)
        requires
            old(self).inv(),
        ensures
            final(self).inv(),
            match r {
                Ok(_) => {
                    &&& 4 <= old(self).remaining().len()
                    &&& final(self).store() == splice(
                        old(self).store(),
                        old(self).mark() as int,
                        be_bytes(val as nat, 4),
                    )
                    &&& final(self).mark() == old(self).mark() + 4
                },
                Err(_) => {
                    &&& old(self).remaining().len() < 4
                    &&& final(self).store() == old(self).store()
                    &&& final(self).mark() == old(self).mark()
                },
            },
    {
        let bytes = be_vec_of(val as u128, 4);
        self.put(bytes.as_slice())
    }

    /// Writes `val` as 4 native-endian bytes.
    fn put_u32_ne(&mut self, val: u32) -> (r: Result<(), BadPos>)
        requires
            old(self).inv(),
        ensures
            final(self).inv(),
            match r {
                Ok(_) => {
                    &&& 4 <= old(self).remaining().len()
                    &&& final(self).store() == splice(
                        old(self).store(),
                        old(self).mark() as int,
                        ne_bytes(val as nat, 4),
                    )
                    &&& final(self).mark() == old(self).mark() + 4
                },
                Err(_) => {
                    &&& old(self).remaining().len() < 4
                    &&& final(self).store() == old(self).store()
                    &&& final(self).mark() == old(self).mark()
                },
            },
    {
        if native_is_little() {
            self.put_u32_le(val)
        } else {
            self.put_u32_be(val)
        }
    }

    /// Writes `val` as 4 little-endian bytes, two's complement.
    fn put_i32_le(&mut self, val: i32) -> (r: Result<(), BadPos>)
        requires
            old(self).inv(),
        ensures
            final(self).inv(),
            match r {
                Ok(_) => {
                    &&& 4 <= old(self).remaining().len()
                    &&& final(self).store() == splice(
                        old(self).store(),
                        old(self).mark() as int,
                        le_bytes(unsigned_val(val as int, 4), 4),
                    )
                    &&& final(self).mark() == old(self).mark() + 4
                },
                Err(_) => {
                    &&& old(self).remaining().len() < 4
                    &&& final(self).store() == old(self).store()
                    &&& final(self).mark() == old(self).mark()
                },
            },
    {
        let u: u128 = if val >= 0 {
            val as u128
        } else {
            0xFFFFFFFF - ((-(val + 1)) as u128)
        };
        proof {
            lemma_pow256_values();
        }
        let bytes = le_vec_of(u, 4);
        self.put(bytes.as_slice())
    }

    /// Writes `val` as 4 big-endian bytes, two's complement.
    fn put_i32_be(&mut self, val: i32) -> (r: Result<(), BadPos>)
        requires
            old(self).inv(),
        ensures
            final(self).inv(),
            match r {
                Ok(_) => {
                    &&& 4 <= old(self).remaining().len()
                    &&& final(self).store() == splice(
                        old(self).store(),
                        old(self).mark() as int,
                        be_bytes(unsigned_val(val as int, 4), 4),
                    )
                    &&& final(self).mark() == old(self).mark() + 4
                },
                Err(_) => {
                    &&& old(self).remaining().len() < 4
                    &&& final(self).store() == old(self).store()
                    &&& final(self).mark() == old(self).mark()
                },
            },
    {
        let u: u128 = if val >= 0 {
            val as u128
        } else {
            0xFFFFFFFF - ((-(val + 1)) as u128)
        };
        proof {
            lemma_pow256_values();
        }
        let bytes = be_vec_of(u, 4);
        self.put(bytes.as_slice())
    }

    /// Writes `val` as 4 native-endian bytes, two's complement.
    fn put_i32_ne(&mut self, val: i32) -> (r: Result<(), BadPos>)
        requires
            old(self).inv(),
        ensures
            final(self).inv(),
            match r {
                Ok(_) => {
                    &&& 4 <= old(self).remaining().len()
                    &&& final(self).store() == splice(
                        old(self).store(),
                        old(self).mark() as int,
                        ne_bytes(unsigned_val(val as int, 4), 4),
                    )
                    &&& final(self).mark() == old(self).mark() + 4
                },
                Err(_) => {
                    &&& old(self).remaining().len() < 4
                    &&& final(self).store() == old(self).store()
                    &&& final(self).mark() == old(self).mark()
                },
            },
    {
        if native_is_little() {
            self.put_i32_le(val)
        } else {
            self.put_i32_be(val)
        }
    }

    /// Writes `val` as 8 little-endian bytes.
    fn put_u64_le(&mut self, val: u64) -> (r: Result<(), BadPos>)
        requires
            old(self).inv(),
        ensures
            final(self).inv(),
            match r {
                Ok(_) => {
                    &&& 8 <= old(self).remaining().len()
                    &&& final(self).store() == splice(
                        old(self).store(),
                        old(self).mark() as int,
                        le_bytes(val as nat, 8),
                    )
                    &&& final(self).mark() == old(self).mark() + 8
                },
                Err(_) => {
                    &&& old(self).remaining().len() < 8
                    &&& final(self).store() == old(self).store()
                    &&& final(self).mark() == old(self).mark()
                },
            },
    {
        let bytes = le_vec_of(val as u128, 8);
        self.put(bytes.as_slice())
    }

    /// Writes `val` as 8 big-endian bytes.
    fn put_u64_be(&mut self, val: u64) -> (r: Result<(), BadPos>)
        requires
            old(self).inv(),
        ensures
            final(self).inv(),
            match r {
                Ok(_) => {
                    &&& 8 <= old(self).remaining().len()
                    &&& final(self).store() == splice(
                        old(self).store(),
                        old(self).mark() as int,
                        be_bytes(val as nat, 8),
                    )
                    &&& final(self).mark() == old(self).mark() + 8
                },
                Err(_) => {
                    &&& old(self).remaining().len() < 8
                    &&& final(self).store() == old(self).store()
                    &&& final(self).mark() == old(self).mark()
                },
            },
    {
        let bytes = be_vec_of(val as u128, 8);
        self.put(bytes.as_slice())
    }

    /// Writes `val` as 8 native-endian bytes.
    fn put_u64_ne(&mut self, val: u64) -> (r: Result<(), BadPos>)
        requires
            old(self).inv(),
        ensures
            final(self).inv(),
            match r {
                Ok(_) => {
                    &&& 8 <= old(self).remaining().len()
                    &&& final(self).store() == splice(
                        old(self).store(),
                        old(self).mark() as int,
                        ne_bytes(val as nat, 8),
                    )
                    &&& final(self).mark() == old(self).mark() + 8
                },
                Err(_) => {
                    &&& old(self).remaining().len() < 8
                    &&& final(self).store() == old(self).store()
                    &&& final(self).mark() == old(self).mark()
                },
            },
    {
        if native_is_little() {
            self.put_u64_le(val)
        } else {
            self.put_u64_be(val)
        }
    }

    /// Writes `val` as 8 little-endian bytes, two's complement.
    fn put_i64_le(&mut self, val: i64) -> (r: Result<(), BadPos>)
        requires
            old(self).inv(),
        ensures
            final(self).inv(),
            match r {
                Ok(_) => {
                    &&& 8 <= old(self).remaining().len()
                    &&& final(self).store() == splice(
                        old(self).store(),
                        old(self).mark() as int,
                        le_bytes(unsigned_val(val as int, 8), 8),
                    )
                    &&& final(self).mark() == old(self).mark() + 8
                },
                Err(_) => {
                    &&& old(self).remaining().len() < 8
                    &&& final(self).store() == old(self).store()
                    &&& final(self).mark() == old(self).mark()
                },
            },
    {
        let u: u128 = if val >= 0 {
            val as u128
        } else {
            0xFFFFFFFFFFFFFFFF - ((-(val + 1)) as u128)
        };
        proof {
            lemma_pow256_values();
        }
        let bytes = le_vec_of(u, 8);
        self.put(bytes.as_slice())
    }

    /// Writes `val` as 8 big-endian bytes, two's complement.
    fn put_i64_be(&mut self, val: i64) -> (r: Result<(), BadPos>)
        requires
            old(self).inv(),
        ensures
            final(self).inv(),
            match r {
                Ok(_) => {
                    &&& 8 <= old(self).remaining().len()
                    &&& final(self).store() == splice(
                        old(self).store(),
                        old(self).mark() as int,
                        be_bytes(unsigned_val(val as int, 8), 8),
                    )
                    &&& final(self).mark() == old(self).mark() + 8
                },
                Err(_) => {
                    &&& old(self).remaining().len() < 8
                    &&& final(self).store() == old(self).store()
                    &&& final(self).mark() == old(self).mark()
                },
            },
    {
        let u: u128 = if val >= 0 {
            val as u128
        } else {
            0xFFFFFFFFFFFFFFFF - ((-(val + 1)) as u128)
        };
        proof {
            lemma_pow256_values();
        }
        let bytes = be_vec_of(u, 8);
        self.put(bytes.as_slice())
    }

    /// Writes `val` as 8 native-endian bytes, two's complement.
    fn put_i64_ne(&mut self, val: i64) -> (r: Result<(), BadPos>)
        requires
            old(self).inv(),
        ensures
            final(self).inv(),
            match r {
                Ok(_) => {
                    &&& 8 <= old(self).remaining().len()
                    &&& final(self).store() == splice(
                        old(self).store(),
                        old(self).mark() as int,
                        ne_bytes(unsigned_val(val as int, 8), 8),
                    )
                    &&& final(self).mark() == old(self).mark() + 8
                },
                Err(_) => {
                    &&& old(self).remaining().len() < 8
                    &&& final(self).store() == old(self).store()
                    &&& final(self).mark() == old(self).mark()
                },
            },
    {
        if native_is_little() {
            self.put_i64_le(val)
        } else {
            self.put_i64_be(val)
        }
    }

    /// Writes `val` as 16 little-endian bytes.
    fn put_u128_le(&mut self, val: u128) -> (r: Result<(), BadPos>)
        requires
            old(self).inv(),
        ensures
            final(self).inv(),
            match r {
                Ok(_) => {
                    &&& 16 <= old(self).remaining().len()
                    &&& final(self).store() == splice(
                        old(self).store(),
                        old(self).mark() as int,
                        le_bytes(val as nat, 16),
                    )
                    &&& final(self).mark() == old(self).mark() + 16
                },
                Err(_) => {
                    &&& old(self).remaining().len() < 16
                    &&& final(self).store() == old(self).store()
                    &&& final(self).mark() == old(self).mark()
                },
            },
    {
        let bytes = le_vec_of(val as u128, 16);
        self.put(bytes.as_slice())
    }

    /// Writes `val` as 16 big-endian bytes.
    fn put_u128_be(&mut self, val: u128) -> (r: Result<(), BadPos>)
        requires
            old(self).inv(),
        ensures
            final(self).inv(),
            match r {
                Ok(_) => {
                    &&& 16 <= old(self).remaining().len()
                    &&& final(self).store() == splice(
                        old(self).store(),
                        old(self).mark() as int,
                        be_bytes(val as nat, 16),
                    )
                    &&& final(self).mark() == old(self).mark() + 16
                },
                Err(_) => {
                    &&& old(self).remaining().len() < 16
                    &&& final(self).store() == old(self).store()
                    &&& final(self).mark() == old(self).mark()
                },
            },
    {
        let bytes = be_vec_of(val as u128, 16);
        self.put(bytes.as_slice())
    }

    /// Writes `val` as 16 native-endian bytes.
    fn put_u128_ne(&mut self, val: u128) -> (r: Result<(), BadPos>)
        requires
            old(self).inv(),
        ensures
            final(self).inv(),
            match r {
                Ok(_) => {
                    &&& 16 <= old(self).remaining().len()
                    &&& final(self).store() == splice(
                        old(self).store(),
                        old(self).mark() as int,
                        ne_bytes(val as nat, 16),
                    )
                    &&& final(self).mark() == old(self).mark() + 16
                },
                Err(_) => {
                    &&& old(self).remaining().len() < 16
                    &&& final(self).store() == old(self).store()
                    &&& final(self).mark() == old(self).mark()
                },
            },
    {
        if native_is_little() {
            self.put_u128_le(val)
        } else {
            self.put_u128_be(val)
        }
    }

    /// Writes `val` as 16 little-endian bytes, two's complement.
    fn put_i128_le(&mut self, val: i128) -> (r: Result<(), BadPos>)
        requires
            old(self).inv(),
        ensures
            final(self).inv(),
            match r {
                Ok(_) => {
                    &&& 16 <= old(self).remaining().len()
                    &&& final(self).store() == splice(
                        old(self).store(),
                        old(self).mark() as int,
                        le_bytes(unsigned_val(val as int, 16), 16),
                    )
                    &&& final(self).mark() == old(self).mark() + 16
                },
                Err(_) => {
                    &&& old(self).remaining().len() < 16
                    &&& final(self).store() == old(self).store()
                    &&& final(self).mark() == old(self).mark()
                },
            },
    {
        let u: u128 = if val >= 0 {
            val as u128
        } else {
            0xFFFFFFFFFFFFFFFFFFFFFFFFFFFFFFFF - ((-(val + 1)) as u128)
        };
        proof {
            lemma_pow256_values();
        }
        let bytes = le_vec_of(u, 16);
        self.put(bytes.as_slice())
    }

    /// Writes `val` as 16 big-endian bytes, two's complement.
    fn put_i128_be(&mut self, val: i128) -> (r: Result<(), BadPos>)
        requires
            old(self).inv(),
        ensures
            final(self).inv(),
            match r {
                Ok(_) => {
                    &&& 16 <= old(self).remaining().len()
                    &&& final(self).store() == splice(
                        old(self).store(),
                        old(self).mark() as int,
                        be_bytes(unsigned_val(val as int, 16), 16),
                    )
                    &&& final(self).mark() == old(self).mark() + 16
                },
                Err(_) => {
                    &&& old(self).remaining().len() < 16
                    &&& final(self).store() == old(self).store()
                    &&& final(self).mark() == old(self).mark()
                },
            },
    {
        let u: u128 = if val >= 0 {
            val as u128
        } else {
            0xFFFFFFFFFFFFFFFFFFFFFFFFFFFFFFFF - ((-(val + 1)) as u128)
        };
        proof {
            lemma_pow256_values();
        }
        let bytes = be_vec_of(u, 16);
        self.put(bytes.as_slice())
    }

    /// Writes `val` as 16 native-endian bytes, two's complement.
    fn put_i128_ne(&mut self, val: i128) -> (r: Result<(), BadPos>)
        requires
            old(self).inv(),
        ensures
            final(self).inv(),
            match r {
                Ok(_) => {
                    &&& 16 <= old(self).remaining().len()
                    &&& final(self).store() == splice(
                        old(self).store(),
                        old(self).mark() as int,
                        ne_bytes(unsigned_val(val as int, 16), 16),
                    )
                    &&& final(self).mark() == old(self).mark() + 16
                },
                Err(_) => {
                    &&& old(self).remaining().len() < 16
                    &&& final(self).store() == old(self).store()
                    &&& final(self).mark() == old(self).mark()
                },
            },
    {
        if native_is_little() {
            self.put_i128_le(val)
        } else {
            self.put_i128_be(val)
        }
    }
}

} // verus!
