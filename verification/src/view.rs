//! The forward-consuming cursor abstraction: a trait for anything that can
//! carve successive sub-ranges off the front of a buffer, and the borrowed
//! slice cursor that implements it.

use vstd::prelude::*;
use vstd::slice::slice_index_get;
use vstd::slice::slice_subrange;

use crate::BadPos;
use crate::codec::be_val;
use crate::codec::le_val;
use crate::codec::lemma_be_val_bound;
use crate::codec::lemma_le_val_bound;
use crate::codec::lemma_pow256_values;
use crate::codec::native_is_little;
use crate::codec::ne_val;
use crate::codec::signed_val;
use crate::codec::str_from_utf8;
use crate::codec::u128_of_be;
use crate::codec::u128_of_le;
use crate::codec::utf8_chars;

verus! {

/// A cursor over a buffer of elements of type `T`.
///
/// The abstract model is a fixed underlying buffer, [`store`](Self::store),
/// and a position [`mark`](Self::mark) that separates the consumed prefix
/// from the remaining suffix. [`take`](Self::take) hands out the next `n`
/// elements and advances the mark; it never changes the store.
pub trait TakeView<T>: Sized {
    /// The whole underlying buffer, consumed prefix included.
    spec fn store(&self) -> Seq<T>;

    /// How many elements have been consumed so far.
    spec fn mark(&self) -> nat;

    /// Well-formedness: established by constructors, preserved by every
    /// operation.
    spec fn inv(&self) -> bool;

    /// A well-formed cursor's mark never passes the end of its store.
    proof fn lemma_inv(&self)
        requires
            self.inv(),
        ensures
            self.mark() <= self.store().len(),
    ;

    /// The elements not yet consumed.
    open spec fn remaining(&self) -> Seq<T> {
        self.store().skip(self.mark() as int)
    }

    /// Borrows the remaining, not yet consumed elements.
    fn as_ref(&self) -> (r: &[T])
        requires
            self.inv(),
        ensures
            r@ == self.remaining(),
    ;

    /// Takes the next `n` elements if at least `n` remain, advancing the
    /// cursor past them; fails without consuming anything otherwise.
    ///
    /// Success is owed exactly when `n` is at most the remaining length.
    /// On success the result and the new remainder partition the old
    /// remainder; on failure the cursor is unchanged, so a repeated
    /// failing call fails identically.
    fn take<'a>(&'a mut self, n: usize) -> (r: Result<&'a [T], BadPos>)
        requires
            old(self).inv(),
        ensures
            final(self).inv(),
            final(self).store() == old(self).store(),
            match r {
                Ok(out) => {
                    &&& n <= old(self).remaining().len()
                    &&& out@ == old(self).remaining().take(n as int)
                    &&& final(self).mark() == old(self).mark() + n
                    &&& out@ + final(self).remaining() == old(self).remaining()
                },
                Err(_) => {
                    &&& n > old(self).remaining().len()
                    &&& final(self).mark() == old(self).mark()
                },
            },
    ;
}

/// A forward-consuming cursor over a borrowed slice.
pub struct SliceCursor<'a, T> {
    buf: &'a [T],
    pos: usize,
}

impl<'a, T> SliceCursor<'a, T> {
    /// A cursor over the whole of `buf`, nothing consumed yet.
    pub fn new(buf: &'a [T]) -> (r: Self)
        ensures
            r.inv(),
            r.store() == buf@,
            r.mark() == 0,
    {
        SliceCursor { buf, pos: 0 }
    }
}

impl<'a, T> TakeView<T> for SliceCursor<'a, T> {
    closed spec fn store(&self) -> Seq<T> {
        self.buf@
    }

    closed spec fn mark(&self) -> nat {
        self.pos as nat
    }

    closed spec fn inv(&self) -> bool {
        self.pos <= self.buf@.len()
    }

    proof fn lemma_inv(&self) {
    }

    fn as_ref(&self) -> (r: &[T]) {
        slice_subrange(self.buf, self.pos, self.buf.len())
    }

    fn take<'b>(&'b mut self, n: usize) -> (r: Result<&'b [T], BadPos>) {
        if n > self.buf.len() - self.pos {
            return Err(BadPos);
        }
        let out = slice_subrange(self.buf, self.pos, self.pos + n);
        self.pos = self.pos + n;
        proof {
            assert(out@ == old(self).remaining().take(n as int)) by {
                assert(out@ =~= old(self).remaining().take(n as int));
            }
            assert(out@ + self.remaining() =~= old(self).remaining());
        }
        Ok(out)
    }
}


/// A NUL-terminated scan: the number of leading elements before the first
/// NUL byte, or the whole length when there is none.
pub open spec fn nul_scan(s: Seq<u8>) -> nat
    decreases s.len(),
{
    if s.len() == 0 || s[0] == 0 {
        0
    } else {
        1 + nul_scan(s.skip(1))
    }
}

/// `nul_scan` is characterised by its first-NUL reading: it is the unique
/// `i` with no NUL before it that either sits on a NUL or at the end.
pub proof fn lemma_nul_scan_at(s: Seq<u8>, i: nat)
    requires
        i <= s.len(),
        forall|j: int| 0 <= j < i ==> s[j] != 0,
        i < s.len() ==> s[i as int] == 0,
    ensures
        nul_scan(s) == i,
    decreases s.len(),
{
    if s.len() == 0 || s[0] == 0 {
    } else {
        lemma_nul_scan_at(s.skip(1), (i - 1) as nat);
    }
}

/// Every element before `nul_scan(s)` is other than NUL, and when the scan
/// stops short of the end it stops on a NUL.
pub proof fn lemma_nul_scan_first(s: Seq<u8>)
    ensures
        nul_scan(s) <= s.len(),
        forall|j: int| 0 <= j < nul_scan(s) ==> s[j] != 0,
        nul_scan(s) < s.len() ==> s[nul_scan(s) as int] == 0,
    decreases s.len(),
{
    if s.len() == 0 || s[0] == 0 {
    } else {
        lemma_nul_scan_first(s.skip(1));
        assert forall|j: int| 0 <= j < nul_scan(s) implies s[j] != 0 by {
            if j > 0 {
                assert(s.skip(1)[j - 1] == s[j]);
            }
        }
    }
}

/// The byte-level codec operations: fixed-width integers in little-endian,
/// big-endian and native byte order, and NUL-terminated or UTF-8-checked
/// byte strings, all layered on [`TakeView::take`].
pub trait Bytes: TakeView<u8> {
    /// Takes one byte.
    fn take_u8(&mut self) -> (r: Result<u8, BadPos>)
        requires
            old(self).inv(),
        ensures
            final(self).inv(),
            final(self).store() == old(self).store(),
            match r {
                Ok(v) => {
                    &&& 1 <= old(self).remaining().len()
                    &&& final(self).mark() == old(self).mark() + 1
                    &&& v == old(self).remaining()[0]
                },
                Err(_) => {
                    &&& old(self).remaining().len() < 1
                    &&& final(self).mark() == old(self).mark()
                },
            },
    {
        let out = self.take(1)?;
        Ok(*slice_index_get(out, 0))
    }

    /// Takes one byte and reads it as an `i8`.
    fn take_i8(&mut self) -> (r: Result<i8, BadPos>)
        requires
            old(self).inv(),
        ensures
            final(self).inv(),
            final(self).store() == old(self).store(),
            match r {
                Ok(v) => {
                    &&& 1 <= old(self).remaining().len()
                    &&& final(self).mark() == old(self).mark() + 1
                    &&& v as int == signed_val(old(self).remaining()[0] as nat, 1)
                },
                Err(_) => {
                    &&& old(self).remaining().len() < 1
                    &&& final(self).mark() == old(self).mark()
                },
            },
    {
        let b = self.take_u8()?;
        proof {
            lemma_pow256_values();
        }
        if b < 128 {
            Ok(b as i8)
        } else {
            Ok(i8::MIN + ((b - 128) as i8))
        }
    }

    /// Takes `n` bytes and checks that they are well-formed text.
    ///
    /// Bytes that are not valid UTF-8 are treated like a bad position, but
    /// only after the bytes have been consumed.
    fn take_as_str<'a>(&'a mut self, n: usize) -> (r: Result<&'a str, BadPos>)
        requires
            old(self).inv(),
        ensures
            final(self).inv(),
            final(self).store() == old(self).store(),
            match r {
                Ok(s) => {
                    &&& n <= old(self).remaining().len()
                    &&& final(self).mark() == old(self).mark() + n
                    &&& utf8_chars(old(self).remaining().take(n as int)) == Some(s@)
                },
                Err(_) => {
                    ||| {
                        &&& n > old(self).remaining().len()
                        &&& final(self).mark() == old(self).mark()
                    }
                    ||| {
                        &&& n <= old(self).remaining().len()
                        &&& utf8_chars(old(self).remaining().take(n as int)) is None
                        &&& final(self).mark() == old(self).mark() + n
                    }
                },
            },
    {
        let out = self.take(n)?;
        match str_from_utf8(out) {
            Some(s) => Ok(s),
            None => Err(BadPos),
        }
    }

    /// Scans the remaining bytes for the first NUL, consumes through it,
    /// and returns the bytes before it — the terminator is consumed but
    /// not returned. Fails without consuming when no NUL remains.
    fn take_until_nul<'a>(&'a mut self) -> (r: Result<&'a [u8], BadPos>)
        requires
            old(self).inv(),
        ensures
            final(self).inv(),
            final(self).store() == old(self).store(),
            match r {
                Ok(out) => {
                    &&& nul_scan(old(self).remaining()) < old(self).remaining().len()
                    &&& out@ == old(self).remaining().take(nul_scan(old(self).remaining()) as int)
                    &&& final(self).mark() == old(self).mark() + nul_scan(old(self).remaining()) + 1
                },
                Err(_) => {
                    &&& nul_scan(old(self).remaining()) == old(self).remaining().len()
                    &&& final(self).mark() == old(self).mark()
                },
            },
    {
        let rem = self.as_ref();
        let len = rem.len();
        let mut i: usize = 0;
        while i < len && *slice_index_get(rem, i) != 0
            invariant
                i <= len,
                len == rem@.len(),
                rem@ == self.remaining(),
                forall|j: int| 0 <= j < i ==> rem@[j] != 0,
            decreases len - i,
        {
            i = i + 1;
        }
        proof {
            lemma_nul_scan_at(rem@, i as nat);
        }
        if i == len {
            return Err(BadPos);
        }
        let out = self.take(i + 1)?;
        let head = slice_subrange(out, 0, i);
        proof {
            assert(head@ =~= old(self).remaining().take(i as int));
        }
        Ok(head)
    }

    /// Takes the bytes before the first NUL, as
    /// [`take_until_nul`](Self::take_until_nul) does, and checks that they
    /// are well-formed text. Invalid UTF-8 fails after the bytes have been
    /// consumed.
    fn take_as_str_until_nul<'a>(&'a mut self) -> (r: Result<&'a str, BadPos>)
        requires
            old(self).inv(),
        ensures
            final(self).inv(),
            final(self).store() == old(self).store(),
            match r {
                Ok(s) => {
                    &&& nul_scan(old(self).remaining()) < old(self).remaining().len()
                    &&& utf8_chars(
                        old(self).remaining().take(nul_scan(old(self).remaining()) as int),
                    ) == Some(s@)
                    &&& final(self).mark() == old(self).mark() + nul_scan(old(self).remaining()) + 1
                },
                Err(_) => {
                    ||| {
                        &&& nul_scan(old(self).remaining()) == old(self).remaining().len()
                        &&& final(self).mark() == old(self).mark()
                    }
                    ||| {
                        &&& nul_scan(old(self).remaining()) < old(self).remaining().len()
                        &&& utf8_chars(
                            old(self).remaining().take(nul_scan(old(self).remaining()) as int),
                        ) is None
                        &&& final(self).mark() == old(self).mark() + nul_scan(
                            old(self).remaining(),
                        ) + 1
                    }
                },
            },
    {
        let out = self.take_until_nul()?;
        match str_from_utf8(out) {
            Some(s) => Ok(s),
            None => Err(BadPos),
        }
    }


    /// Takes 2 bytes and reads them as a little-endian `u16`.
    fn take_u16_le(&mut self) -> (r: Result<u16, BadPos>)
        requires
            old(self).inv(),
        ensures
            final(self).inv(),
            final(self).store() == old(self).store(),
            match r {
                Ok(v) => {
                    &&& 2 <= old(self).remaining().len()
                    &&& final(self).mark() == old(self).mark() + 2
                    &&& v as nat == le_val(old(self).remaining().take(2))
                },
                Err(_) => {
                    &&& old(self).remaining().len() < 2
                    &&& final(self).mark() == old(self).mark()
                },
            },
    {
        let out = self.take(2)?;
        let u = u128_of_le(out);
        proof {
            lemma_le_val_bound(out@);
            lemma_pow256_values();
        }
        Ok(u as u16)
    }

    /// Takes 2 bytes and reads them as a big-endian `u16`.
    fn take_u16_be(&mut self) -> (r: Result<u16, BadPos>)
        requires
            old(self).inv(),
        ensures
            final(self).inv(),
            final(self).store() == old(self).store(),
            match r {
                Ok(v) => {
                    &&& 2 <= old(self).remaining().len()
                    &&& final(self).mark() == old(self).mark() + 2
                    &&& v as nat == be_val(old(self).remaining().take(2))
                },
                Err(_) => {
                    &&& old(self).remaining().len() < 2
                    &&& final(self).mark() == old(self).mark()
                },
            },
    {
        let out = self.take(2)?;
        let u = u128_of_be(out);
        proof {
            lemma_be_val_bound(out@);
            lemma_pow256_values();
        }
        Ok(u as u16)
    }

    /// Takes 2 bytes and reads them as a native-endian `u16`.
    fn take_u16_ne(&mut self) -> (r: Result<u16, BadPos>)
        requires
            old(self).inv(),
        ensures
            final(self).inv(),
            final(self).store() == old(self).store(),
            match r {
                Ok(v) => {
                    &&& 2 <= old(self).remaining().len()
                    &&& final(self).mark() == old(self).mark() + 2
                    &&& v as nat == ne_val(old(self).remaining().take(2))
                },
                Err(_) => {
                    &&& old(self).remaining().len() < 2
                    &&& final(self).mark() == old(self).mark()
                },
            },
    {
        if native_is_little() {
            self.take_u16_le()
        } else {
            self.take_u16_be()
        }
    }

    /// Takes 2 bytes and reads them as a little-endian `i16`.
    fn take_i16_le(&mut self) -> (r: Result<i16, BadPos>)
        requires
            old(self).inv(),
        ensures
            final(self).inv(),
            final(self).store() == old(self).store(),
            match r {
                Ok(v) => {
                    &&& 2 <= old(self).remaining().len()
                    &&& final(self).mark() == old(self).mark() + 2
                    &&& v as int == signed_val(le_val(old(self).remaining().take(2)), 2)
                },
                Err(_) => {
                    &&& old(self).remaining().len() < 2
                    &&& final(self).mark() == old(self).mark()
                },
            },
    {
        let out = self.take(2)?;
        let u = u128_of_le(out);
        proof {
            lemma_le_val_bound(out@);
            lemma_pow256_values();
        }
        if u < 0x8000 {
            Ok(u as i16)
        } else {
            Ok(i16::MIN + ((u - 0x8000) as i16))
        }
    }

    /// Takes 2 bytes and reads them as a big-endian `i16`.
    fn take_i16_be(&mut self) -> (r: Result<i16, BadPos>)
        requires
            old(self).inv(),
        ensures
            final(self).inv(),
            final(self).store() == old(self).store(),
            match r {
                Ok(v) => {
                    &&& 2 <= old(self).remaining().len()
                    &&& final(self).mark() == old(self).mark() + 2
                    &&& v as int == signed_val(be_val(old(self).remaining().take(2)), 2)
                },
                Err(_) => {
                    &&& old(self).remaining().len() < 2
                    &&& final(self).mark() == old(self).mark()
                },
            },
    {
        let out = self.take(2)?;
        let u = u128_of_be(out);
        proof {
            lemma_be_val_bound(out@);
            lemma_pow256_values();
        }
        if u < 0x8000 {
            Ok(u as i16)
        } else {
            Ok(i16::MIN + ((u - 0x8000) as i16))
        }
    }

    /// Takes 2 bytes and reads them as a native-endian `i16`.
    fn take_i16_ne(&mut self) -> (r: Result<i16, BadPos>)
        requires
            old(self).inv(),
        ensures
            final(self).inv(),
            final(self).store() == old(self).store(),
            match r {
                Ok(v) => {
                    &&& 2 <= old(self).remaining().len()
                    &&& final(self).mark() == old(self).mark() + 2
                    &&& v as int == signed_val(ne_val(old(self).remaining().take(2)), 2)
                },
                Err(_) => {
                    &&& old(self).remaining().len() < 2
                    &&& final(self).mark() == old(self).mark()
                },
            },
    {
        if native_is_little() {
            self.take_i16_le()
        } else {
            self.take_i16_be()
        }
    }

    /// Takes 4 bytes and reads them as a little-endian `u32`.
    fn take_u32_le(&mut self) -> (r: Result<u32, BadPos>)
        requires
            old(self).inv(),
        ensures
            final(self).inv(),
            final(self).store() == old(self).store(),
            match r {
                Ok(v) => {
                    &&& 4 <= old(self).remaining().len()
                    &&& final(self).mark() == old(self).mark() + 4
                    &&& v as nat == le_val(old(self).remaining().take(4))
                },
                Err(_) => {
                    &&& old(self).remaining().len() < 4
                    &&& final(self).mark() == old(self).mark()
                },
            },
    {
        let out = self.take(4)?;
        let u = u128_of_le(out);
        proof {
            lemma_le_val_bound(out@);
            lemma_pow256_values();
        }
        Ok(u as u32)
    }

    /// Takes 4 bytes and reads them as a big-endian `u32`.
    fn take_u32_be(&mut self) -> (r: Result<u32, BadPos>)
        requires
            old(self).inv(),
        ensures
            final(self).inv(),
            final(self).store() == old(self).store(),
            match r {
                Ok(v) => {
                    &&& 4 <= old(self).remaining().len()
                    &&& final(self).mark() == old(self).mark() + 4
                    &&& v as nat == be_val(old(self).remaining().take(4))
                },
                Err(_) => {
                    &&& old(self).remaining().len() < 4
                    &&& final(self).mark() == old(self).mark()
                },
            },
    {
        let out = self.take(4)?;
        let u = u128_of_be(out);
        proof {
            lemma_be_val_bound(out@);
            lemma_pow256_values();
        }
        Ok(u as u32)
    }

    /// Takes 4 bytes and reads them as a native-endian `u32`.
    fn take_u32_ne(&mut self) -> (r: Result<u32, BadPos>)
        requires
            old(self).inv(),
        ensures
            final(self).inv(),
            final(self).store() == old(self).store(),
            match r {
                Ok(v) => {
                    &&& 4 <= old(self).remaining().len()
                    &&& final(self).mark() == old(self).mark() + 4
                    &&& v as nat == ne_val(old(self).remaining().take(4))
                },
                Err(_) => {
                    &&& old(self).remaining().len() < 4
                    &&& final(self).mark() == old(self).mark()
                },
            },
    {
        if native_is_little() {
            self.take_u32_le()
        } else {
            self.take_u32_be()
        }
    }

    /// Takes 4 bytes and reads them as a little-endian `i32`.
    fn take_i32_le(&mut self) -> (r: Result<i32, BadPos>)
        requires
            old(self).inv(),
        ensures
            final(self).inv(),
            final(self).store() == old(self).store(),
            match r {
                Ok(v) => {
                    &&& 4 <= old(self).remaining().len()
                    &&& final(self).mark() == old(self).mark() + 4
                    &&& v as int == signed_val(le_val(old(self).remaining().take(4)), 4)
                },
                Err(_) => {
                    &&& old(self).remaining().len() < 4
                    &&& final(self).mark() == old(self).mark()
                },
            },
    {
        let out = self.take(4)?;
        let u = u128_of_le(out);
        proof {
            lemma_le_val_bound(out@);
            lemma_pow256_values();
        }
        if u < 0x80000000 {
            Ok(u as i32)
        } else {
            Ok(i32::MIN + ((u - 0x80000000) as i32))
        }
    }

    /// Takes 4 bytes and reads them as a big-endian `i32`.
    fn take_i32_be(&mut self) -> (r: Result<i32, BadPos>)
        requires
            old(self).inv(),
        ensures
            final(self).inv(),
            final(self).store() == old(self).store(),
            match r {
                Ok(v) => {
                    &&& 4 <= old(self).remaining().len()
                    &&& final(self).mark() == old(self).mark() + 4
                    &&& v as int == signed_val(be_val(old(self).remaining().take(4)), 4)
                },
                Err(_) => {
                    &&& old(self).remaining().len() < 4
                    &&& final(self).mark() == old(self).mark()
                },
            },
    {
        let out = self.take(4)?;
        let u = u128_of_be(out);
        proof {
            lemma_be_val_bound(out@);
            lemma_pow256_values();
        }
        if u < 0x80000000 {
            Ok(u as i32)
        } else {
            Ok(i32::MIN + ((u - 0x80000000) as i32))
        }
    }

    /// Takes 4 bytes and reads them as a native-endian `i32`.
    fn take_i32_ne(&mut self) -> (r: Result<i32, BadPos>)
        requires
            old(self).inv(),
        ensures
            final(self).inv(),
            final(self).store() == old(self).store(),
            match r {
                Ok(v) => {
                    &&& 4 <= old(self).remaining().len()
                    &&& final(self).mark() == old(self).mark() + 4
                    &&& v as int == signed_val(ne_val(old(self).remaining().take(4)), 4)
                },
                Err(_) => {
                    &&& old(self).remaining().len() < 4
                    &&& final(self).mark() == old(self).mark()
                },
            },
    {
        if native_is_little() {
            self.take_i32_le()
        } else {
            self.take_i32_be()
        }
    }

    /// Takes 8 bytes and reads them as a little-endian `u64`.
    fn take_u64_le(&mut self) -> (r: Result<u64, BadPos>)
        requires
            old(self).inv(),
        ensures
            final(self).inv(),
            final(self).store() == old(self).store(),
            match r {
                Ok(v) => {
                    &&& 8 <= old(self).remaining().len()
                    &&& final(self).mark() == old(self).mark() + 8
                    &&& v as nat == le_val(old(self).remaining().take(8))
                },
                Err(_) => {
                    &&& old(self).remaining().len() < 8
                    &&& final(self).mark() == old(self).mark()
                },
            },
    {
        let out = self.take(8)?;
        let u = u128_of_le(out);
        proof {
            lemma_le_val_bound(out@);
            lemma_pow256_values();
        }
        Ok(u as u64)
    }

    /// Takes 8 bytes and reads them as a big-endian `u64`.
    fn take_u64_be(&mut self) -> (r: Result<u64, BadPos>)
        requires
            old(self).inv(),
        ensures
            final(self).inv(),
            final(self).store() == old(self).store(),
            match r {
                Ok(v) => {
                    &&& 8 <= old(self).remaining().len()
                    &&& final(self).mark() == old(self).mark() + 8
                    &&& v as nat == be_val(old(self).remaining().take(8))
                },
                Err(_) => {
                    &&& old(self).remaining().len() < 8
                    &&& final(self).mark() == old(self).mark()
                },
            },
    {
        let out = self.take(8)?;
        let u = u128_of_be(out);
        proof {
            lemma_be_val_bound(out@);
            lemma_pow256_values();
        }
        Ok(u as u64)
    }

    /// Takes 8 bytes and reads them as a native-endian `u64`.
    fn take_u64_ne(&mut self) -> (r: Result<u64, BadPos>)
        requires
            old(self).inv(),
        ensures
            final(self).inv(),
            final(self).store() == old(self).store(),
            match r {
                Ok(v) => {
                    &&& 8 <= old(self).remaining().len()
                    &&& final(self).mark() == old(self).mark() + 8
                    &&& v as nat == ne_val(old(self).remaining().take(8))
                },
                Err(_) => {
                    &&& old(self).remaining().len() < 8
                    &&& final(self).mark() == old(self).mark()
                },
            },
    {
        if native_is_little() {
            self.take_u64_le()
        } else {
            self.take_u64_be()
        }
    }

    /// Takes 8 bytes and reads them as a little-endian `i64`.
    fn take_i64_le(&mut self) -> (r: Result<i64, BadPos>)
        requires
            old(self).inv(),
        ensures
            final(self).inv(),
            final(self).store() == old(self).store(),
            match r {
                Ok(v) => {
                    &&& 8 <= old(self).remaining().len()
                    &&& final(self).mark() == old(self).mark() + 8
                    &&& v as int == signed_val(le_val(old(self).remaining().take(8)), 8)
                },
                Err(_) => {
                    &&& old(self).remaining().len() < 8
                    &&& final(self).mark() == old(self).mark()
                },
            },
    {
        let out = self.take(8)?;
        let u = u128_of_le(out);
        proof {
            lemma_le_val_bound(out@);
            lemma_pow256_values();
        }
        if u < 0x8000000000000000 {
            Ok(u as i64)
        } else {
            Ok(i64::MIN + ((u - 0x8000000000000000) as i64))
        }
    }

    /// Takes 8 bytes and reads them as a big-endian `i64`.
    fn take_i64_be(&mut self) -> (r: Result<i64, BadPos>)
        requires
            old(self).inv(),
        ensures
            final(self).inv(),
            final(self).store() == old(self).store(),
            match r {
                Ok(v) => {
                    &&& 8 <= old(self).remaining().len()
                    &&& final(self).mark() == old(self).mark() + 8
                    &&& v as int == signed_val(be_val(old(self).remaining().take(8)), 8)
                },
                Err(_) => {
                    &&& old(self).remaining().len() < 8
                    &&& final(self).mark() == old(self).mark()
                },
            },
    {
        let out = self.take(8)?;
        let u = u128_of_be(out);
        proof {
            lemma_be_val_bound(out@);
            lemma_pow256_values();
        }
        if u < 0x8000000000000000 {
            Ok(u as i64)
        } else {
            Ok(i64::MIN + ((u - 0x8000000000000000) as i64))
        }
    }

    /// Takes 8 bytes and reads them as a native-endian `i64`.
    fn take_i64_ne(&mut self) -> (r: Result<i64, BadPos>)
        requires
            old(self).inv(),
        ensures
            final(self).inv(),
            final(self).store() == old(self).store(),
            match r {
                Ok(v) => {
                    &&& 8 <= old(self).remaining().len()
                    &&& final(self).mark() == old(self).mark() + 8
                    &&& v as int == signed_val(ne_val(old(self).remaining().take(8)), 8)
                },
                Err(_) => {
                    &&& old(self).remaining().len() < 8
                    &&& final(self).mark() == old(self).mark()
                },
            },
    {
        if native_is_little() {
            self.take_i64_le()
        } else {
            self.take_i64_be()
        }
    }

    /// Takes 16 bytes and reads them as a little-endian `u128`.
    fn take_u128_le(&mut self) -> (r: Result<u128, BadPos>)
        requires
            old(self).inv(),
        ensures
            final(self).inv(),
            final(self).store() == old(self).store(),
            match r {
                Ok(v) => {
                    &&& 16 <= old(self).remaining().len()
                    &&& final(self).mark() == old(self).mark() + 16
                    &&& v as nat == le_val(old(self).remaining().take(16))
                },
                Err(_) => {
                    &&& old(self).remaining().len() < 16
                    &&& final(self).mark() == old(self).mark()
                },
            },
    {
        let out = self.take(16)?;
        let u = u128_of_le(out);
        proof {
            lemma_le_val_bound(out@);
            lemma_pow256_values();
        }
        Ok(u as u128)
    }

    /// Takes 16 bytes and reads them as a big-endian `u128`.
    fn take_u128_be(&mut self) -> (r: Result<u128, BadPos>)
        requires
            old(self).inv(),
        ensures
            final(self).inv(),
            final(self).store() == old(self).store(),
            match r {
                Ok(v) => {
                    &&& 16 <= old(self).remaining().len()
                    &&& final(self).mark() == old(self).mark() + 16
                    &&& v as nat == be_val(old(self).remaining().take(16))
                },
                Err(_) => {
                    &&& old(self).remaining().len() < 16
                    &&& final(self).mark() == old(self).mark()
                },
            },
    {
        let out = self.take(16)?;
        let u = u128_of_be(out);
        proof {
            lemma_be_val_bound(out@);
            lemma_pow256_values();
        }
        Ok(u as u128)
    }

    /// Takes 16 bytes and reads them as a native-endian `u128`.
    fn take_u128_ne(&mut self) -> (r: Result<u128, BadPos>)
        requires
            old(self).inv(),
        ensures
            final(self).inv(),
            final(self).store() == old(self).store(),
            match r {
                Ok(v) => {
                    &&& 16 <= old(self).remaining().len()
                    &&& final(self).mark() == old(self).mark() + 16
                    &&& v as nat == ne_val(old(self).remaining().take(16))
                },
                Err(_) => {
                    &&& old(self).remaining().len() < 16
                    &&& final(self).mark() == old(self).mark()
                },
            },
    {
        if native_is_little() {
            self.take_u128_le()
        } else {
            self.take_u128_be()
        }
    }

    /// Takes 16 bytes and reads them as a little-endian `i128`.
    fn take_i128_le(&mut self) -> (r: Result<i128, BadPos>)
        requires
            old(self).inv(),
        ensures
            final(self).inv(),
            final(self).store() == old(self).store(),
            match r {
                Ok(v) => {
                    &&& 16 <= old(self).remaining().len()
                    &&& final(self).mark() == old(self).mark() + 16
                    &&& v as int == signed_val(le_val(old(self).remaining().take(16)), 16)
                },
                Err(_) => {
                    &&& old(self).remaining().len() < 16
                    &&& final(self).mark() == old(self).mark()
                },
            },
    {
        let out = self.take(16)?;
        let u = u128_of_le(out);
        proof {
            lemma_le_val_bound(out@);
            lemma_pow256_values();
        }
        if u < 0x80000000000000000000000000000000 {
            Ok(u as i128)
        } else {
            Ok(i128::MIN + ((u - 0x80000000000000000000000000000000) as i128))
        }
    }

    /// Takes 16 bytes and reads them as a big-endian `i128`.
    fn take_i128_be(&mut self) -> (r: Result<i128, BadPos>)
        requires
            old(self).inv(),
        ensures
            final(self).inv(),
            final(self).store() == old(self).store(),
            match r {
                Ok(v) => {
                    &&& 16 <= old(self).remaining().len()
                    &&& final(self).mark() == old(self).mark() + 16
                    &&& v as int == signed_val(be_val(old(self).remaining().take(16)), 16)
                },
                Err(_) => {
                    &&& old(self).remaining().len() < 16
                    &&& final(self).mark() == old(self).mark()
                },
            },
    {
        let out = self.take(16)?;
        let u = u128_of_be(out);
        proof {
            lemma_be_val_bound(out@);
            lemma_pow256_values();
        }
        if u < 0x80000000000000000000000000000000 {
            Ok(u as i128)
        } else {
            Ok(i128::MIN + ((u - 0x80000000000000000000000000000000) as i128))
        }
    }

    /// Takes 16 bytes and reads them as a native-endian `i128`.
    fn take_i128_ne(&mut self) -> (r: Result<i128, BadPos>)
        requires
            old(self).inv(),
        ensures
            final(self).inv(),
            final(self).store() == old(self).store(),
            match r {
                Ok(v) => {
                    &&& 16 <= old(self).remaining().len()
                    &&& final(self).mark() == old(self).mark() + 16
                    &&& v as int == signed_val(ne_val(old(self).remaining().take(16)), 16)
                },
                Err(_) => {
                    &&& old(self).remaining().len() < 16
                    &&& final(self).mark() == old(self).mark()
                },
            },
    {
        if native_is_little() {
            self.take_i128_le()
        } else {
            self.take_i128_be()
        }
    }
}

impl<'a> Bytes for SliceCursor<'a, u8> {
}

} // verus!
