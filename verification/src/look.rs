//! The restorable cursor: it owns its buffer, tracks the absolute position
//! consumed so far, and can give the whole buffer back.

use vstd::prelude::*;
use vstd::slice::slice_index_get;
use vstd::slice::slice_subrange;
use vstd::std_specs::vec::vec_index_mut;

use crate::BadPos;
use crate::view::Bytes;
use crate::view::TakeView;
use crate::view_mut::BytesMut;
use crate::view_mut::ViewMut;
use crate::view_mut::splice;

verus! {

/// Temporarily look into a buffer.
///
/// Similar to a slice cursor except that the original buffer can be
/// restored after consuming from it: the cursor owns the buffer, knows the
/// absolute position of everything it hands out, and gives the buffer back
/// through [`into_inner`](Look::into_inner).
pub struct Look<T> {
    buf: Vec<T>,
    pos: usize,
}

impl<T> Look<T> {
    /// A cursor over the whole of `buf`, nothing consumed yet.
    pub fn new(buf: Vec<T>) -> (r: Look<T>)
        ensures
            r.inv(),
            r.store() == buf@,
            r.mark() == 0,
    {
        Look { buf, pos: 0 }
    }

    /// A cursor over `buf` that starts at position `pos`, as if the first
    /// `pos` elements had already been consumed. A position past the end
    /// of the buffer is refused.
    pub fn new_with_pos(buf: Vec<T>, pos: usize) -> (r: Result<Look<T>, BadPos>)
        ensures
            match r {
                Ok(l) => {
                    &&& pos <= buf@.len()
                    &&& l.inv()
                    &&& l.store() == buf@
                    &&& l.mark() == pos
                },
                Err(_) => pos > buf@.len(),
            },
    {
        if pos > buf.len() {
            return Err(BadPos);
        }
        Ok(Look { buf, pos })
    }

    /// A cursor over `buf` positioned where `slice` begins, for a `slice`
    /// that marks the not-yet-consumed tail of `buf`: the position becomes
    /// `buf.len() - slice.len()`. A slice longer than the buffer is
    /// refused.
    ///
    /// The caller is trusted on one point the result cannot express:
    /// `slice` should be a view of the tail of `buf` itself, as returned
    /// by earlier cursor operations over it. Only the lengths enter the
    /// computation, so an unrelated slice of the same length yields a
    /// well-formed cursor at a position that means nothing.
    pub fn from_slice(buf: Vec<T>, slice: &[T]) -> (r: Result<Look<T>, BadPos>)
        ensures
            match r {
                Ok(l) => {
                    &&& slice@.len() <= buf@.len()
                    &&& l.inv()
                    &&& l.store() == buf@
                    &&& l.mark() == buf@.len() - slice@.len()
                },
                Err(_) => slice@.len() > buf@.len(),
            },
    {
        let n = slice.len();
        if n > buf.len() {
            return Err(BadPos);
        }
        let pos = buf.len() - n;
        Ok(Look { buf, pos })
    }

    /// The absolute position: how many elements have been consumed since
    /// construction.
    pub fn pos(&self) -> (r: usize)
        requires
            self.inv(),
        ensures
            r == self.mark(),
            r <= self.store().len(),
    {
        self.pos
    }

    /// Gives the buffer back, writes included, wherever the cursor stands.
    pub fn into_inner(self) -> (r: Vec<T>)
        ensures
            r@ == self.store(),
    {
        self.buf
    }
}

impl<T> TakeView<T> for Look<T> {
    closed spec fn store(&self) -> Seq<T> {
        self.buf@
    }

    closed spec fn mark(&self) -> nat {
        self.pos as nat
    }

    closed spec fn inv(&self) -> bool {
        self.pos <= self.buf@.len()
    }

    proof fn lemma_inv(&self) {
    }

    fn as_ref(&self) -> (r: &[T]) {
        slice_subrange(self.buf.as_slice(), self.pos, self.buf.len())
    }

    fn take<'a>(&'a mut self, n: usize) -> (r: Result<&'a [T], BadPos>) {
        let len = self.buf.len();
        if n > len - self.pos {
            return Err(BadPos);
        }
        let p = self.pos;
        self.pos = p + n;
        let out = slice_subrange(self.buf.as_slice(), p, p + n);
        proof {
            assert(out@ =~= old(self).remaining().take(n as int));
            assert(out@ + self.remaining() =~= old(self).remaining());
        }
        Ok(out)
    }
}

impl<T: Copy> ViewMut<T> for Look<T> {
    fn put(&mut self, val: &[T]) -> (r: Result<(), BadPos>) {
        let n = val.len();
        let len = self.buf.len();
        if n > len - self.pos {
            return Err(BadPos);
        }
        let p = self.pos;
        let mut i: usize = 0;
        while i < n
            invariant
                i <= n,
                n == val@.len(),
                p + n <= usize::MAX,
                p + n <= self.buf@.len(),
                self.pos == p,
                self.buf@.len() == old(self).store().len(),
                old(self).store() == old(self).buf@,
                forall|j: int| 0 <= j < i ==> self.buf@[p + j] == val@[j],
                forall|j: int|
                    0 <= j < self.buf@.len() && !(p <= j < p + i) ==> self.buf@[j] == old(
                        self,
                    ).buf@[j],
            decreases n - i,
        {
            let dst = vec_index_mut(&mut self.buf, p + i);
            *dst = *slice_index_get(val, i);
            i = i + 1;
        }
        self.pos = p + n;
        proof {
            assert(self.buf@ =~= splice(old(self).store(), old(self).mark() as int, val@));
        }
        Ok(())
    }
}

impl Bytes for Look<u8> {
}

impl BytesMut for Look<u8> {
}

} // verus!
