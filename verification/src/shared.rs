//! The shared range view: a window onto reference-counted storage that
//! several independent views may share, with arbitrary bounds-checked
//! sub-ranging and front-consuming take.

use std::rc::Rc;

use vstd::prelude::*;
use vstd::slice::slice_index_get;
use vstd::slice::slice_subrange;
use vstd::slice::slice_to_vec;

use crate::BadPos;
use crate::OutOfBounds;
use crate::view::Bytes;
use crate::view::TakeView;

verus! {

/// One endpoint of a requested range.
#[derive(Clone, Copy, Debug, PartialEq, Eq, Structural)]
pub enum Edge {
    /// The element at this index is part of the range.
    Included(usize),
    /// The element at this index is just outside the range.
    Excluded(usize),
    /// The range extends to the view's own bound on this side.
    Unbounded,
}

/// The first index of the range a starting edge describes.
pub open spec fn edge_begin(e: Edge) -> int {
    match e {
        Edge::Included(s) => s as int,
        Edge::Excluded(s) => s as int + 1,
        Edge::Unbounded => 0,
    }
}

/// The index one past the range an ending edge describes, for a view of
/// length `len`.
pub open spec fn edge_end(e: Edge, len: int) -> int {
    match e {
        Edge::Included(x) => x as int + 1,
        Edge::Excluded(x) => x as int,
        Edge::Unbounded => len,
    }
}

/// A bounded window onto shared storage.
///
/// The storage is owned by a reference-counted buffer and stays alive as
/// long as any view over it exists. Every view addresses the sub-range
/// `[start, start + len)` of that buffer, and every operation keeps that
/// range inside the owner's allocation. Views never mutate the storage;
/// many may read it side by side.
pub struct SharedView<T> {
    owner: Rc<Vec<T>>,
    start: usize,
    len: usize,
}

impl<T> View for SharedView<T> {
    type V = Seq<T>;

    closed spec fn view(&self) -> Seq<T> {
        self.owner@.subrange(self.start as int, self.start as int + self.len as int)
    }
}

impl<T> SharedView<T> {
    /// Every view's window sits inside its owner's allocation.
    #[verifier::type_invariant]
    closed spec fn wf(self) -> bool {
        self.start + self.len <= self.owner@.len() && self.owner@.len() <= usize::MAX
    }

    /// A view spanning the whole of `owner`.
    pub fn new(owner: Rc<Vec<T>>) -> (r: SharedView<T>)
        ensures
            r.inv(),
            r@ == owner@,
    {
        let n = (*owner).len();
        let r = SharedView { owner, start: 0, len: n };
        proof {
            assert(r@ =~= r.owner@);
        }
        r
    }

    /// A view over a fresh owner holding a copy of `s`.
    pub fn from_slice(s: &[T]) -> (r: SharedView<T>) where T: Copy
        ensures
            r.inv(),
            r@ == s@,
    {
        SharedView::new(Rc::new(slice_to_vec(s)))
    }

    /// How many elements the view addresses.
    pub fn len(&self) -> (r: usize)
        requires
            self.inv(),
        ensures
            r == self@.len(),
    {
        self.len
    }

    /// The element at index `i` of the view.
    pub fn get(&self, i: usize) -> (r: &T)
        requires
            self.inv(),
            i < self@.len(),
        ensures
            *r == self@[i as int],
    {
        slice_index_get(self.as_ref(), i)
    }

    /// A new view over the sub-range of this one that the two edges
    /// describe, sharing the same owner; this view is not affected. An
    /// inverted or too-long range fails.
    ///
    /// An excluded start begins one past its index and an included end
    /// runs one past its index; success is owed exactly when the resolved
    /// range lies within the view's length.
    pub fn slice(&self, from: Edge, to: Edge) -> (r: Result<SharedView<T>, OutOfBounds>)
        requires
            self.inv(),
        ensures
            match r {
                Ok(v) => {
                    &&& edge_begin(from) <= edge_end(to, self@.len() as int) <= self@.len()
                    &&& v.inv()
                    &&& v@ == self@.subrange(edge_begin(from), edge_end(to, self@.len() as int))
                },
                Err(_) => !(edge_begin(from) <= edge_end(to, self@.len() as int) <= self@.len()),
            },
    {
        let begin: usize = match from {
            Edge::Included(s) => s,
            Edge::Excluded(s) => {
                if s == usize::MAX {
                    return Err(OutOfBounds);
                }
                s + 1
            },
            Edge::Unbounded => 0,
        };
        let end: usize = match to {
            Edge::Included(x) => {
                if x >= self.len {
                    return Err(OutOfBounds);
                }
                x + 1
            },
            Edge::Excluded(x) => x,
            Edge::Unbounded => self.len,
        };
        if begin > end || end > self.len {
            return Err(OutOfBounds);
        }
        let v = SharedView { owner: self.owner.clone(), start: self.start + begin, len: end - begin };
        proof {
            assert(v@ =~= self@.subrange(edge_begin(from), edge_end(to, self@.len() as int)));
        }
        Ok(v)
    }

    /// Removes the first `n` elements from this view and returns a new
    /// view over exactly those elements, sharing the same owner; fails
    /// and leaves this view unchanged when fewer than `n` remain.
    ///
    /// The returned prefix and what is left strictly partition what the
    /// view held before: together they are the original content, with no
    /// overlap and no gap.
    pub fn take(&mut self, n: usize) -> (r: Result<SharedView<T>, OutOfBounds>)
        requires
            old(self).inv(),
        ensures
            final(self).inv(),
            match r {
                Ok(pre) => {
                    &&& n <= old(self)@.len()
                    &&& pre.inv()
                    &&& pre@ == old(self)@.take(n as int)
                    &&& final(self)@ == old(self)@.skip(n as int)
                    &&& pre@ + final(self)@ == old(self)@
                },
                Err(_) => {
                    &&& n > old(self)@.len()
                    &&& final(self)@ == old(self)@
                },
            },
    {
        if n > self.len {
            return Err(OutOfBounds);
        }
        let pre = SharedView { owner: self.owner.clone(), start: self.start, len: n };
        self.len = self.len - n;
        self.start = self.start + n;
        proof {
            assert(pre@ =~= old(self)@.take(n as int));
            assert(self@ =~= old(self)@.skip(n as int));
            assert(pre@ + self@ =~= old(self)@);
        }
        Ok(pre)
    }

    /// A copy of the view's contents in a fresh buffer.
    pub fn to_vec(&self) -> (r: Vec<T>) where T: Copy
        requires
            self.inv(),
        ensures
            r@ == self@,
    {
        slice_to_vec(self.as_ref())
    }

    /// A view's visible contents are exactly what remains for it to take.
    pub proof fn lemma_view_is_remaining(&self)
        requires
            self.inv(),
        ensures
            self@ == self.remaining(),
    {
        assert(self@ =~= self.remaining());
    }
}

impl<T> Clone for SharedView<T> {
    /// A constant-time copy of the view, sharing the same owner.
    fn clone(&self) -> (r: Self)
        ensures
            r == *self,
    {
        proof {
            use_type_invariant(self);
        }
        SharedView { owner: self.owner.clone(), start: self.start, len: self.len }
    }
}

impl<T> TakeView<T> for SharedView<T> {
    closed spec fn store(&self) -> Seq<T> {
        self.owner@.take(self.start as int + self.len as int)
    }

    closed spec fn mark(&self) -> nat {
        self.start as nat
    }

    closed spec fn inv(&self) -> bool {
        self.wf()
    }

    proof fn lemma_inv(&self) {
    }

    fn as_ref(&self) -> (r: &[T]) {
        let out = slice_subrange((*self.owner).as_slice(), self.start, self.start + self.len);
        proof {
            assert(out@ =~= self.remaining());
        }
        out
    }

    fn take<'a>(&'a mut self, n: usize) -> (r: Result<&'a [T], BadPos>) {
        if n > self.len {
            return Err(BadPos);
        }
        let p = self.start;
        self.len = self.len - n;
        self.start = p + n;
        let out = slice_subrange((*self.owner).as_slice(), p, p + n);
        proof {
            assert(out@ =~= old(self).remaining().take(n as int));
            assert(out@ + self.remaining() =~= old(self).remaining());
        }
        Ok(out)
    }
}

impl Bytes for SharedView<u8> {
}

impl PartialEq for SharedView<u8> {
    /// Views are equal when they show the same bytes, whoever owns them.
    fn eq(&self, other: &Self) -> (r: bool) {
        proof {
            use_type_invariant(self);
            use_type_invariant(other);
            assert(self@.len() == self.len);
            assert(other@.len() == other.len);
        }
        if self.len != other.len {
            return false;
        }
        let a = self.as_ref();
        let b = other.as_ref();
        let mut i: usize = 0;
        while i < self.len
            invariant
                i <= self.len,
                self.inv(),
                other.inv(),
                self@.len() == other@.len() == self.len,
                a@ == self@,
                b@ == other@,
                forall|j: int| 0 <= j < i ==> self@[j] == other@[j],
            decreases self.len - i,
        {
            if *slice_index_get(a, i) != *slice_index_get(b, i) {
                return false;
            }
            i = i + 1;
        }
        proof {
            assert(self@ =~= other@);
        }
        true
    }
}

impl vstd::std_specs::cmp::PartialEqSpecImpl for SharedView<u8> {
    open spec fn obeys_eq_spec() -> bool {
        true
    }

    open spec fn eq_spec(&self, other: &Self) -> bool {
        self@ == other@
    }
}

/// The lexicographic order of two byte sequences: the first differing
/// byte decides, and a prefix sorts before anything that extends it.
pub open spec fn lex_order(a: Seq<u8>, b: Seq<u8>) -> core::cmp::Ordering
    decreases a.len(),
{
    if a.len() == 0 && b.len() == 0 {
        core::cmp::Ordering::Equal
    } else if a.len() == 0 {
        core::cmp::Ordering::Less
    } else if b.len() == 0 {
        core::cmp::Ordering::Greater
    } else if a[0] < b[0] {
        core::cmp::Ordering::Less
    } else if a[0] > b[0] {
        core::cmp::Ordering::Greater
    } else {
        lex_order(a.skip(1), b.skip(1))
    }
}

/// Ordering agrees with equality: two byte sequences compare as equal
/// exactly when they are the same sequence.
pub proof fn lemma_lex_order_equal(a: Seq<u8>, b: Seq<u8>)
    ensures
        (lex_order(a, b) == core::cmp::Ordering::Equal) <==> (a == b),
    decreases a.len(),
{
    if a.len() == 0 && b.len() == 0 {
        assert(a =~= b);
    } else if a.len() == 0 || b.len() == 0 {
    } else if a[0] == b[0] {
        lemma_lex_order_equal(a.skip(1), b.skip(1));
        if a.skip(1) == b.skip(1) {
            assert forall|i: int| 0 <= i < a.len() implies a[i] == b[i] by {
                if i > 0 {
                    assert(a.skip(1)[i - 1] == a[i]);
                    assert(b.skip(1)[i - 1] == b[i]);
                }
            }
            assert(a =~= b);
        }
    }
}

impl PartialOrd for SharedView<u8> {
    /// Views order by their visible bytes, lexicographically, whoever
    /// owns them.
    fn partial_cmp(&self, other: &Self) -> (r: Option<core::cmp::Ordering>) {
        proof {
            use_type_invariant(self);
            use_type_invariant(other);
        }
        let a = self.as_ref();
        let b = other.as_ref();
        let n = if self.len < other.len {
            self.len
        } else {
            other.len
        };
        let mut i: usize = 0;
        proof {
            assert(self@.skip(0) =~= self@);
            assert(other@.skip(0) =~= other@);
        }
        while i < n
            invariant
                i <= n,
                self.inv(),
                other.inv(),
                n <= self@.len(),
                n <= other@.len(),
                self@.len() == n || other@.len() == n,
                a@ == self@,
                b@ == other@,
                lex_order(self@, other@) == lex_order(self@.skip(i as int), other@.skip(i as int)),
            decreases n - i,
        {
            let x = *slice_index_get(a, i);
            let y = *slice_index_get(b, i);
            if x < y {
                return Some(core::cmp::Ordering::Less);
            }
            if x > y {
                return Some(core::cmp::Ordering::Greater);
            }
            i = i + 1;
            proof {
                assert(self@.skip(i - 1).skip(1) =~= self@.skip(i as int));
                assert(other@.skip(i - 1).skip(1) =~= other@.skip(i as int));
            }
        }
        proof {
            assert(self@.len() == self.len && other@.len() == other.len);
            if self.len == other.len {
                assert(self@.skip(n as int).len() == 0 && other@.skip(n as int).len() == 0);
            }
        }
        if self.len < other.len {
            Some(core::cmp::Ordering::Less)
        } else if self.len > other.len {
            Some(core::cmp::Ordering::Greater)
        } else {
            Some(core::cmp::Ordering::Equal)
        }
    }
}

impl vstd::std_specs::cmp::PartialOrdSpecImpl for SharedView<u8> {
    open spec fn obeys_partial_cmp_spec() -> bool {
        true
    }

    open spec fn partial_cmp_spec(&self, other: &Self) -> Option<core::cmp::Ordering> {
        Some(lex_order(self@, other@))
    }
}

} // verus!
