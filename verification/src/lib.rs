//! Bounds-checked, zero-copy access to byte buffers.
//!
//! The crate offers three cursor and view abstractions over a contiguous
//! buffer: a borrowed slice cursor ([`SliceCursor`]) that consumes a prefix
//! of a slice step by step, a restorable cursor ([`Look`]) that owns its
//! buffer and tracks an absolute position, and a shared range view
//! ([`SharedView`]) whose storage is reference counted so that several
//! views over one allocation can coexist. Fixed-width integer fields are
//! read and written through the [`Bytes`] and [`BytesMut`] traits in
//! little-endian, big-endian or native byte order.
//!
//! Every operation checks its bounds first and fails without changing the
//! cursor or view when the request does not fit.

use vstd::prelude::*;

pub mod codec;
pub mod look;
pub mod shared;
pub mod view;
pub mod view_mut;

pub use look::Look;
pub use shared::Edge;
pub use shared::SharedView;
pub use view::Bytes;
pub use view::SliceCursor;
pub use view::TakeView;
pub use view_mut::BytesMut;
pub use view_mut::ViewMut;

verus! {

/// When an operation goes to a bad position: out of bounds or invalid text.
#[derive(Debug, PartialEq, Eq, Structural)]
pub struct BadPos;

/// When a requested range of a shared view is not within its bounds.
#[derive(Debug, PartialEq, Eq, Structural)]
pub struct OutOfBounds;

} // verus!
