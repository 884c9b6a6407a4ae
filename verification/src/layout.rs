//! Element layouts: the size and the alignment of a type.

use vstd::prelude::*;

verus! {

/// The size and the alignment of a type, in bytes.
///
/// Two element types may share one allocation exactly when their layouts are
/// equal: both the size and the alignment have to agree.
#[derive(Clone, Copy, Debug, PartialEq, Eq, Structural)]
pub struct Layout {
    pub size: usize,
    pub align: usize,
}

impl Layout {
    /// The layout of `T`.
    pub open spec fn of<T>() -> Layout {
        Layout { size: core::mem::size_of::<T>(), align: core::mem::align_of::<T>() }
    }

    /// The layout of `T`.
    pub fn new<T>() -> (layout: Layout)
        ensures
            layout == Layout::of::<T>(),
    {
        Layout { size: core::mem::size_of::<T>(), align: core::mem::align_of::<T>() }
    }

    /// The size in bytes.
    pub fn size(&self) -> (size: usize)
        ensures
            size == self.size,
    {
        self.size
    }

    /// The alignment in bytes.
    pub fn align(&self) -> (align: usize)
        ensures
            align == self.align,
    {
        self.align
    }
}

/// Whether `T` and `V` are layout-equivalent: same size and same alignment.
pub open spec fn layout_equivalent<T, V>() -> bool {
    Layout::of::<T>() == Layout::of::<V>()
}

/// Decides whether a buffer of `T` can be taken over by a buffer of `V`.
pub fn same_layout<T, V>() -> (same: bool)
    ensures
        same == layout_equivalent::<T, V>(),
{
    Layout::new::<T>() == Layout::new::<V>()
}

} // verus!
