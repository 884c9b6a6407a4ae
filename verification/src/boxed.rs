//! What is left of a box when its value is gone: the layout of the allocation,
//! which decides what may be put into it next.

use vstd::prelude::*;
use crate::layout::Layout;

verus! {

/// Extension methods for `Box<T>`.
pub trait BoxExt: Sized {
    /// The type that the `Box<T>` stores.
    type T: ?Sized;

    /// The layout of the value in the box.
    spec fn value_layout(&self) -> Layout;

    /// Drops the value inside the box and returns the allocation.
    fn drop_box(bx: Self) -> (uninit: UninitBox)
        ensures
            uninit.wf(),
            uninit.layout() == bx.value_layout(),
    ;

    /// Takes the value out of the box and returns it with the allocation,
    /// which has the layout of the type and so can be initialized again with
    /// a value of that type.
    fn take_box(bx: Self) -> (taken: (UninitBox, Self::T)) where Self::T: Sized
        ensures
            taken.0.wf(),
            taken.0.layout() == Layout::of::<Self::T>(),
            Self::holds(bx, taken.1),
    ;

    /// `value` is what the box holds.
    spec fn holds(bx: Self, value: Self::T) -> bool where Self::T: Sized;
}

impl<T: ?Sized> BoxExt for Box<T> {
    type T = T;

    open spec fn value_layout(&self) -> Layout {
        Layout {
            size: core::mem::size_of_val::<T>(&**self),
            align: core::mem::align_of_val::<T>(&**self),
        }
    }

    open spec fn holds(bx: Self, value: T) -> bool where T: Sized {
        *bx == value
    }

    fn drop_box(bx: Self) -> (uninit: UninitBox) {
        let layout = Layout {
            size: core::mem::size_of_val::<T>(&*bx),
            align: core::mem::align_of_val::<T>(&*bx),
        };
        UninitBox::from_layout(layout)
    }

    fn take_box(bx: Self) -> (taken: (UninitBox, T)) where T: Sized {
        let value = *bx;
        (UninitBox::new::<T>(), value)
    }
}

/// An allocation that holds no value.
///
/// What is kept of it is its layout and, for an allocation of no bytes, the
/// address that stands for it; the address of any other allocation is the
/// allocator's to choose.
pub struct UninitBox {
    layout: Layout,
    ptr: Option<usize>,
}

impl UninitBox {
    /// The layout of the allocation.
    pub closed spec fn spec_layout(&self) -> Layout {
        self.layout
    }

    /// The address of the allocation, where the layout decides it.
    pub closed spec fn spec_ptr(&self) -> Option<usize> {
        self.ptr
    }

    /// An allocation of no bytes is not asked of the allocator: the
    /// alignment, taken as an address, stands for it.
    pub open spec fn wf(&self) -> bool {
        self.spec_ptr() == if self.spec_layout().size == 0 {
            Some(self.spec_layout().align)
        } else {
            None::<usize>
        }
    }

    /// The layout of the allocation.
    #[inline]
    #[verifier::when_used_as_spec(spec_layout)]
    pub fn layout(&self) -> (layout: Layout)
        ensures
            layout == self.spec_layout(),
    {
        self.layout
    }

    /// Creates a new allocation that can fit the given type.
    #[inline]
    pub fn new<T>() -> (uninit: Self)
        ensures
            uninit.wf(),
            uninit.layout() == Layout::of::<T>(),
    {
        Self::from_layout(Layout::new::<T>())
    }

    /// Creates a new allocation that can fit the given layout.
    #[inline]
    pub fn from_layout(layout: Layout) -> (uninit: Self)
        ensures
            uninit.wf(),
            uninit.layout() == layout,
    {
        if layout.size() == 0 {
            UninitBox { layout, ptr: Some(layout.align()) }
        } else {
            UninitBox { layout, ptr: None }
        }
    }

    /// Initializes the box with the given value. The layout of the
    /// allocation has to be that of `T`.
    #[inline]
    pub fn init<T>(self, value: T) -> (bx: Box<T>)
        requires
            self.layout() == Layout::of::<T>(),
        ensures
            *bx == value,
    {
        Box::new(value)
    }

    /// Initializes the box with the value that the given function returns.
    /// The layout of the allocation has to be that of `T`.
    #[inline]
    pub fn init_with<T, F: FnOnce() -> T>(self, value: F) -> (bx: Box<T>)
        requires
            self.layout() == Layout::of::<T>(),
            call_requires(value, ()),
        ensures
            call_ensures(value, (), *bx),
    {
        Box::new(value())
    }

    /// The address of the allocation if the layout decides it: that of an
    /// allocation of no bytes is the alignment.
    #[inline]
    pub fn as_ptr(&self) -> (ptr: Option<usize>)
        ensures
            ptr == self.spec_ptr(),
    {
        self.ptr
    }

    /// The address of the allocation if the layout decides it: that of an
    /// allocation of no bytes is the alignment.
    #[inline]
    pub fn as_mut_ptr(&mut self) -> (ptr: Option<usize>)
        ensures
            ptr == old(self).spec_ptr(),
            *final(self) == *old(self),
    {
        self.ptr
    }
}

} // verus!
